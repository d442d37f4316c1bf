use pathtracer::aabb::Aabb;
use pathtracer::dist::Dist;
use pathtracer::hit::Hittable;
use pathtracer::ray::Ray;
use pathtracer::vec::Vec3;

fn corners(b: &Aabb) -> (Vec3, Vec3) {
    (b.min(), b.max())
}

#[test]
fn empty_is_a_single_point() {
    let b = Aabb::empty(Vec3::new(3, -4, 5));
    assert_eq!(corners(&b), (Vec3::new(3, -4, 5), Vec3::new(3, -4, 5)));
}

#[test]
fn merged_takes_lowest_and_highest() {
    let a = Aabb::empty(Vec3::new(0, 5, -2));
    let b = Aabb::empty(Vec3::new(4, -1, 3));
    let m = a.merged(b);
    assert_eq!(corners(&m), (Vec3::new(0, -1, -2), Vec3::new(4, 5, 3)));
}

#[test]
fn merged_is_commutative_associative_idempotent() {
    let a = Aabb::empty(Vec3::new(0, 5, -2)).merged(Aabb::empty(Vec3::new(1, 6, 0)));
    let b = Aabb::empty(Vec3::new(4, -1, 3));
    let c = Aabb::empty(Vec3::new(-7, 2, 9));
    assert_eq!(corners(&a.merged(b)), corners(&b.merged(a)));
    assert_eq!(corners(&a.merged(b).merged(c)), corners(&a.merged(b.merged(c))));
    assert_eq!(corners(&a.merged(a)), corners(&a));
}

#[test]
fn from_points_of_nothing_is_none() {
    let points: Vec<Vec3> = Vec::new();
    assert!(Aabb::from_points(&points).is_none());
}

#[test]
fn from_points_bounds_all_points() {
    let points = vec![Vec3::new(1, 2, 3), Vec3::new(-1, 5, 0), Vec3::new(4, -2, 2)];
    let b = Aabb::from_points(&points).unwrap();
    assert_eq!(corners(&b), (Vec3::new(-1, -2, 0), Vec3::new(4, 5, 3)));
}

#[test]
fn contains_is_strict() {
    let points = vec![
        Vec3::new(0, 0, 0),
        Vec3::new(10, 10, 10),
        Vec3::new(5, 5, 5),
        Vec3::new(0, 5, 5),
        Vec3::new(5, 10, 5),
    ];
    let b = Aabb::from_points(&points).unwrap();
    // a point of the set that lies on no face
    assert!(b.contains(points[2]));
    // the corners and the points on a face are left out
    assert!(!b.contains(points[0]));
    assert!(!b.contains(points[1]));
    assert!(!b.contains(points[3]));
    assert!(!b.contains(points[4]));
    // a point outside
    assert!(!b.contains(Vec3::new(11, 5, 5)));
    assert!(b.contains(Vec3::new(1, 9, 1)));
}

#[test]
fn center_is_the_doubled_midpoint() {
    let b = Aabb::empty(Vec3::new(1, 2, 3)).merged(Aabb::empty(Vec3::new(4, 4, 4)));
    assert_eq!(b.center(), Vec3::new(5, 6, 7));
}

fn unit_box() -> Aabb {
    Aabb::empty(Vec3::new(-1, -1, -1)).merged(Aabb::empty(Vec3::new(1, 1, 1)))
}

#[test]
fn ray_from_inside_hits_in_every_direction() {
    let b = unit_box();
    let dirs = [
        Vec3::new(1, 0, 0),
        Vec3::new(-1, 0, 0),
        Vec3::new(0, 1, 0),
        Vec3::new(0, 0, -1),
        Vec3::new(3, -7, 2),
        Vec3::new(0, 0, 0),
    ];
    for d in dirs.iter() {
        assert!(b.hit(Ray::new(Vec3::new(0, 0, 0), *d)).is_some());
        // also from a point of the boundary
        assert!(b.hit(Ray::new(Vec3::new(1, 1, 1), *d)).is_some());
    }
}

#[test]
fn ray_pointing_away_misses() {
    let b = Aabb::empty(Vec3::new(4, -1, -1)).merged(Aabb::empty(Vec3::new(6, 1, 1)));
    assert!(b.hit(Ray::new(Vec3::new(0, 0, 0), Vec3::new(-1, 0, 0))).is_none());
    assert!(b.hit(Ray::new(Vec3::new(0, 0, 0), Vec3::new(-5, 1, 1))).is_none());
    assert!(b.hit(Ray::new(Vec3::new(0, 0, 0), Vec3::new(1, 0, 0))).is_some());
}

#[test]
fn ray_parallel_to_a_slab() {
    let b = Aabb::empty(Vec3::new(4, -1, -1)).merged(Aabb::empty(Vec3::new(6, 1, 1)));
    // parallel to the x axis, inside the slabs of y and z
    assert!(b.hit(Ray::new(Vec3::new(0, 1, -1), Vec3::new(2, 0, 0))).is_some());
    // parallel to the x axis, outside the slab of y
    assert!(b.hit(Ray::new(Vec3::new(0, 2, 0), Vec3::new(2, 0, 0))).is_none());
}

#[test]
fn ray_grazing_and_missing() {
    let b = Aabb::empty(Vec3::new(4, -1, -1)).merged(Aabb::empty(Vec3::new(6, 1, 1)));
    // through the edge at (4, 1, 0)
    assert!(b.hit(Ray::new(Vec3::new(0, 0, 0), Vec3::new(4, 1, 0))).is_some());
    // through the corner at (6, 1, 1) only
    assert!(b.hit(Ray::new(Vec3::new(0, 0, 0), Vec3::new(6, 1, 1))).is_some());
    // just past it
    assert!(b.hit(Ray::new(Vec3::new(0, 0, 0), Vec3::new(7, 2, 0))).is_none());
}

#[test]
fn ray_bound_cuts_the_box_off() {
    let b = Aabb::empty(Vec3::new(4, -1, -1)).merged(Aabb::empty(Vec3::new(6, 1, 1)));
    let ray = Ray::new(Vec3::new(0, 0, 0), Vec3::new(2, 0, 0));
    // the box is entered at distance 2 and left at distance 3
    assert!(b.hit(ray.with_max(Dist::new(2, 1))).is_some());
    assert!(b.hit(ray.with_max(Dist::new(5, 2))).is_some());
    assert!(b.hit(ray.with_max(Dist::new(39, 20))).is_none());
    assert!(b.hit(ray.with_max(Dist::new(0, 1))).is_none());
}
