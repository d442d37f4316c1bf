use pathtracer::dist::Dist;
use pathtracer::hit::Hittable;
use pathtracer::ray::Ray;
use pathtracer::triangle::{hit_triangle, Bary};
use pathtracer::utils::EPSILON;
use pathtracer::vec::Vec3;

fn facing() -> [Vec3; 3] {
    [Vec3::new(-3, -3, -5), Vec3::new(3, -3, -5), Vec3::new(0, 6, -5)]
}

fn fields(b: &Bary) -> (i64, i64, i64, i64, i64) {
    (b.w, b.u, b.v, b.det, b.t)
}

#[test]
fn ray_at_the_centroid_gives_equal_weights() {
    let tri = facing();
    let ray = Ray::new(Vec3::new(0, 0, 0), Vec3::new(0, 0, -1));
    let bary = tri.hit(ray).unwrap();
    assert_eq!(fields(&bary), (18, 18, 18, 54, 270));
    // each weight is a third, and the distance is five
    assert_eq!(3 * bary.w, bary.det);
    assert_eq!(3 * bary.u, bary.det);
    assert_eq!(3 * bary.v, bary.det);
    assert_eq!(bary.t, 5 * bary.det);
    assert_eq!(bary.w + bary.u + bary.v, bary.det);
}

#[test]
fn hit_triangle_agrees_with_the_trait() {
    let tri = facing();
    let ray = Ray::new(Vec3::new(1, 1, 0), Vec3::new(0, 0, -2));
    let a = hit_triangle(tri[0], tri[1], tri[2], ray).unwrap();
    let b = tri.hit(ray).unwrap();
    assert_eq!(fields(&a), fields(&b));
}

#[test]
fn ray_beside_the_triangle_misses() {
    let tri = facing();
    // u > 1
    assert!(tri.hit(Ray::new(Vec3::new(5, -3, 0), Vec3::new(0, 0, -1))).is_none());
    // u + v > 1
    assert!(tri.hit(Ray::new(Vec3::new(3, 3, 0), Vec3::new(0, 0, -1))).is_none());
    // u < 0
    assert!(tri.hit(Ray::new(Vec3::new(-5, -3, 0), Vec3::new(0, 0, -1))).is_none());
    // v < 0
    assert!(tri.hit(Ray::new(Vec3::new(0, -4, 0), Vec3::new(0, 0, -1))).is_none());
}

#[test]
fn triangle_seen_from_behind_is_not_hit() {
    let tri = facing();
    let ray = Ray::new(Vec3::new(0, 0, -10), Vec3::new(0, 0, 1));
    assert!(tri.hit(ray).is_none());
    let turned = [tri[0], tri[2], tri[1]];
    assert!(turned.hit(ray).is_some());
}

#[test]
fn triangle_seen_edge_on_is_not_hit() {
    let tri = facing();
    let ray = Ray::new(Vec3::new(-10, 0, -5), Vec3::new(1, 0, 0));
    assert!(tri.hit(ray).is_none());
    assert_eq!(EPSILON, 1);
}

#[test]
fn triangle_behind_the_origin_is_not_hit() {
    let tri = facing();
    let ray = Ray::new(Vec3::new(0, 0, -6), Vec3::new(0, 0, -1));
    assert!(tri.hit(ray).is_none());
}

#[test]
fn triangle_at_distance_zero_is_hit() {
    let tri = facing();
    let ray = Ray::new(Vec3::new(0, 0, -5), Vec3::new(0, 0, -1));
    let bary = tri.hit(ray).unwrap();
    assert_eq!(bary.t, 0);
}

#[test]
fn ray_bound_is_respected() {
    let tri = facing();
    let ray = Ray::new(Vec3::new(0, 0, 0), Vec3::new(0, 0, -1));
    assert!(tri.hit(ray.with_max(Dist::new(5, 1))).is_some());
    assert!(tri.hit(ray.with_max(Dist::new(51, 10))).is_some());
    assert!(tri.hit(ray.with_max(Dist::new(49, 10))).is_none());
}

#[test]
fn longer_direction_means_shorter_distance() {
    let tri = facing();
    let ray = Ray::new(Vec3::new(0, 0, 0), Vec3::new(0, 0, -10));
    let bary = tri.hit(ray).unwrap();
    // half a direction's length
    assert_eq!(2 * bary.t, bary.det);
}

#[test]
fn blend_at_a_corner_gives_the_corner() {
    let tri = facing();
    let n = [Vec3::new(0, 0, 7), Vec3::new(1, 2, 3), Vec3::new(-4, 5, 6)];
    let at_a = Bary { w: 54, u: 0, v: 0, det: 54, t: 1 };
    let at_b = Bary { w: 0, u: 54, v: 0, det: 54, t: 1 };
    let at_c = Bary { w: 0, u: 0, v: 54, det: 54, t: 1 };
    let p = at_a.blend(tri[0], tri[1], tri[2]);
    assert_eq!((p.x, p.y, p.z), (-3 * 54, -3 * 54, -5 * 54));
    let p = at_b.blend(tri[0], tri[1], tri[2]);
    assert_eq!((p.x, p.y, p.z), (3 * 54, -3 * 54, -5 * 54));
    let p = at_c.blend(tri[0], tri[1], tri[2]);
    assert_eq!((p.x, p.y, p.z), (0, 6 * 54, -5 * 54));
    let q = at_b.blend(n[0], n[1], n[2]);
    assert_eq!((q.x, q.y, q.z), (54, 2 * 54, 3 * 54));
}

#[test]
fn blend_is_the_point_on_the_ray() {
    let tri = facing();
    let ray = Ray::new(Vec3::new(1, 2, 3), Vec3::new(-1, -1, -9));
    let bary = tri.hit(ray).unwrap();
    let p = bary.blend(tri[0], tri[1], tri[2]);
    let q = ray.along(bary.dist());
    assert_eq!((p.x, p.y, p.z), (q.x, q.y, q.z));
}

#[test]
fn bary_dist() {
    let b = Bary { w: 1, u: 2, v: 3, det: 6, t: 11 };
    let d = b.dist();
    assert_eq!((d.num, d.den), (11, 6));
}
