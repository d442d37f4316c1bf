use pathtracer::aabb::Aabb;
use pathtracer::bvh::Bvh;
use pathtracer::dist::Dist;
use pathtracer::hit::HitRecord;
use pathtracer::ray::{Ray, Scaled};
use pathtracer::vec::Vec3;

fn cube(x: i64, y: i64, z: i64) -> Aabb {
    Aabb::empty(Vec3::new(x - 1, y - 1, z - 1)).merged(Aabb::empty(Vec3::new(x + 1, y + 1, z + 1)))
}

fn record(num: i64, obj: u32) -> HitRecord {
    HitRecord {
        dist: Dist::new(num, 1),
        pos: Scaled { x: 0, y: 0, z: 0 },
        norm: Scaled { x: 0, y: 0, z: 0 },
        obj: Some(obj),
    }
}

#[test]
fn empty_hierarchy() {
    let bvh: Bvh<u32> = Bvh::empty();
    assert!(bvh.is_empty());
    assert!(bvh.is_leaf());
    assert_eq!(bvh.objects(), Vec::<u32>::new());
    let b = bvh.aabb();
    assert_eq!((b.min(), b.max()), (Vec3::zero(), Vec3::zero()));
    let ray = Ray::new(Vec3::new(0, 0, 0), Vec3::new(1, 0, 0));
    let out = bvh.trace(ray, |_r: Ray, objs: &Vec<u32>| -> Option<HitRecord> {
        assert!(objs.is_empty());
        None
    });
    assert!(out.is_none());
    let ray = Ray::new(Vec3::new(5, 5, 5), Vec3::new(1, 0, 0));
    let out = bvh.trace(ray, |_r: Ray, _objs: &Vec<u32>| -> Option<HitRecord> { Some(record(1, 0)) });
    assert!(out.is_none());
}

#[test]
fn few_objects_make_one_leaf() {
    let boxes = vec![cube(0, 0, 0), cube(10, 0, 0), cube(20, 0, 0)];
    let mut objects: Vec<u32> = vec![2, 0, 1];
    let bvh = Bvh::new(&mut objects, |i: &u32| boxes[*i as usize], 3);
    assert!(bvh.is_leaf());
    assert!(!bvh.is_empty());
    assert_eq!(objects, vec![2, 0, 1]);
    assert_eq!(bvh.objects(), vec![2, 0, 1]);
    let b = bvh.aabb();
    assert_eq!((b.min(), b.max()), (Vec3::new(-1, -1, -1), Vec3::new(21, 1, 1)));
}

#[test]
fn many_objects_are_split_at_the_median() {
    let boxes = vec![cube(20, 0, 0), cube(10, 0, 0), cube(0, 0, 0)];
    let mut objects: Vec<u32> = vec![0, 1, 2];
    let bvh = Bvh::new(&mut objects, |i: &u32| boxes[*i as usize], 1);
    assert!(!bvh.is_leaf());
    // sorted along x: 2, 1, 0; the lower half, one object, goes left
    assert_eq!(bvh.left_count(), 1);
    assert_eq!(objects, vec![2, 1, 0]);
    assert_eq!(bvh.objects(), vec![2, 1, 0]);
    let b = bvh.aabb();
    assert_eq!((b.min(), b.max()), (Vec3::new(-1, -1, -1), Vec3::new(21, 1, 1)));
}

#[test]
fn split_axis_cycles() {
    // four objects: split along x first, then each half along y
    let boxes = vec![cube(0, 10, 0), cube(0, 0, 0), cube(10, 10, 5), cube(10, 0, 7)];
    let mut objects: Vec<u32> = vec![0, 1, 2, 3];
    let bvh = Bvh::new(&mut objects, |i: &u32| boxes[*i as usize], 1);
    assert_eq!(bvh.left_count(), 2);
    assert_eq!(objects, vec![1, 0, 3, 2]);
}

#[test]
fn equal_keys_keep_their_order() {
    let boxes = vec![cube(5, 0, 0), cube(5, 0, 0), cube(5, 0, 0), cube(0, 0, 0), cube(5, 0, 0)];
    let mut objects: Vec<u32> = vec![0, 1, 2, 3, 4];
    let bvh = Bvh::new(&mut objects, |i: &u32| boxes[*i as usize], 4);
    assert_eq!(bvh.left_count(), 2);
    assert_eq!(objects, vec![3, 0, 1, 2, 4]);
}

#[test]
fn every_object_stands_in_one_leaf() {
    let mut boxes = Vec::new();
    let mut objects: Vec<u32> = Vec::new();
    for i in 0..37u32 {
        let k = i as i64;
        boxes.push(cube((k * 7919) % 101, (k * 104729) % 53, (k * 31) % 17));
        objects.push(i);
    }
    let bvh = Bvh::new(&mut objects, |i: &u32| boxes[*i as usize], 2);
    assert!(!bvh.is_leaf());
    assert_eq!(bvh.left_count(), 18);
    let mut seen = bvh.objects();
    assert_eq!(seen, objects);
    seen.sort();
    let all: Vec<u32> = (0..37).collect();
    assert_eq!(seen, all);
}

#[test]
fn trace_asks_only_boxes_on_the_way_and_keeps_the_later_find() {
    let boxes = vec![cube(0, 0, 0), cube(10, 0, 0), cube(20, 0, 0), cube(10, 10, 0)];
    let mut objects: Vec<u32> = vec![0, 1, 2, 3];
    let bvh = Bvh::new(&mut objects, |i: &u32| boxes[*i as usize], 1);
    let ray = Ray::new(Vec3::new(-5, 0, 0), Vec3::new(1, 0, 0));
    let asked = std::cell::RefCell::new(Vec::new());
    // each object is struck where the ray enters its box
    let out = bvh.trace(ray, |r: Ray, objs: &Vec<u32>| -> Option<HitRecord> {
        let mut found = None;
        for o in objs.iter() {
            asked.borrow_mut().push(*o);
            let d = Dist::new(4 + 10 * (*o as i64), 1);
            let within = match r.max {
                Some(m) => d.le(&m),
                None => true,
            };
            if within {
                found = Some(record(d.num, *o));
            }
        }
        found
    });
    let hit = out.unwrap();
    assert_eq!(hit.obj, Some(0));
    assert_eq!((hit.dist.num, hit.dist.den), (4, 1));
    // the box of object 3 is off the ray; the boxes of 1 and 2 lie beyond the find
    assert_eq!(*asked.borrow(), vec![0]);
}

#[test]
fn trace_from_the_far_side() {
    let boxes = vec![cube(0, 0, 0), cube(10, 0, 0), cube(20, 0, 0)];
    let mut objects: Vec<u32> = vec![0, 1, 2];
    let bvh = Bvh::new(&mut objects, |i: &u32| boxes[*i as usize], 1);
    let ray = Ray::new(Vec3::new(30, 0, 0), Vec3::new(-1, 0, 0));
    let out = bvh.trace(ray, |r: Ray, objs: &Vec<u32>| -> Option<HitRecord> {
        let mut found = None;
        for o in objs.iter() {
            let d = Dist::new(29 - 10 * (*o as i64), 1);
            let within = match r.max {
                Some(m) => d.le(&m),
                None => true,
            };
            if within {
                found = Some(record(d.num, *o));
            }
        }
        found
    });
    let hit = out.unwrap();
    assert_eq!(hit.obj, Some(2));
    assert_eq!(hit.dist.num, 9);
}
