use pathtracer::color::{srgb_data, SRgbColor};
use pathtracer::dist::Dist;
use pathtracer::image::{collect_neighbourhood, Image, NEIGH_PIXELS};
use pathtracer::ray::Ray;
use pathtracer::utils::{quadrant, quadrant_dir};
use pathtracer::vec::{Vec3, COORD_MAX};

#[test]
fn vec3_new_and_zero() {
    let v = Vec3::new(1, -2, 3);
    assert_eq!((v.x, v.y, v.z), (1, -2, 3));
    assert_eq!(Vec3::zero(), Vec3::new(0, 0, 0));
    assert_eq!((v.axis(0), v.axis(1), v.axis(2)), (1, -2, 3));
    assert_eq!(COORD_MAX, 1 << 19);
}

#[test]
fn vec3_dot_cross_lengths() {
    let a = Vec3::new(1, 2, 3);
    let b = Vec3::new(-4, 5, 6);
    assert_eq!(a.dot(b), 24);
    assert_eq!(a.cross(b), Vec3::new(-3, -18, 13));
    assert_eq!(a.cross(b).dot(a), 0);
    assert_eq!(a.cross(b).dot(b), 0);
    assert_eq!(a.length2(), 14);
    assert_eq!(a.distance2(b), 25 + 9 + 9);
}

#[test]
fn vec3_min_max() {
    let a = Vec3::new(1, 7, 3);
    let b = Vec3::new(-4, 9, 3);
    assert_eq!(a.min(b), Vec3::new(-4, 7, 3));
    assert_eq!(a.max(b), Vec3::new(1, 9, 3));
}

#[test]
fn vec3_operators() {
    let a = Vec3::new(1, 7, 3);
    let b = Vec3::new(-4, 9, 3);
    assert_eq!(a + b, Vec3::new(-3, 16, 6));
    assert_eq!(a - b, Vec3::new(5, -2, 0));
    assert_eq!(a * b, Vec3::new(-4, 63, 9));
    assert_eq!(-a, Vec3::new(-1, -7, -3));
}

#[test]
fn vec3_conversions() {
    assert_eq!(Vec3::from(7), Vec3::new(7, 7, 7));
    assert_eq!(Vec3::from([1, -2, 3]), Vec3::new(1, -2, 3));
    assert_eq!(Vec3::default(), Vec3::zero());
}

#[test]
fn vec3_at_the_limit() {
    let l = COORD_MAX;
    let a = Vec3::new(l, -l, l);
    assert_eq!(a.dot(a), 3 * l * l);
    assert_eq!(a.cross(Vec3::new(-l, l, l)), Vec3::new(-2 * l * l, -2 * l * l, 0));
}

#[test]
fn dist_order() {
    let a = Dist::new(1, 3);
    let b = Dist::new(2, 6);
    let c = Dist::new(1, 2);
    assert!(a.le(&b) && b.le(&a));
    assert!(!a.lt(&b));
    assert!(a.lt(&c) && a.le(&c));
    assert!(!c.le(&a));
    let z = Dist::zero();
    assert_eq!((z.num, z.den), (0, 1));
    assert!(z.le(&a));
    let big = Dist::new(i64::MAX, 1);
    let small = Dist::new(1, i64::MAX);
    assert!(small.lt(&big));
}

#[test]
fn ray_new_with_max_along() {
    let ray = Ray::new(Vec3::new(1, 2, 3), Vec3::new(2, 0, -1));
    assert!(ray.max.is_none());
    assert_eq!(ray.orig, Vec3::new(1, 2, 3));
    assert_eq!(ray.dir, Vec3::new(2, 0, -1));
    let cut = ray.with_max(Dist::new(7, 2));
    let m = cut.max.unwrap();
    assert_eq!((m.num, m.den), (7, 2));
    assert_eq!(cut.orig, ray.orig);
    assert_eq!(cut.dir, ray.dir);
    // the point at distance 7/2, over 2
    let p = ray.along(Dist::new(7, 2));
    assert_eq!((p.x, p.y, p.z), (2 + 14, 4, 6 - 7));
}

#[test]
fn ray_with_offset() {
    let ray = Ray::new_with_offset(Vec3::new(1, 2, 3), Vec3::new(2, 0, -1), 5);
    assert_eq!(ray.orig, Vec3::new(11, 2, -2));
    assert_eq!(ray.dir, Vec3::new(2, 0, -1));
    assert!(ray.max.is_none());
    let ray = Ray::new_with_epsilon(Vec3::new(1, 2, 3), Vec3::new(2, 0, -1));
    assert_eq!(ray.orig, Vec3::new(3, 2, 2));
    let ray = Ray::new_with_offset(Vec3::new(1, 2, 3), Vec3::new(2, 0, -1), -1);
    assert_eq!(ray.orig, Vec3::new(-1, 2, 4));
}

#[test]
fn quadrant_counts_negative_components() {
    assert_eq!(quadrant(Vec3::new(1, 1, 1)), 0);
    assert_eq!(quadrant(Vec3::new(-1, 1, 1)), 1);
    assert_eq!(quadrant(Vec3::new(1, -1, 1)), 2);
    assert_eq!(quadrant(Vec3::new(1, 1, -1)), 4);
    assert_eq!(quadrant(Vec3::new(-5, -6, -7)), 7);
    assert_eq!(quadrant(Vec3::new(0, 0, 0)), 0);
}

#[test]
fn quadrant_dir_round_trips() {
    assert_eq!(quadrant_dir(0), Vec3::new(1, 1, 1));
    assert_eq!(quadrant_dir(5), Vec3::new(-1, 1, -1));
    for q in 0..8usize {
        assert_eq!(quadrant(quadrant_dir(q)), q);
    }
}

fn shade(k: u8) -> SRgbColor {
    SRgbColor { r: k, g: k + 1, b: k + 2 }
}

fn picture() -> Image<SRgbColor> {
    // three columns, two rows
    Image::new(3, 2, vec![shade(0), shade(10), shade(20), shade(30), shade(40), shade(50)])
}

#[test]
fn image_addresses_pixels_row_by_row() {
    let image = picture();
    assert_eq!(image.width(), 3);
    assert_eq!(image.height(), 2);
    assert_eq!(image.pixel_count(), 6);
    assert_eq!(image.pixels().len(), 6);
    assert_eq!(image.pixel_index(0, 0), 0);
    assert_eq!(image.pixel_index(2, 0), 2);
    assert_eq!(image.pixel_index(0, 1), 3);
    assert_eq!(image.pixel_index(2, 1), 5);
    assert_eq!(image.pixel_at(1, 1).r, 40);
    assert_eq!(image.pixel_at(2, 0).r, 20);
}

#[test]
fn image_clamps_places_outside() {
    let image = picture();
    assert_eq!(image.pixel_at_clamped(1, 1).r, 40);
    assert_eq!(image.pixel_at_clamped(-1, -1).r, 0);
    assert_eq!(image.pixel_at_clamped(-7, 1).r, 30);
    assert_eq!(image.pixel_at_clamped(3, 0).r, 20);
    assert_eq!(image.pixel_at_clamped(100, 100).r, 50);
    assert_eq!(image.pixel_at_clamped(1, 2).r, 40);
    assert_eq!(image.pixel_at_clamped(i32::MAX, i32::MIN).r, 20);
}

#[test]
fn srgb_data_lists_the_channels() {
    let image = picture();
    let data = srgb_data(&image);
    assert_eq!(data, vec![0, 1, 2, 10, 11, 12, 20, 21, 22, 30, 31, 32, 40, 41, 42, 50, 51, 52]);
    let none: Image<SRgbColor> = Image::new(0, 0, Vec::new());
    assert!(srgb_data(&none).is_empty());
}

#[test]
fn neighbourhood_is_seven_by_seven_and_clamped() {
    let mut pixels = Vec::new();
    for y in 0..10u32 {
        for x in 0..12u32 {
            pixels.push((x, y));
        }
    }
    let image: Image<(u32, u32)> = Image::new(12, 10, pixels);
    let around = collect_neighbourhood(5, 4, &image);
    assert_eq!(around.len(), NEIGH_PIXELS);
    assert_eq!(around[0], (2, 1));
    assert_eq!(around[6], (8, 1));
    assert_eq!(around[7], (2, 2));
    assert_eq!(around[24], (5, 4));
    assert_eq!(around[48], (8, 7));
    let corner = collect_neighbourhood(0, 9, &image);
    assert_eq!(corner[0], (0, 6));
    assert_eq!(corner[3], (0, 6));
    assert_eq!(corner[6], (3, 6));
    assert_eq!(corner[24], (0, 9));
    assert_eq!(corner[48], (3, 9));
    assert_eq!(corner[45], (0, 9));
}
