use pathtracer::aabb::WithAabb;
use pathtracer::hit::Hittable;
use pathtracer::material::Material;
use pathtracer::mesh::{triangles_of, Mesh, MAX_TRI_PER_NODE};
use pathtracer::ray::Ray;
use pathtracer::scene::{SceneBuilder, MAX_OBJECT_PER_NODE};
use pathtracer::triangle::hit_triangle;
use pathtracer::vec::Vec3;
use pathtracer::vertex::Vertex;

fn vertex(x: i64, y: i64, z: i64) -> Vertex {
    Vertex { pos: Vec3::new(x, y, z), norm: Vec3::new(0, 0, 1) }
}

fn matter(id: u32, emissive: bool) -> Material {
    Material { id, emissive }
}

/// One triangle in the plane of `z`, facing up the z axis, around the z axis.
fn sheet(z: i64, id: u32, emissive: bool) -> Mesh {
    let vertices = vec![vertex(-3, -3, z), vertex(3, -3, z), vertex(0, 6, z)];
    Mesh::new(vertices, vec![[0, 1, 2]], matter(id, emissive))
}

#[test]
fn single_triangle_in_front_of_the_camera() {
    let mut builder = SceneBuilder::new();
    builder.push(sheet(-5, 7, false));
    assert_eq!(builder.len(), 1);
    let scene = builder.build();
    let ray = Ray::new(Vec3::new(0, 0, 0), Vec3::new(0, 0, -1));
    let hit = scene.hit(ray).unwrap();
    // at distance five
    assert_eq!((hit.dist.num, hit.dist.den), (270, 54));
    assert_eq!(hit.dist.num, 5 * hit.dist.den);
    // at the point (0, 0, -5)
    assert_eq!((hit.pos.x, hit.pos.y, hit.pos.z), (0, 0, -5 * 54));
    // with the normal (0, 0, 1)
    assert_eq!((hit.norm.x, hit.norm.y, hit.norm.z), (0, 0, 54));
    assert_eq!(hit.obj, Some(0));
    let m = hit.material(&scene).unwrap();
    assert_eq!(m.id, 7);
    assert!(!m.is_emissive());
}

#[test]
fn empty_scene_reports_no_hit() {
    let scene = SceneBuilder::new().build();
    assert_eq!(scene.objects().len(), 0);
    let dirs = [Vec3::new(0, 0, -1), Vec3::new(1, 0, 0), Vec3::new(0, 0, 0), Vec3::new(-3, 5, 7)];
    let origins = [Vec3::new(0, 0, 0), Vec3::new(9, -9, 9)];
    for o in origins.iter() {
        for d in dirs.iter() {
            assert!(scene.hit(Ray::new(*o, *d)).is_none());
        }
    }
}

#[test]
fn nearest_of_several_meshes_is_reported() {
    let mut builder = SceneBuilder::new();
    builder.push(sheet(-50, 0, false));
    builder.push(sheet(-20, 1, true));
    builder.push(sheet(-30, 2, false));
    builder.push(sheet(-10, 3, true));
    builder.push(sheet(-40, 4, false));
    let scene = builder.build();
    let ray = Ray::new(Vec3::new(0, 0, 0), Vec3::new(0, 0, -1));
    let hit = scene.hit(ray).unwrap();
    assert_eq!(hit.obj, Some(3));
    assert_eq!(hit.dist.num, 10 * hit.dist.den);
    assert_eq!(hit.material(&scene).unwrap().id, 3);
    // from farther down the axis the sheets are seen from behind
    let ray = Ray::new(Vec3::new(0, 0, -60), Vec3::new(0, 0, 1));
    assert!(scene.hit(ray).is_none());
    // from between them
    let ray = Ray::new(Vec3::new(0, 0, -25), Vec3::new(0, 0, -1));
    let hit = scene.hit(ray).unwrap();
    assert_eq!(hit.obj, Some(2));
    assert_eq!(hit.dist.num, 5 * hit.dist.den);
    assert_eq!(MAX_OBJECT_PER_NODE, 2);
}

#[test]
fn scene_hit_equals_brute_force() {
    let mut builder = SceneBuilder::new();
    let mut sheets = Vec::new();
    for k in 0..9i64 {
        let z = -5 - ((k * 7) % 9) * 3;
        sheets.push(z);
        let vertices = vec![vertex(-30 + k, -30, z), vertex(30 + k, -30 + k, z), vertex(k, 60, z)];
        builder.push(Mesh::new(vertices, vec![[0, 1, 2]], matter(k as u32, false)));
    }
    let scene = builder.build();
    for dx in -4..5i64 {
        for dy in -4..5i64 {
            let ray = Ray::new(Vec3::new(1, 2, 3), Vec3::new(dx, dy, -4));
            let mut best: Option<(i64, i64)> = None;
            for mesh in scene.objects().iter() {
                let v = mesh.vertices();
                for t in mesh.triangles().iter() {
                    let a = v[t[0] as usize].pos;
                    let b = v[t[1] as usize].pos;
                    let c = v[t[2] as usize].pos;
                    if let Some(bary) = hit_triangle(a, b, c, ray) {
                        best = match best {
                            Some((n, d)) if (n as i128) * (bary.det as i128) <= (bary.t as i128) * (d as i128) => Some((n, d)),
                            _ => Some((bary.t, bary.det)),
                        };
                    }
                }
            }
            let hit = scene.hit(ray);
            match (hit, best) {
                (None, None) => {}
                (Some(h), Some((n, d))) => {
                    assert_eq!((h.dist.num as i128) * (d as i128), (n as i128) * (h.dist.den as i128));
                }
                _ => panic!("the scene and the triangles disagree"),
            }
        }
    }
}

#[test]
fn emitters_are_listed_in_order() {
    let mut builder = SceneBuilder::new();
    builder.push(sheet(-50, 0, false));
    builder.push(sheet(-20, 1, true));
    builder.push(sheet(-30, 2, false));
    builder.push(sheet(-10, 3, true));
    let scene = builder.build();
    assert_eq!(*scene.emitters(), vec![1, 3]);
    let (i, m) = scene.emitter_at(1);
    assert_eq!(i, 3);
    assert_eq!(m.material().id, 3);
}

#[test]
fn sampled_emitter_is_an_emitter() {
    let mut builder = SceneBuilder::new();
    builder.push(sheet(-50, 0, false));
    builder.push(sheet(-20, 1, true));
    builder.push(sheet(-30, 2, false));
    builder.push(sheet(-10, 3, true));
    let scene = builder.build();
    let mut rng = rand::thread_rng();
    let mut seen = [false; 4];
    for _ in 0..200 {
        let (i, m) = scene.sample_emitter_surface(&mut rng).unwrap();
        assert!(i == 1 || i == 3);
        assert!(m.material().is_emissive());
        assert_eq!(m.material().id, i);
        seen[i as usize] = true;
    }
    assert!(seen[1] && seen[3]);
}

#[test]
fn scene_without_emitter_samples_none() {
    let mut builder = SceneBuilder::new();
    builder.push(sheet(-50, 0, false));
    let scene = builder.build();
    let mut rng = rand::thread_rng();
    assert!(scene.sample_emitter_surface(&mut rng).is_none());
    assert!(scene.emitters().is_empty());
}

fn strip(n: i64) -> Mesh {
    // a strip of triangles along x, all facing up the z axis, at z = -x
    let mut vertices = Vec::new();
    let mut triangles = Vec::new();
    for k in 0..n {
        let x = 10 * (n - 1 - k);
        let base = vertices.len() as u32;
        vertices.push(vertex(x, 0, -x));
        vertices.push(vertex(x + 8, 0, -x));
        vertices.push(vertex(x, 8, -x));
        triangles.push([base, base + 1, base + 2]);
    }
    assert!(Mesh::admissible(&vertices, &triangles));
    Mesh::new(vertices, triangles, Material::default())
}

#[test]
fn mesh_keeps_its_triangles_in_leaf_order() {
    let mesh = strip(20);
    assert_eq!(MAX_TRI_PER_NODE, 8);
    let tris = mesh.triangles();
    assert_eq!(tris.len(), 20);
    // the ten triangles of lower x stand first
    for (k, t) in tris.iter().enumerate() {
        let x = mesh.vertices()[t[0] as usize].pos.x;
        if k < 10 {
            assert!(x < 100);
        } else {
            assert!(x >= 100);
        }
    }
    let mut all: Vec<[u32; 3]> = tris.clone();
    all.sort();
    let expected: Vec<[u32; 3]> = (0..20u32).map(|k| [3 * k, 3 * k + 1, 3 * k + 2]).collect();
    assert_eq!(all, expected);
    let b = mesh.aabb();
    assert_eq!((b.min(), b.max()), (Vec3::new(0, 0, -190), Vec3::new(198, 8, 0)));
}

#[test]
fn mesh_hit_finds_the_triangle_on_the_way() {
    let mesh = strip(20);
    for k in 0..20i64 {
        let x = 10 * k;
        let ray = Ray::new(Vec3::new(x + 2, 2, 5), Vec3::new(0, 0, -1));
        let hit = mesh.hit(ray).unwrap();
        assert_eq!(hit.dist.num, (x + 5) * hit.dist.den);
        assert_eq!(hit.pos.z, -(x as i128) * (hit.dist.den as i128));
        assert_eq!(hit.obj, None);
        // between the triangles nothing is hit
        let ray = Ray::new(Vec3::new(x + 9, 2, 5), Vec3::new(0, 0, -1));
        assert!(mesh.hit(ray).is_none());
    }
}

#[test]
fn of_two_triangles_in_one_leaf_the_nearer_is_found() {
    let vertices = vec![
        vertex(-3, -3, -9),
        vertex(3, -3, -9),
        vertex(0, 6, -9),
        vertex(-3, -3, -4),
        vertex(3, -3, -4),
        vertex(0, 6, -4),
        vertex(-3, -3, -6),
        vertex(3, -3, -6),
        vertex(0, 6, -6),
    ];
    let mesh = Mesh::new(vertices, vec![[0, 1, 2], [3, 4, 5], [6, 7, 8]], Material::default());
    let hit = mesh.hit(Ray::new(Vec3::new(0, 0, 0), Vec3::new(0, 0, -1))).unwrap();
    assert_eq!(hit.dist.num, 4 * hit.dist.den);
}

#[test]
fn admissible_tells_bad_input() {
    let vertices = vec![vertex(0, 0, 0), vertex(1, 0, 0), vertex(0, 1, 0)];
    assert!(Mesh::admissible(&vertices, &vec![[0, 1, 2]]));
    assert!(!Mesh::admissible(&vertices, &vec![]));
    assert!(!Mesh::admissible(&vertices, &vec![[0, 1, 3]]));
    let far = vec![vertex(0, 0, 0), vertex(524289, 0, 0), vertex(0, 1, 0)];
    assert!(!Mesh::admissible(&far, &vec![[0, 1, 2]]));
    let edge = vec![vertex(0, 0, 0), vertex(524288, 0, 0), vertex(0, -524288, 0)];
    assert!(Mesh::admissible(&edge, &vec![[0, 1, 2]]));
}

#[test]
fn corners_are_grouped_by_three() {
    assert_eq!(triangles_of(&vec![0, 1, 2, 2, 1, 3]), vec![[0, 1, 2], [2, 1, 3]]);
    assert_eq!(triangles_of(&vec![]), Vec::<[u32; 3]>::new());
}
