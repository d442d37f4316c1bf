use vstd::prelude::*;
use crate::aabb::{Aabb, Bounds, WithAabb, hull_high, hull_low};
use crate::bvh::{Bvh, Tree, bounds_of, boxed_by, build_spec, lemma_build_sound, lemma_leaf_objects, shrunk};
use crate::dist::{Dist, lemma_le_trans};
use crate::hit::{HitRecord, Hittable};
use crate::material::Material;
use crate::nearest::{cut, fair, lemma_search_source, lemma_search_nearest, lemma_traced_search, nearest, scan, search, sound_at, steady_at};
use crate::ray::{Ray, Scaled};
use crate::triangle::{Bary, lemma_strike_fits, lemma_strike_point, lemma_struck_in_box, strike, triangle_hit};
use crate::vec::{Vec3, Vector, COORD_MAX};
use crate::vertex::Vertex;

verus! {

/// The most triangles that a leaf of a mesh's hierarchy holds.
pub const MAX_TRI_PER_NODE: usize = 8;

/// The three corners of `face` are vertices of `points`.
pub open spec fn face_ok(points: Seq<Vertex>, face: [u32; 3]) -> bool {
    face[0] < points.len() && face[1] < points.len() && face[2] < points.len()
}

/// The smallest bounds around the three corners of `face`.
pub open spec fn face_bounds(points: Seq<Vertex>, face: [u32; 3]) -> Bounds {
    let a = points[face[0] as int].pos@;
    let b = points[face[1] as int].pos@;
    let c = points[face[2] as int].pos@;
    Bounds { low: a.lower(b).lower(c), high: a.upper(b).upper(c) }
}

/// `face_bounds` over the vertices `points`, as a function of the face.
pub open spec fn face_boxer(points: Seq<Vertex>) -> spec_fn([u32; 3]) -> Bounds {
    |face: [u32; 3]| face_bounds(points, face)
}

/// The boxes of `faces`, one for each.
pub open spec fn face_boxes(points: Seq<Vertex>, faces: Seq<[u32; 3]>) -> Seq<Bounds> {
    Seq::new(faces.len(), |i: int| face_bounds(points, faces[i]))
}

/// The numerators `v`, as they are kept in a record.
pub open spec fn scaled_of(v: Vector) -> Scaled {
    Scaled { x: v.x as i128, y: v.y as i128, z: v.z as i128 }
}

/// The record of a strike on the triangle `a`, `b`, `c` with the weights
/// `bary`: the point and the normal are those of the corners, weighted.
pub open spec fn record_of(bary: Bary, a: Vertex, b: Vertex, c: Vertex) -> HitRecord {
    HitRecord {
        dist: Dist { num: bary.t, den: bary.det },
        pos: scaled_of(
            a.pos@.scaled(bary.w as int).plus(b.pos@.scaled(bary.u as int)).plus(
                c.pos@.scaled(bary.v as int),
            ),
        ),
        norm: scaled_of(
            a.norm@.scaled(bary.w as int).plus(b.norm@.scaled(bary.u as int)).plus(
                c.norm@.scaled(bary.v as int),
            ),
        ),
        obj: None,
    }
}

/// What `ray` strikes on the one triangle `face`.
pub open spec fn face_hit(points: Seq<Vertex>, ray: Ray, face: [u32; 3]) -> Option<HitRecord> {
    let a = points[face[0] as int];
    let b = points[face[1] as int];
    let c = points[face[2] as int];
    match triangle_hit(a.pos, b.pos, c.pos, ray) {
        Some(bary) => Some(record_of(bary, a, b, c)),
        None => None,
    }
}

/// `face_hit` over the vertices `points`, as a function of ray and face.
pub open spec fn face_test(points: Seq<Vertex>) -> spec_fn(Ray, [u32; 3]) -> Option<HitRecord> {
    |ray: Ray, face: [u32; 3]| face_hit(points, ray, face)
}

/// The triangles that a list of corners names, three corners after three.
pub open spec fn grouped(indices: Seq<u32>) -> Seq<[u32; 3]> {
    Seq::new(
        indices.len() / 3,
        |i: int| [indices[3 * i], indices[3 * i + 1], indices[3 * i + 2]],
    )
}

/// The triangles of a list of corners, which holds three for each.
pub fn triangles_of(indices: &Vec<u32>) -> (triangles: Vec<[u32; 3]>)
    requires
        indices.len() % 3 == 0,
    ensures
        triangles@ == grouped(indices@),
{
    let mut triangles: Vec<[u32; 3]> = Vec::new();
    let count = indices.len() / 3;
    let mut i: usize = 0;
    while i < count
        invariant
            i <= count,
            count == indices.len() / 3,
            indices.len() % 3 == 0,
            triangles.len() == i,
            forall|k: int| 0 <= k < i ==> #[trigger] triangles@[k] == grouped(indices@)[k],
        decreases count - i,
    {
        triangles.push([indices[3 * i], indices[3 * i + 1], indices[3 * i + 2]]);
        i += 1;
    }
    assert(triangles@ =~= grouped(indices@));
    triangles
}

/// A surface of triangles over shared vertices, with a hierarchy over the
/// triangles and a material.
pub struct Mesh {
    bvh: Bvh<[u32; 3]>,
    triangles: Vec<[u32; 3]>,
    vertices: Vec<Vertex>,
    material: Material,
}

/// The box around one triangle.
fn triangle_aabb(vertices: &Vec<Vertex>, tri: &[u32; 3]) -> (b: Aabb)
    requires
        face_ok(vertices@, *tri),
    ensures
        b@ == face_bounds(vertices@, *tri),
{
    let mut points: Vec<Vec3> = Vec::new();
    points.push(vertices[tri[0] as usize].pos);
    points.push(vertices[tri[1] as usize].pos);
    points.push(vertices[tri[2] as usize].pos);
    proof {
        reveal_with_fuel(hull_low, 3);
        reveal_with_fuel(hull_high, 3);
        let p = points@;
        assert(p.drop_last().drop_last() =~= seq![p[0]]);
        assert(p.drop_last() =~= seq![p[0], p[1]]);
        assert(p.drop_last().last() == p[1]);
    }
    Aabb::from_points(&points).unwrap()
}

impl Mesh {
    /// The vertices.
    pub closed spec fn points(self) -> Seq<Vertex> {
        self.vertices@
    }

    /// The triangles, in the order of the leaves of the hierarchy.
    pub closed spec fn faces(self) -> Seq<[u32; 3]> {
        self.triangles@
    }

    /// The hierarchy over the triangles.
    pub closed spec fn tree(self) -> Tree<[u32; 3]> {
        self.bvh@
    }

    /// The material.
    pub closed spec fn matter(self) -> Material {
        self.material
    }

    /// Every vertex is in range, every corner of a triangle is a vertex, and
    /// the hierarchy holds the triangles and bounds each of them.
    pub open spec fn wf(self) -> bool {
        &&& forall|i: int| 0 <= i < self.points().len() ==> (#[trigger] self.points()[i]).wf()
        &&& forall|i: int|
            0 <= i < self.faces().len() ==> face_ok(self.points(), #[trigger] self.faces()[i])
        &&& self.tree().wf()
        &&& self.tree().covers(face_boxer(self.points()))
        &&& self.tree().objects() == self.faces()
    }

    /// What `hit` returns: the find of the search of the hierarchy, with the
    /// triangles of each leaf tested one after the other.
    pub open spec fn struck(self, ray: Ray) -> Option<HitRecord> {
        search(self.tree(), face_test(self.points()), ray)
    }

    /// Whether `new` accepts these vertices and triangles: there is a
    /// triangle, every corner of a triangle is a vertex, and every vertex is
    /// in range.
    pub open spec fn accepts(vertices: Seq<Vertex>, triangles: Seq<[u32; 3]>) -> bool {
        &&& triangles.len() > 0
        &&& forall|i: int| 0 <= i < vertices.len() ==> (#[trigger] vertices[i]).wf()
        &&& forall|i: int| 0 <= i < triangles.len() ==> face_ok(vertices, #[trigger] triangles[i])
    }

    /// Tells whether `new` accepts these vertices and triangles.
    pub fn admissible(vertices: &Vec<Vertex>, triangles: &Vec<[u32; 3]>) -> (ok: bool)
        ensures
            ok == Mesh::accepts(vertices@, triangles@),
    {
        if triangles.len() == 0 {
            return false;
        }
        let limit: i64 = COORD_MAX;
        let mut i: usize = 0;
        while i < vertices.len()
            invariant
                i <= vertices.len(),
                limit == COORD_MAX,
                forall|k: int| 0 <= k < i ==> (#[trigger] vertices[k]).wf(),
            decreases vertices.len() - i,
        {
            let v = vertices[i];
            let fits = -limit <= v.pos.x && v.pos.x <= limit && -limit <= v.pos.y && v.pos.y <= limit
                && -limit <= v.pos.z && v.pos.z <= limit && -limit <= v.norm.x && v.norm.x <= limit
                && -limit <= v.norm.y && v.norm.y <= limit && -limit <= v.norm.z && v.norm.z
                <= limit;
            if !fits {
                assert(!vertices[i as int].wf());
                return false;
            }
            i += 1;
        }
        let mut j: usize = 0;
        while j < triangles.len()
            invariant
                j <= triangles.len(),
                forall|k: int| 0 <= k < j ==> face_ok(vertices@, #[trigger] triangles[k]),
            decreases triangles.len() - j,
        {
            let t = triangles[j];
            let inside = (t[0] as usize) < vertices.len() && (t[1] as usize) < vertices.len() && (
            t[2] as usize) < vertices.len();
            if !inside {
                assert(!face_ok(vertices@, triangles[j as int]));
                return false;
            }
            j += 1;
        }
        true
    }

    /// The mesh of these triangles over these vertices. The triangles are
    /// kept in the order in which the leaves of the hierarchy hold them.
    pub fn new(vertices: Vec<Vertex>, triangles: Vec<[u32; 3]>, material: Material) -> (mesh: Mesh)
        requires
            Mesh::accepts(vertices@, triangles@),
        ensures
            mesh.wf(),
            mesh.points() == vertices@,
            mesh.matter() == material,
            mesh.tree() == build_spec(
                triangles@,
                face_boxes(vertices@, triangles@),
                MAX_TRI_PER_NODE as nat,
                0,
            ),
            mesh.faces() == mesh.tree().objects(),
            mesh.faces().to_multiset() == triangles@.to_multiset(),
    {
        let mut triangles = triangles;
        let ghost given = triangles@;
        let to_aabb = |tri: &[u32; 3]| -> (b: Aabb)
            requires
                face_ok(vertices@, *tri),
            ensures
                b@ == face_bounds(vertices@, *tri),
                b.wf(),
            {
                proof {
                    let a = vertices@[tri[0] as int];
                    let b = vertices@[tri[1] as int];
                    let c = vertices@[tri[2] as int];
                    assert(a.wf() && b.wf() && c.wf());
                }
                triangle_aabb(&vertices, tri)
            };
        let bvh = Bvh::new(&mut triangles, to_aabb, MAX_TRI_PER_NODE);
        proof {
            let boxes = choose|boxes: Seq<Aabb>| #[trigger]
                boxed_by(given, to_aabb, boxes) && bvh@ == build_spec(
                    given,
                    bounds_of(boxes),
                    MAX_TRI_PER_NODE as nat,
                    0,
                );
            assert forall|i: int| 0 <= i < given.len() implies (#[trigger] boxes[i])@ == face_bounds(
                vertices@,
                given[i],
            ) && boxes[i].wf() by {
                assert(call_ensures(to_aabb, (&given[i],), boxes[i]));
            }
            assert(bounds_of(boxes) =~= face_boxes(vertices@, given));
            let fb = face_boxes(vertices@, given);
            assert forall|i: int| 0 <= i < fb.len() implies (#[trigger] fb[i]).wf() && fb[i]
                == face_boxer(vertices@)(given[i]) by {
                assert(boxes[i].wf());
            }
            lemma_build_sound(given, fb, MAX_TRI_PER_NODE as nat, 0, face_boxer(vertices@));
            assert forall|i: int| 0 <= i < triangles@.len() implies face_ok(
                vertices@,
                #[trigger] triangles@[i],
            ) by {
                triangles@.to_multiset_ensures();
                given.to_multiset_ensures();
                assert(triangles@.contains(triangles@[i]));
                assert(given.to_multiset().count(triangles@[i]) > 0);
                assert(given.contains(triangles@[i]));
            }
        }
        Mesh { bvh, triangles, vertices, material }
    }

    /// The material.
    pub fn material(&self) -> (m: &Material)
        ensures
            *m == self.matter(),
    {
        &self.material
    }

    /// The vertices.
    pub fn vertices(&self) -> (v: &Vec<Vertex>)
        ensures
            v@ == self.points(),
    {
        &self.vertices
    }

    /// The triangles, in the order of the leaves of the hierarchy.
    pub fn triangles(&self) -> (t: &Vec<[u32; 3]>)
        ensures
            t@ == self.faces(),
    {
        &self.triangles
    }

    /// What the ray strikes among `triangles`: each is tested in turn, and
    /// after each strike the ray is cut off there, so that of several
    /// triangles on the ray's way the nearest is found.
    fn hit_triangles(&self, ray: Ray, triangles: &Vec<[u32; 3]>) -> (out: Option<HitRecord>)
        requires
            ray.wf(),
            forall|i: int| 0 <= i < self.points().len() ==> (#[trigger] self.points()[i]).wf(),
            forall|i: int| 0 <= i < triangles.len() ==> face_ok(self.points(), #[trigger] triangles[i]),
        ensures
            out == scan(face_test(self.points()), ray, triangles@),
            out matches Some(h) ==> h.dist.wf(),
    {
        let ghost one = face_test(self.points());
        let mut hit: Option<HitRecord> = None;
        let mut current = ray;
        let mut i: usize = 0;
        while i < triangles.len()
            invariant
                i <= triangles.len(),
                ray.wf(),
                current.wf(),
                one == face_test(self.points()),
                forall|k: int| 0 <= k < self.points().len() ==> (#[trigger] self.points()[k]).wf(),
                forall|k: int|
                    0 <= k < triangles.len() ==> face_ok(self.points(), #[trigger] triangles[k]),
                hit == scan(one, ray, triangles@.take(i as int)),
                current == shrunk(ray, hit),
                hit matches Some(h) ==> h.dist.wf(),
            decreases triangles.len() - i,
        {
            let index = triangles[i];
            assert(face_ok(self.points(), triangles[i as int]));
            let a = self.vertices[index[0] as usize];
            let b = self.vertices[index[1] as usize];
            let c = self.vertices[index[2] as usize];
            assert(a.wf() && b.wf() && c.wf());
            proof {
                let next = triangles@.take(i + 1);
                assert(next.drop_last() =~= triangles@.take(i as int));
                assert(next.last() == index);
                assert(one(current, index) == face_hit(self.points(), current, index));
                lemma_strike_fits(a.pos, b.pos, c.pos, current);
            }
            let tri = [a.pos, b.pos, c.pos];
            if let Some(bary) = tri.hit(current) {
                let pos = bary.blend(a.pos, b.pos, c.pos);
                let norm = bary.blend(a.norm, b.norm, c.norm);
                let dist = bary.dist();
                current = current.with_max(dist);
                hit = Some(HitRecord { dist, pos, norm, obj: None });
            }
            i += 1;
        }
        assert(triangles@.take(i as int) =~= triangles@);
        hit
    }
}

impl WithAabb for Mesh {
    open spec fn aabb_bounds(&self) -> Bounds {
        self.tree().bounds()
    }

    /// The box around the whole mesh.
    fn aabb(&self) -> (b: Aabb) {
        self.bvh.aabb()
    }
}

impl Hittable for Mesh {
    type Result = HitRecord;

    open spec fn hit_ready(&self, ray: Ray) -> bool {
        self.wf() && ray.wf()
    }

    open spec fn hit_spec(&self, ray: Ray) -> Option<HitRecord> {
        self.struck(ray)
    }

    /// What the ray strikes first on the mesh.
    fn hit(&self, ray: Ray) -> (r: Option<HitRecord>) {
        let leaf = |r: Ray, tris: &Vec<[u32; 3]>| -> (out: Option<HitRecord>)
            requires
                r.wf(),
                forall|i: int| 0 <= i < self.points().len() ==> (#[trigger] self.points()[i]).wf(),
                forall|i: int| 0 <= i < tris.len() ==> face_ok(self.points(), #[trigger] tris[i]),
            ensures
                out == scan(face_test(self.points()), r, tris@),
                out matches Some(h) ==> h.dist.wf(),
            { self.hit_triangles(r, tris) };
        proof {
            assert forall|r: Ray, v: Vec<[u32; 3]>|
                r.wf() && r.same_line(ray) && self.tree().has_leaf(v@) implies #[trigger] call_requires(
                leaf,
                (r, &v),
            ) by {
                assert forall|i: int| 0 <= i < v.len() implies face_ok(self.points(), #[trigger] v[i]) by {
                    lemma_leaf_objects(self.tree(), v@, i);
                }
            }
        }
        let out = self.bvh.trace(ray, leaf);
        proof {
            lemma_traced_search(self.tree(), ray, leaf, face_test(self.points()), out);
        }
        out
    }
}

impl Hittable for [Vertex; 3] {
    type Result = Bary;

    open spec fn hit_ready(&self, ray: Ray) -> bool {
        self[0].pos.in_range() && self[1].pos.in_range() && self[2].pos.in_range() && ray.wf()
    }

    open spec fn hit_spec(&self, ray: Ray) -> Option<Bary> {
        triangle_hit(self[0].pos, self[1].pos, self[2].pos, ray)
    }

    /// Where the ray strikes the triangle of the three vertices.
    fn hit(&self, ray: Ray) -> (r: Option<Bary>) {
        [self[0].pos, self[1].pos, self[2].pos].hit(ray)
    }
}

/// The test of one triangle is sound: what it finds lies within the ray's
/// bound, where the ray passes through the triangle's box.
pub proof fn lemma_face_sound(points: Seq<Vertex>, face: [u32; 3], r: Ray)
    requires
        forall|i: int| 0 <= i < points.len() ==> (#[trigger] points[i]).wf(),
        face_ok(points, face),
        r.wf(),
    ensures
        sound_at(face_test(points), face_boxer(points), face, r),
{
    let a = points[face[0] as int];
    let b = points[face[1] as int];
    let c = points[face[2] as int];
    assert(a.wf() && b.wf() && c.wf());
    lemma_strike_fits(a.pos, b.pos, c.pos, r);
    if triangle_hit(a.pos, b.pos, c.pos, r) is Some {
        lemma_struck_in_box(a.pos, b.pos, c.pos, r, face_bounds(points, face));
    }
}

/// The test of one triangle is steady: cutting the ray off takes away the
/// strike if it lies beyond, and else leaves it as it was.
pub proof fn lemma_face_steady(points: Seq<Vertex>, face: [u32; 3], r: Ray, d: Dist)
    requires
        forall|i: int| 0 <= i < points.len() ==> (#[trigger] points[i]).wf(),
        face_ok(points, face),
        r.wf(),
        d.wf(),
        r.reaches(d.num as int, d.den as int),
    ensures
        steady_at(face_test(points), face, r, d),
{
    let a = points[face[0] as int];
    let b = points[face[1] as int];
    let c = points[face[2] as int];
    assert(a.wf() && b.wf() && c.wf());
    lemma_strike_fits(a.pos, b.pos, c.pos, r);
    lemma_strike_fits(a.pos, b.pos, c.pos, cut(r, d));
    let s = strike(a.pos@, b.pos@, c.pos@, r.orig@, r.dir@);
    if s.lands(Some(d)) {
        match r.max {
            Some(m) => {
                lemma_le_trans(s.dist(), d@, m@);
            },
            None => {},
        }
    }
}

/// The tests of the triangles of a mesh are fair along every line.
pub proof fn lemma_faces_fair(points: Seq<Vertex>, faces: Seq<[u32; 3]>, line: Ray)
    requires
        forall|i: int| 0 <= i < points.len() ==> (#[trigger] points[i]).wf(),
        forall|i: int| 0 <= i < faces.len() ==> face_ok(points, #[trigger] faces[i]),
    ensures
        fair(face_test(points), face_boxer(points), faces, line),
{
    let one = face_test(points);
    let box_of = face_boxer(points);
    assert forall|i: int, r: Ray|
        0 <= i < faces.len() && r.same_line(line) && r.wf() implies #[trigger] sound_at(
        one,
        box_of,
        faces[i],
        r,
    ) by {
        lemma_face_sound(points, faces[i], r);
    }
    assert forall|i: int, r: Ray, d: Dist|
        0 <= i < faces.len() && r.same_line(line) && r.wf() && d.wf() && r.reaches(
            d.num as int,
            d.den as int,
        ) implies #[trigger] steady_at(one, faces[i], r, d) by {
        lemma_face_steady(points, faces[i], r, d);
    }
}

/// What a mesh reports is the nearest strike on any of its triangles: it
/// reports nothing exactly if the ray strikes none of them within its
/// bound, and else a strike at the smallest distance at which the ray
/// strikes one.
pub proof fn lemma_mesh_nearest(mesh: Mesh, ray: Ray)
    requires
        mesh.wf(),
        ray.wf(),
    ensures
        nearest(face_test(mesh.points()), ray, mesh.faces(), mesh.struck(ray)),
{
    lemma_faces_fair(mesh.points(), mesh.faces(), ray);
    lemma_search_nearest(mesh.tree(), face_test(mesh.points()), face_boxer(mesh.points()), ray);
}

/// The point that the test of one triangle reports is the point of the ray
/// at the distance that it reports, and the weights that put the point
/// between the corners add up to one.
pub proof fn lemma_face_on_ray(points: Seq<Vertex>, face: [u32; 3], r: Ray)
    requires
        forall|i: int| 0 <= i < points.len() ==> (#[trigger] points[i]).wf(),
        face_ok(points, face),
        r.orig.in_range(),
        r.dir.in_range(),
    ensures
        face_hit(points, r, face) matches Some(h) ==> {
            &&& h.dist.wf()
            &&& h.obj is None
            &&& h.pos@ == r.point_at(h.dist.num as int, h.dist.den as int)
            &&& face_hit(points, Ray { orig: r.orig, dir: r.dir, max: None }, face) == Some(h)
        },
{
    let a = points[face[0] as int];
    let b = points[face[1] as int];
    let c = points[face[2] as int];
    assert(a.wf() && b.wf() && c.wf());
    lemma_strike_fits(a.pos, b.pos, c.pos, r);
    lemma_strike_point(a.pos@, b.pos@, c.pos@, r.orig@, r.dir@);
    let s = strike(a.pos@, b.pos@, c.pos@, r.orig@, r.dir@);
    if s.lands(r.max) {
        lemma_blend_fits(a.pos@, b.pos@, c.pos@, s.w, s.u, s.v);
    }
}

/// What a mesh reports is a strike on one of its triangles, and the point
/// that it reports is the point of the ray at the distance that it reports.
pub proof fn lemma_mesh_hit_on_ray(mesh: Mesh, ray: Ray)
    requires
        mesh.wf(),
        ray.orig.in_range(),
        ray.dir.in_range(),
    ensures
        mesh.struck(ray) matches Some(h) ==> {
            &&& h.dist.wf()
            &&& h.obj is None
            &&& h.pos@ == ray.point_at(h.dist.num as int, h.dist.den as int)
            &&& exists|j: int|
                0 <= j < mesh.faces().len() && #[trigger] face_hit(
                    mesh.points(),
                    Ray { orig: ray.orig, dir: ray.dir, max: None },
                    mesh.faces()[j],
                ) == Some(h)
        },
{
    let points = mesh.points();
    let one = face_test(points);
    lemma_search_source(mesh.tree(), one, ray);
    if let Some(h) = mesh.struck(ray) {
        let (k, r) = choose|k: int, r: Ray|
            0 <= k < mesh.faces().len() && r.same_line(ray) && #[trigger] one(r, mesh.faces()[k])
                == Some(h);
        lemma_face_on_ray(points, mesh.faces()[k], r);
    }
}

/// The numerators of a point of a triangle in range, weighted by numbers
/// that fit a machine word, fit two machine words.
proof fn lemma_blend_fits(a: Vector, b: Vector, c: Vector, w: int, u: int, v: int)
    requires
        a.within(COORD_MAX as int),
        b.within(COORD_MAX as int),
        c.within(COORD_MAX as int),
        i64::MIN <= w <= i64::MAX,
        i64::MIN <= u <= i64::MAX,
        i64::MIN <= v <= i64::MAX,
    ensures
        ({
            let p = a.scaled(w).plus(b.scaled(u)).plus(c.scaled(v));
            scaled_of(p)@ == p
        }),
{
    let k: int = 0x8000_0000_0000_0000;
    let l: int = 524288;
    crate::vec::lemma_product_bound(a.x, w, l, k);
    crate::vec::lemma_product_bound(a.y, w, l, k);
    crate::vec::lemma_product_bound(a.z, w, l, k);
    crate::vec::lemma_product_bound(b.x, u, l, k);
    crate::vec::lemma_product_bound(b.y, u, l, k);
    crate::vec::lemma_product_bound(b.z, u, l, k);
    crate::vec::lemma_product_bound(c.x, v, l, k);
    crate::vec::lemma_product_bound(c.y, v, l, k);
    crate::vec::lemma_product_bound(c.z, v, l, k);
    assert(l * k == 0x4_0000_0000_0000_0000_0000);
}

} // verus!
