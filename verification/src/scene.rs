use vstd::prelude::*;
use rand::Rng;
use rand::rngs::ThreadRng;
use crate::aabb::{Aabb, Bounds, WithAabb, lemma_meets_surrounding};
use crate::bvh::{Bvh, Tree, bounds_of, boxed_by, build_spec, lemma_build_sound, lemma_leaf_objects, shrunk};
use crate::dist::{Dist, lemma_le_trans};
use crate::hit::{HitRecord, Hittable};
use crate::material::Material;
use crate::mesh::{Mesh, face_boxer, face_hit, face_test, lemma_faces_fair, lemma_mesh_hit_on_ray, lemma_mesh_nearest};
use crate::nearest::{cut, fair, lemma_covered, lemma_nearest_steady, lemma_search_nearest, lemma_search_source, lemma_traced_search, nearest, scan, search, sound_at, steady_at};
use crate::ray::Ray;

verus! {

/// The most objects that a leaf of a scene's hierarchy holds.
pub const MAX_OBJECT_PER_NODE: usize = 2;

/// What a scene is made of.
pub type SceneObject = Mesh;

/// The places `0`, `1`, ... of `n` objects.
pub open spec fn places(n: nat) -> Seq<u32> {
    Seq::new(n, |i: int| i as u32)
}

/// The bounds around the object at each place.
pub open spec fn object_boxer(meshes: Seq<Mesh>) -> spec_fn(u32) -> Bounds {
    |i: u32| meshes[i as int].tree().bounds()
}

/// The boxes of the objects, in their order.
pub open spec fn object_boxes(meshes: Seq<Mesh>) -> Seq<Bounds> {
    Seq::new(meshes.len(), |i: int| meshes[i].tree().bounds())
}

/// `h`, marked as a find on the object at place `i`.
pub open spec fn marked(h: HitRecord, i: u32) -> HitRecord {
    HitRecord { dist: h.dist, pos: h.pos, norm: h.norm, obj: Some(i) }
}

/// What `ray` strikes on the object at place `i`.
pub open spec fn object_hit(meshes: Seq<Mesh>, ray: Ray, i: u32) -> Option<HitRecord> {
    match meshes[i as int].struck(ray) {
        Some(h) => Some(marked(h, i)),
        None => None,
    }
}

/// `object_hit` over `meshes`, as a function of ray and place.
pub open spec fn object_test(meshes: Seq<Mesh>) -> spec_fn(Ray, u32) -> Option<HitRecord> {
    |ray: Ray, i: u32| object_hit(meshes, ray, i)
}

/// The places of the emitting objects among the first `k`, in their order.
pub open spec fn emitting(meshes: Seq<Mesh>, k: nat) -> Seq<u32>
    decreases k,
{
    if k == 0 {
        Seq::empty()
    } else {
        let before = emitting(meshes, (k - 1) as nat);
        if meshes[k - 1].matter().emissive {
            before.push((k - 1) as u32)
        } else {
            before
        }
    }
}

/// The random number generator of rand that each thread has of its own.
#[verifier::external_type_specification]
#[verifier::external_body]
pub struct ExThreadRng(ThreadRng);

/// Draws a place below `n` with `Rng::gen_range` of rand, on the range from
/// `0` up to `n`, which must not be empty. Which place comes, nothing says.
#[verifier::external_body]
fn random_below(rng: &mut ThreadRng, n: usize) -> (k: usize)
    requires
        n > 0,
    ensures
        k < n,
{
    rng.gen_range(0..n)
}

/// Every place that `emitting` lists is the place of an emitting object
/// among the first `k`.
pub proof fn lemma_emitting(meshes: Seq<Mesh>, k: nat, j: int)
    requires
        k <= meshes.len(),
        k <= u32::MAX,
        0 <= j < emitting(meshes, k).len(),
    ensures
        emitting(meshes, k)[j] < k,
        meshes[emitting(meshes, k)[j] as int].matter().emissive,
    decreases k,
{
    if k > 0 {
        let before = emitting(meshes, (k - 1) as nat);
        if j < before.len() {
            lemma_emitting(meshes, (k - 1) as nat, j);
        }
    }
}

/// The meshes of a scene, with a hierarchy over their places and the list
/// of those that emit light.
pub struct Scene {
    objects: Vec<SceneObject>,
    bvh: Bvh<u32>,
    emitters: Vec<u32>,
}

/// Collects the objects of a scene.
pub struct SceneBuilder {
    objects: Vec<SceneObject>,
}

impl Scene {
    /// The objects.
    pub closed spec fn meshes(self) -> Seq<Mesh> {
        self.objects@
    }

    /// The hierarchy over the places of the objects.
    pub closed spec fn tree(self) -> Tree<u32> {
        self.bvh@
    }

    /// The places of the emitting objects.
    pub closed spec fn lights(self) -> Seq<u32> {
        self.emitters@
    }

    /// Every object is well formed, the hierarchy holds the place of each
    /// object once and bounds each object, and the emitters are listed.
    pub open spec fn wf(self) -> bool {
        &&& self.meshes().len() <= u32::MAX
        &&& forall|i: int| 0 <= i < self.meshes().len() ==> (#[trigger] self.meshes()[i]).wf()
        &&& self.tree().wf()
        &&& self.tree().covers(object_boxer(self.meshes()))
        &&& self.tree().objects().to_multiset() == places(self.meshes().len()).to_multiset()
        &&& self.lights() == emitting(self.meshes(), self.meshes().len())
    }

    /// What `hit` returns: the find of the search of the hierarchy, with the
    /// objects of each leaf tested one after the other.
    pub open spec fn struck(self, ray: Ray) -> Option<HitRecord> {
        search(self.tree(), object_test(self.meshes()), ray)
    }

    /// The objects.
    pub fn objects(&self) -> (o: &Vec<SceneObject>)
        ensures
            o@ == self.meshes(),
    {
        &self.objects
    }

    /// The places of the emitting objects.
    pub fn emitters(&self) -> (e: &Vec<u32>)
        ensures
            e@ == self.lights(),
    {
        &self.emitters
    }

    /// The emitter that stands at `k` in the list of emitters, with its
    /// place in the scene.
    pub fn emitter_at(&self, k: usize) -> (e: (u32, &SceneObject))
        requires
            self.wf(),
            k < self.lights().len(),
        ensures
            e.0 == self.lights()[k as int],
            e.0 < self.meshes().len(),
            *e.1 == self.meshes()[e.0 as int],
            e.1.matter().emissive,
    {
        proof {
            lemma_emitting(self.meshes(), self.meshes().len(), k as int);
        }
        let index = self.emitters[k];
        (index, &self.objects[index as usize])
    }

    /// One of the emitters, drawn at random with equal chances, with its
    /// place in the scene; `None` where nothing emits.
    pub fn sample_emitter_surface(&self, rng: &mut ThreadRng) -> (e: Option<(u32, &SceneObject)>)
        requires
            self.wf(),
        ensures
            e is None <==> self.lights().len() == 0,
            e matches Some((i, m)) ==> {
                &&& self.lights().contains(i)
                &&& i < self.meshes().len()
                &&& *m == self.meshes()[i as int]
                &&& m.matter().emissive
            },
    {
        if self.emitters.len() == 0 {
            return None;
        }
        let k = random_below(rng, self.emitters.len());
        Some(self.emitter_at(k))
    }

    /// Whether the first thing that the ray strikes is the object at
    /// `place`: whether that object is seen along the ray.
    pub fn strikes(&self, ray: Ray, place: u32) -> (seen: bool)
        requires
            self.wf(),
            ray.wf(),
        ensures
            seen == (self.struck(ray) matches Some(h) && h.obj == Some(place)),
    {
        match self.hit(ray) {
            Some(h) => match h.obj {
                Some(i) => i == place,
                None => false,
            },
            None => false,
        }
    }

    /// The hierarchy over the places of `objects`: the empty one where
    /// there is no object.
    fn build_bvh(objects: &Vec<SceneObject>) -> (bvh: Bvh<u32>)
        requires
            objects.len() <= u32::MAX,
            forall|i: int| 0 <= i < objects.len() ==> (#[trigger] objects[i]).wf(),
        ensures
            bvh@.wf(),
            bvh@.covers(object_boxer(objects@)),
            bvh@.objects().to_multiset() == places(objects@.len()).to_multiset(),
            objects.len() == 0 ==> bvh@ is Leaf && bvh@.objects().len() == 0,
            objects.len() > 0 ==> bvh@ == build_spec(
                places(objects@.len()),
                object_boxes(objects@),
                MAX_OBJECT_PER_NODE as nat,
                0,
            ),
    {
        if objects.len() == 0 {
            let bvh = Bvh::empty();
            assert(bvh@.objects() =~= places(0));
            return bvh;
        }
        let mut indices: Vec<u32> = Vec::new();
        let mut i: usize = 0;
        while i < objects.len()
            invariant
                i <= objects.len() <= u32::MAX,
                indices@ == places(i as nat),
            decreases objects.len() - i,
        {
            indices.push(i as u32);
            proof {
                assert(indices@ =~= places((i + 1) as nat));
            }
            i += 1;
        }
        let ghost given = indices@;
        let object_aabb = |i: &u32| -> (b: Aabb)
            requires
                *i < objects.len(),
            ensures
                *i < objects.len(),
                b@ == objects@[*i as int].tree().bounds(),
                b.wf(),
            {
                assert(objects[*i as int].wf());
                objects[*i as usize].aabb()
            };
        let bvh = Bvh::new(&mut indices, object_aabb, MAX_OBJECT_PER_NODE);
        proof {
            let boxes = choose|boxes: Seq<Aabb>| #[trigger]
                boxed_by(given, object_aabb, boxes) && bvh@ == build_spec(
                    given,
                    bounds_of(boxes),
                    MAX_OBJECT_PER_NODE as nat,
                    0,
                );
            let ob = object_boxes(objects@);
            assert forall|k: int| 0 <= k < given.len() implies (#[trigger] boxes[k])@ == ob[k]
                && boxes[k].wf() by {
                assert(call_ensures(object_aabb, (&given[k],), boxes[k]));
            }
            assert(bounds_of(boxes) =~= ob);
            assert forall|k: int| 0 <= k < ob.len() implies (#[trigger] ob[k]).wf() && ob[k]
                == object_boxer(objects@)(given[k]) by {
                assert(boxes[k].wf());
            }
            lemma_build_sound(given, ob, MAX_OBJECT_PER_NODE as nat, 0, object_boxer(objects@));
        }
        bvh
    }

    /// The places of the emitting objects, in their order.
    fn build_emitters(objects: &Vec<SceneObject>) -> (emitters: Vec<u32>)
        requires
            objects.len() <= u32::MAX,
        ensures
            emitters@ == emitting(objects@, objects@.len()),
    {
        let mut emitters: Vec<u32> = Vec::new();
        let mut i: usize = 0;
        while i < objects.len()
            invariant
                i <= objects.len() <= u32::MAX,
                emitters@ == emitting(objects@, i as nat),
            decreases objects.len() - i,
        {
            if objects[i].material().is_emissive() {
                emitters.push(i as u32);
            }
            i += 1;
        }
        emitters
    }

    /// What the ray strikes among the objects at the places `places`: each
    /// is tested in turn, and after each find the ray is cut off there.
    fn hit_objects(&self, ray: Ray, places: &Vec<u32>) -> (out: Option<HitRecord>)
        requires
            ray.wf(),
            forall|i: int| 0 <= i < self.meshes().len() ==> (#[trigger] self.meshes()[i]).wf(),
            forall|k: int| 0 <= k < places.len() ==> (#[trigger] places[k]) < self.meshes().len(),
        ensures
            out == scan(object_test(self.meshes()), ray, places@),
            out matches Some(h) ==> h.dist.wf(),
    {
        let ghost one = object_test(self.meshes());
        let mut hit_rec: Option<HitRecord> = None;
        let mut r = ray;
        let mut k: usize = 0;
        while k < places.len()
            invariant
                k <= places.len(),
                ray.wf(),
                r.wf(),
                one == object_test(self.meshes()),
                forall|i: int| 0 <= i < self.meshes().len() ==> (#[trigger] self.meshes()[i]).wf(),
                forall|j: int| 0 <= j < places.len() ==> (#[trigger] places[j]) < self.meshes().len(),
                hit_rec == scan(one, ray, places@.take(k as int)),
                r == shrunk(ray, hit_rec),
                hit_rec matches Some(h) ==> h.dist.wf(),
            decreases places.len() - k,
        {
            let i = places[k];
            assert(places[k as int] < self.meshes().len());
            let obj = &self.objects[i as usize];
            assert(obj.wf());
            proof {
                let next = places@.take(k + 1);
                assert(next.drop_last() =~= places@.take(k as int));
                assert(next.last() == i);
                assert(one(r, i) == object_hit(self.meshes(), r, i));
                lemma_mesh_nearest(*obj, r);
            }
            if let Some(hit) = obj.hit(r) {
                r = r.with_max(hit.dist);
                hit_rec = Some(HitRecord { dist: hit.dist, pos: hit.pos, norm: hit.norm, obj: Some(i) });
            }
            k += 1;
        }
        assert(places@.take(k as int) =~= places@);
        hit_rec
    }
}

impl SceneBuilder {
    /// The objects collected so far.
    pub closed spec fn collected(self) -> Seq<Mesh> {
        self.objects@
    }

    pub fn new() -> (b: SceneBuilder)
        ensures
            b.collected().len() == 0,
    {
        SceneBuilder { objects: Vec::new() }
    }

    pub fn push(&mut self, obj: SceneObject)
        ensures
            final(self).collected() == old(self).collected().push(obj),
    {
        self.objects.push(obj);
    }

    /// How many objects are collected.
    pub fn len(&self) -> (n: usize)
        ensures
            n == self.collected().len(),
    {
        self.objects.len()
    }

    /// The scene of the objects collected, in the order in which they came.
    pub fn build(self) -> (scene: Scene)
        requires
            self.collected().len() <= u32::MAX,
            forall|i: int| 0 <= i < self.collected().len() ==> (#[trigger] self.collected()[i]).wf(),
        ensures
            scene.wf(),
            scene.meshes() == self.collected(),
            scene.meshes().len() == 0 ==> scene.tree() is Leaf && scene.tree().objects().len() == 0,
            scene.meshes().len() > 0 ==> scene.tree() == build_spec(
                places(scene.meshes().len()),
                object_boxes(scene.meshes()),
                MAX_OBJECT_PER_NODE as nat,
                0,
            ),
    {
        let bvh = Scene::build_bvh(&self.objects);
        let emitters = Scene::build_emitters(&self.objects);
        Scene { objects: self.objects, bvh, emitters }
    }
}

impl Hittable for Scene {
    type Result = HitRecord;

    open spec fn hit_ready(&self, ray: Ray) -> bool {
        self.wf() && ray.wf()
    }

    open spec fn hit_spec(&self, ray: Ray) -> Option<HitRecord> {
        self.struck(ray)
    }

    /// What the ray strikes first in the scene, marked with the place of
    /// the object struck.
    fn hit(&self, ray: Ray) -> (r: Option<HitRecord>) {
        let leaf = |r: Ray, objects: &Vec<u32>| -> (out: Option<HitRecord>)
            requires
                r.wf(),
                forall|i: int| 0 <= i < self.meshes().len() ==> (#[trigger] self.meshes()[i]).wf(),
                forall|k: int| 0 <= k < objects.len() ==> (#[trigger] objects[k]) < self.meshes().len(),
            ensures
                out == scan(object_test(self.meshes()), r, objects@),
                out matches Some(h) ==> h.dist.wf(),
            { self.hit_objects(r, objects) };
        proof {
            assert forall|r: Ray, v: Vec<u32>|
                r.wf() && r.same_line(ray) && self.tree().has_leaf(v@) implies #[trigger] call_requires(
                leaf,
                (r, &v),
            ) by {
                assert forall|k: int| 0 <= k < v.len() implies (#[trigger] v[k])
                    < self.meshes().len() by {
                    lemma_leaf_objects(self.tree(), v@, k);
                    lemma_place_listed(self.tree().objects(), self.meshes().len(), v[k]);
                }
            }
        }
        let out = self.bvh.trace(ray, leaf);
        proof {
            lemma_traced_search(self.tree(), ray, leaf, object_test(self.meshes()), out);
        }
        out
    }
}

impl HitRecord {
    /// The material of the object struck, where the find is marked with
    /// one.
    pub fn material<'a>(&self, scene: &'a Scene) -> (m: Option<&'a Material>)
        requires
            self.obj matches Some(i) ==> i < scene.meshes().len(),
        ensures
            match self.obj {
                Some(i) => m == Some(&scene.meshes()[i as int].matter()),
                None => m is None,
            },
    {
        match self.obj {
            Some(i) => Some(scene.objects[i as usize].material()),
            None => None,
        }
    }
}

/// A list that holds what the places of `n` objects hold holds a place
/// exactly if it is the place of one of them.
pub proof fn lemma_place_listed(list: Seq<u32>, n: nat, i: u32)
    requires
        n <= u32::MAX,
        list.to_multiset() == places(n).to_multiset(),
    ensures
        list.contains(i) <==> i < n,
{
    list.to_multiset_ensures();
    places(n).to_multiset_ensures();
    if i < n {
        assert(places(n)[i as int] == i);
        assert(places(n).contains(i));
        assert(places(n).to_multiset().count(i) > 0);
    }
    if list.contains(i) {
        assert(list.to_multiset().count(i) > 0);
        assert(places(n).contains(i));
        let k = choose|k: int| 0 <= k < places(n).len() && places(n)[k] == i;
        assert(i == k as u32);
    }
}

/// The test of one object of a scene is sound and steady.
pub proof fn lemma_object_fair(meshes: Seq<Mesh>, i: u32, r: Ray)
    requires
        i < meshes.len(),
        meshes[i as int].wf(),
        r.wf(),
    ensures
        sound_at(object_test(meshes), object_boxer(meshes), i, r),
        forall|d: Dist|
            d.wf() && r.reaches(d.num as int, d.den as int) ==> #[trigger] steady_at(
                object_test(meshes),
                i,
                r,
                d,
            ),
{
    let mesh = meshes[i as int];
    let one = face_test(mesh.points());
    let box_of = face_boxer(mesh.points());
    lemma_mesh_nearest(mesh, r);
    lemma_faces_fair(mesh.points(), mesh.faces(), r);
    if let Some(h) = mesh.struck(r) {
        let j = choose|j: int|
            0 <= j < mesh.faces().len() && (#[trigger] one(r, mesh.faces()[j]) matches Some(g)
                && g.dist@.same(h.dist@));
        assert(sound_at(one, box_of, mesh.faces()[j], r));
        lemma_covered(mesh.tree(), box_of, j);
        lemma_meets_surrounding(box_of(mesh.faces()[j]), mesh.tree().bounds(), r);
    }
    assert forall|d: Dist|
        d.wf() && r.reaches(d.num as int, d.den as int) implies #[trigger] steady_at(
        object_test(meshes),
        i,
        r,
        d,
    ) by {
        lemma_mesh_nearest(mesh, cut(r, d));
        lemma_nearest_steady(one, box_of, mesh.faces(), r, d, mesh.struck(r), mesh.struck(cut(r, d)));
    }
}

/// The tests of the objects at the places `list` are fair along every line.
pub proof fn lemma_objects_fair(meshes: Seq<Mesh>, list: Seq<u32>, line: Ray)
    requires
        forall|i: int| 0 <= i < meshes.len() ==> (#[trigger] meshes[i]).wf(),
        forall|k: int| 0 <= k < list.len() ==> (#[trigger] list[k]) < meshes.len(),
    ensures
        fair(object_test(meshes), object_boxer(meshes), list, line),
{
    let one = object_test(meshes);
    let box_of = object_boxer(meshes);
    assert forall|k: int, r: Ray|
        0 <= k < list.len() && r.same_line(line) && r.wf() implies #[trigger] sound_at(
        one,
        box_of,
        list[k],
        r,
    ) by {
        lemma_object_fair(meshes, list[k], r);
    }
    assert forall|k: int, r: Ray, d: Dist|
        0 <= k < list.len() && r.same_line(line) && r.wf() && d.wf() && r.reaches(
            d.num as int,
            d.den as int,
        ) implies #[trigger] steady_at(one, list[k], r, d) by {
        lemma_object_fair(meshes, list[k], r);
    }
}

/// What a scene reports is the nearest of what its objects report: it
/// reports nothing exactly if the ray strikes no object within its bound,
/// and else a find at the smallest distance at which the ray strikes one.
pub proof fn lemma_scene_nearest(scene: Scene, ray: Ray)
    requires
        scene.wf(),
        ray.wf(),
    ensures
        nearest(object_test(scene.meshes()), ray, places(scene.meshes().len()), scene.struck(ray)),
{
    let meshes = scene.meshes();
    let n = meshes.len();
    let list = scene.tree().objects();
    let all = places(n);
    let one = object_test(meshes);
    assert forall|k: int| 0 <= k < list.len() implies (#[trigger] list[k]) < n by {
        assert(list.contains(list[k]));
        lemma_place_listed(list, n, list[k]);
    }
    lemma_objects_fair(meshes, list, ray);
    lemma_search_nearest(scene.tree(), one, object_boxer(meshes), ray);
    let out = scene.struck(ray);
    assert forall|i: int| 0 <= i < all.len() implies exists|k: int|
        0 <= k < list.len() && list[k] == #[trigger] all[i] by {
        lemma_place_listed(list, n, all[i]);
        assert(list.contains(all[i]));
    }
    match out {
        None => {
            assert forall|i: int| 0 <= i < all.len() implies (#[trigger] one(ray, all[i])) is None by {
                let k = choose|k: int| 0 <= k < list.len() && list[k] == all[i];
                assert(one(ray, list[k]) is None);
            }
        },
        Some(h) => {
            let k = choose|k: int|
                0 <= k < list.len() && (#[trigger] one(ray, list[k]) matches Some(g)
                    && g.dist@.same(h.dist@));
            assert(all[list[k] as int] == list[k]);
            assert(one(ray, all[list[k] as int]) matches Some(g) && g.dist@.same(h.dist@));
            assert forall|i: int| 0 <= i < all.len() implies (#[trigger] one(ray, all[i]) matches Some(
                g,
            ) ==> h.dist@.le(g.dist@)) by {
                let j = choose|j: int| 0 <= j < list.len() && list[j] == all[i];
                assert(one(ray, list[j]) matches Some(g) ==> h.dist@.le(g.dist@));
            }
        },
    }
}

/// In a scene without an object no ray strikes anything.
pub proof fn lemma_empty_scene(scene: Scene, ray: Ray)
    requires
        scene.wf(),
        ray.wf(),
        scene.meshes().len() == 0,
    ensures
        scene.struck(ray) is None,
{
    lemma_scene_nearest(scene, ray);
    let out = scene.struck(ray);
    if out is Some {
        let h = out.unwrap();
        let one = object_test(scene.meshes());
        let all = places(0);
        let i = choose|i: int|
            0 <= i < all.len() && (#[trigger] one(ray, all[i]) matches Some(g) && g.dist@.same(
                h.dist@,
            ));
    }
}

/// Whatever triangle of whatever object the ray strikes, the scene reports
/// a find, and one that is no farther.
pub proof fn lemma_scene_before_triangle(scene: Scene, ray: Ray, i: int, j: int)
    requires
        scene.wf(),
        ray.wf(),
        0 <= i < scene.meshes().len(),
        0 <= j < scene.meshes()[i].faces().len(),
    ensures
        face_hit(scene.meshes()[i].points(), ray, scene.meshes()[i].faces()[j]) matches Some(g) ==> (
        scene.struck(ray) matches Some(h) && h.dist@.le(g.dist@)),
{
    let mesh = scene.meshes()[i];
    let one = face_test(mesh.points());
    let all = places(scene.meshes().len());
    lemma_mesh_nearest(mesh, ray);
    lemma_scene_nearest(scene, ray);
    lemma_faces_fair(mesh.points(), mesh.faces(), ray);
    if let Some(g) = face_hit(mesh.points(), ray, mesh.faces()[j]) {
        assert(one(ray, mesh.faces()[j]) == Some(g));
        assert(sound_at(one, face_boxer(mesh.points()), mesh.faces()[j], ray));
        let m = mesh.struck(ray).unwrap();
        assert(m.dist@.le(g.dist@));
        assert(all[i] == i as u32);
        assert(object_test(scene.meshes())(ray, all[i]) == Some(marked(m, i as u32)));
        let h = scene.struck(ray).unwrap();
        assert(h.dist@.le(m.dist@));
        lemma_le_trans(h.dist@, m.dist@, g.dist@);
    }
}

/// What the scene reports lies at the distance at which the ray strikes
/// some triangle of the object that the find is marked with.
pub proof fn lemma_scene_on_triangle(scene: Scene, ray: Ray)
    requires
        scene.wf(),
        ray.wf(),
    ensures
        scene.struck(ray) matches Some(h) ==> exists|i: int, j: int|
            0 <= i < scene.meshes().len() && 0 <= j < scene.meshes()[i].faces().len() && (
            #[trigger] face_hit(scene.meshes()[i].points(), ray, scene.meshes()[i].faces()[j])
                matches Some(g) && g.dist@.same(h.dist@)),
{
    lemma_scene_nearest(scene, ray);
    if let Some(h) = scene.struck(ray) {
        let all = places(scene.meshes().len());
        let one = object_test(scene.meshes());
        let i = choose|i: int|
            0 <= i < all.len() && (#[trigger] one(ray, all[i]) matches Some(g) && g.dist@.same(
                h.dist@,
            ));
        let mesh = scene.meshes()[i];
        assert(all[i] == i as u32);
        lemma_mesh_nearest(mesh, ray);
        lemma_faces_fair(mesh.points(), mesh.faces(), ray);
        let m = mesh.struck(ray).unwrap();
        let test = face_test(mesh.points());
        let j = choose|j: int|
            0 <= j < mesh.faces().len() && (#[trigger] test(ray, mesh.faces()[j]) matches Some(g)
                && g.dist@.same(m.dist@));
        let g = face_hit(mesh.points(), ray, mesh.faces()[j]).unwrap();
        assert(sound_at(test, face_boxer(mesh.points()), mesh.faces()[j], ray));
        lemma_le_trans(g.dist@, m.dist@, h.dist@);
        lemma_le_trans(h.dist@, m.dist@, g.dist@);
    }
}

/// What a scene reports is marked with the place of one of its objects, and
/// the point that it reports is the point of the ray at the distance that it
/// reports.
pub proof fn lemma_scene_hit_marked(scene: Scene, ray: Ray)
    requires
        scene.wf(),
        ray.wf(),
    ensures
        scene.struck(ray) matches Some(h) ==> {
            &&& h.dist.wf()
            &&& h.obj matches Some(i) && i < scene.meshes().len()
            &&& h.pos@ == ray.point_at(h.dist.num as int, h.dist.den as int)
        },
{
    let meshes = scene.meshes();
    let list = scene.tree().objects();
    let one = object_test(meshes);
    lemma_search_source(scene.tree(), one, ray);
    lemma_scene_nearest(scene, ray);
    if let Some(h) = scene.struck(ray) {
        let (k, r) = choose|k: int, r: Ray|
            0 <= k < list.len() && r.same_line(ray) && #[trigger] one(r, list[k]) == Some(h);
        assert(list.contains(list[k]));
        lemma_place_listed(list, meshes.len(), list[k]);
        let i = list[k];
        let m = meshes[i as int].struck(r).unwrap();
        assert(h == marked(m, i));
        lemma_mesh_hit_on_ray(meshes[i as int], r);
    }
}

} // verus!
