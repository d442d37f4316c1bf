use vstd::prelude::*;
use vstd::arithmetic::power2::pow2;
use vstd::relations::{sorted_by, total_ordering};
use vstd::seq_lib::lemma_sorted_unique;
use crate::aabb::{Aabb, Bounds};
use crate::hit::{HitRecord, Hittable};
use crate::ray::Ray;
use crate::vec::{Vec3, COORD_MAX};

verus! {

/// The shape of a hierarchy in contracts: a leaf with its objects, or a node
/// with two subtrees, each with the bounds around all that is below it.
pub enum Tree<T> {
    Leaf { bounds: Bounds, objects: Seq<T> },
    Node { bounds: Bounds, left: Box<Tree<T>>, right: Box<Tree<T>> },
}

impl<T> Tree<T> {
    /// The bounds at the root.
    pub open spec fn bounds(self) -> Bounds {
        match self {
            Tree::Leaf { bounds, .. } => bounds,
            Tree::Node { bounds, .. } => bounds,
        }
    }

    /// The objects of all leaves, from left to right.
    pub open spec fn objects(self) -> Seq<T>
        decreases self,
    {
        match self {
            Tree::Leaf { objects, .. } => objects,
            Tree::Node { left, right, .. } => left.objects() + right.objects(),
        }
    }

    /// The number of nodes on the longest way from the root down to a leaf.
    pub open spec fn depth(self) -> nat
        decreases self,
    {
        match self {
            Tree::Leaf { .. } => 0,
            Tree::Node { left, right, .. } => if left.depth() >= right.depth() {
                left.depth() + 1
            } else {
                right.depth() + 1
            },
        }
    }

    /// Every bounds in the hierarchy is well formed.
    pub open spec fn wf(self) -> bool
        decreases self,
    {
        match self {
            Tree::Leaf { bounds, .. } => bounds.wf(),
            Tree::Node { bounds, left, right } => bounds.wf() && left.wf() && right.wf(),
        }
    }

    /// Some leaf of the hierarchy holds exactly `objs`.
    pub open spec fn has_leaf(self, objs: Seq<T>) -> bool
        decreases self,
    {
        match self {
            Tree::Leaf { objects, .. } => objects == objs,
            Tree::Node { left, right, .. } => left.has_leaf(objs) || right.has_leaf(objs),
        }
    }

    /// Of a node's two subtrees, the left one is searched first: the
    /// midpoint of its bounds is nearer to the ray's origin.
    pub open spec fn left_first(self, ray: Ray) -> bool {
        match self {
            Tree::Leaf { .. } => true,
            Tree::Node { left, right, .. } => left.bounds().gap(ray.orig@) < right.bounds().gap(
                ray.orig@,
            ),
        }
    }

    /// `out` is a result of searching the hierarchy along `ray` with the
    /// leaf test `f`. A subtree whose bounds the ray misses gives nothing. A
    /// leaf gives what `f` gives for its objects. Of a node the nearer
    /// subtree is searched first, then the other with the ray cut off at
    /// what the first gave; the later find counts.
    pub open spec fn traced<F: Fn(Ray, &Vec<T>) -> Option<HitRecord>>(
        self,
        ray: Ray,
        f: F,
        out: Option<HitRecord>,
    ) -> bool
        decreases self,
    {
        if !self.bounds().meets(ray) {
            out is None
        } else {
            match self {
                Tree::Leaf { objects, .. } => exists|v: Vec<T>|
                    v@ == objects && #[trigger] call_ensures(f, (ray, &v), out),
                Tree::Node { left, right, .. } => {
                    if self.left_first(ray) {
                        exists|h1: Option<HitRecord>, h2: Option<HitRecord>|
                            #![trigger joined(h1, h2, out)]
                            left.traced(ray, f, h1) && right.traced(shrunk(ray, h1), f, h2)
                                && joined(h1, h2, out)
                    } else {
                        exists|h1: Option<HitRecord>, h2: Option<HitRecord>|
                            #![trigger joined(h1, h2, out)]
                            right.traced(ray, f, h1) && left.traced(shrunk(ray, h1), f, h2)
                                && joined(h1, h2, out)
                    }
                },
            }
        }
    }

    /// The bounds of every leaf surround the box that `box_of` gives each of
    /// its objects, and the bounds of every node surround those of its two
    /// subtrees.
    pub open spec fn covers(self, box_of: spec_fn(T) -> Bounds) -> bool
        decreases self,
    {
        match self {
            Tree::Leaf { bounds, objects } => forall|i: int|
                0 <= i < objects.len() ==> bounds.surrounds(#[trigger] box_of(objects[i])),
            Tree::Node { bounds, left, right } => {
                &&& bounds.surrounds(left.bounds())
                &&& bounds.surrounds(right.bounds())
                &&& left.covers(box_of)
                &&& right.covers(box_of)
            },
        }
    }

    /// No leaf holds more than `max` objects.
    pub open spec fn leaves_within(self, max: nat) -> bool
        decreases self,
    {
        match self {
            Tree::Leaf { objects, .. } => objects.len() <= max,
            Tree::Node { left, right, .. } => left.leaves_within(max) && right.leaves_within(max),
        }
    }
}

/// The ray, cut off at the distance of `h` where there is one.
pub open spec fn shrunk(ray: Ray, h: Option<HitRecord>) -> Ray {
    match h {
        Some(x) => Ray { orig: ray.orig, dir: ray.dir, max: Some(x.dist) },
        None => ray,
    }
}

/// `out` is what the finds in the two subtrees of a node give together.
pub open spec fn joined(h1: Option<HitRecord>, h2: Option<HitRecord>, out: Option<HitRecord>) -> bool {
    out == later(h1, h2)
}

/// The second of two finds where there is one, else the first.
pub open spec fn later(h1: Option<HitRecord>, h2: Option<HitRecord>) -> Option<HitRecord> {
    if h2 is Some {
        h2
    } else {
        h1
    }
}

/// The smallest bounds around all of `boxes`, which is not empty.
pub open spec fn hull(boxes: Seq<Bounds>) -> Bounds
    decreases boxes.len(),
{
    if boxes.len() <= 1 {
        boxes[0]
    } else {
        hull(boxes.drop_last()).join(boxes.last())
    }
}

/// The order of two pairs of a key and a place: by key, and by place where
/// the keys are equal.
pub open spec fn pair_leq(a: (i64, usize), b: (i64, usize)) -> bool {
    a.0 < b.0 || (a.0 == b.0 && a.1 <= b.1)
}

/// `pair_leq` as a relation.
pub open spec fn pair_order() -> spec_fn((i64, usize), (i64, usize)) -> bool {
    |a: (i64, usize), b: (i64, usize)| pair_leq(a, b)
}

/// The key by which a box is sorted along `axis`: the coordinate of its
/// midpoint, doubled.
pub open spec fn sort_key(b: Bounds, axis: int) -> int {
    b.low.at(axis) + b.high.at(axis)
}

/// Each box's key along `axis`, paired with the box's place.
pub open spec fn key_pairs(boxes: Seq<Bounds>, axis: int) -> Seq<(i64, usize)> {
    Seq::new(boxes.len(), |i: int| (sort_key(boxes[i], axis) as i64, i as usize))
}

/// The places of the boxes, in the order of their keys along `axis`; boxes
/// with equal keys keep their order.
pub open spec fn sorted_pairs(boxes: Seq<Bounds>, axis: int) -> Seq<(i64, usize)> {
    key_pairs(boxes, axis).sort_by(pair_order())
}

/// The items of `s`, taken in the order of the places in `order`.
pub open spec fn reordered<A>(s: Seq<A>, order: Seq<(i64, usize)>) -> Seq<A> {
    Seq::new(s.len(), |j: int| s[order[j].1 as int])
}

/// The hierarchy over `objs`, whose boxes are `boxes`: one leaf where they
/// are at most `max`; else the objects are sorted by the midpoints of their
/// boxes along `axis`, the lower half goes left and the rest right, and
/// both are split on along the next axis.
pub open spec fn build_spec<T>(objs: Seq<T>, boxes: Seq<Bounds>, max: nat, axis: int) -> Tree<T>
    decreases objs.len(),
{
    if objs.len() <= max || objs.len() <= 1 {
        Tree::Leaf { bounds: hull(boxes), objects: objs }
    } else {
        let order = sorted_pairs(boxes, axis);
        let half = (objs.len() / 2) as int;
        let sorted_objs = reordered(objs, order);
        let sorted_boxes = reordered(boxes, order);
        let left = build_spec(sorted_objs.take(half), sorted_boxes.take(half), max, (axis + 1) % 3);
        let right = build_spec(sorted_objs.skip(half), sorted_boxes.skip(half), max, (axis + 1) % 3);
        Tree::Node {
            bounds: left.bounds().join(right.bounds()),
            left: Box::new(left),
            right: Box::new(right),
        }
    }
}

/// A bounding volume hierarchy over objects of type `T`.
pub struct Bvh<T> {
    root: BvhNode<T>,
}

struct BvhNode<T> {
    aabb: Aabb,
    content: BvhContent<T>,
}

enum BvhContent<T> {
    Leaf(Vec<T>),
    Node(Box<BvhNode<T>>, Box<BvhNode<T>>),
}

impl<T> BvhNode<T> {
    spec fn view(self) -> Tree<T>
        decreases self,
    {
        match self.content {
            BvhContent::Leaf(objects) => Tree::Leaf { bounds: self.aabb@, objects: objects@ },
            BvhContent::Node(left, right) => Tree::Node {
                bounds: self.aabb@,
                left: Box::new(left.view()),
                right: Box::new(right.view()),
            },
        }
    }
}

impl<T> View for Bvh<T> {
    type V = Tree<T>;

    closed spec fn view(&self) -> Tree<T> {
        self.root.view()
    }
}

/// What a list of boxes stands for in contracts.
pub open spec fn bounds_of(boxes: Seq<Aabb>) -> Seq<Bounds> {
    Seq::new(boxes.len(), |i: int| boxes[i]@)
}

/// `pair_leq` orders the pairs totally.
pub proof fn lemma_pair_order_total()
    ensures
        total_ordering(pair_order()),
{
    let r = pair_order();
    assert(forall|a: (i64, usize), b: (i64, usize)| #[trigger] r(a, b) == pair_leq(a, b));
    assert(vstd::relations::reflexive(r));
    assert(vstd::relations::antisymmetric(r));
    assert(vstd::relations::transitive(r));
    assert(vstd::relations::strongly_connected(r));
}

/// Sorts pairs of a key and a place with `sort` of std's slices, which
/// orders tuples by their first field and, where those are equal, by their
/// second. The pairs come out in that order, and they are the pairs that
/// went in.
#[verifier::external_body]
fn sort_pairs(pairs: &mut Vec<(i64, usize)>)
    ensures
        sorted_by(final(pairs)@, pair_order()),
        final(pairs)@.to_multiset() == old(pairs)@.to_multiset(),
{
    pairs.sort();
}

/// The smallest box around all of `boxes`.
fn hull_of(boxes: &Vec<Aabb>) -> (b: Aabb)
    requires
        boxes.len() > 0,
    ensures
        b@ == hull(bounds_of(boxes@)),
{
    let mut acc = boxes[0];
    let mut i: usize = 1;
    assert(bounds_of(boxes@).take(1).len() == 1);
    while i < boxes.len()
        invariant
            1 <= i <= boxes.len(),
            acc@ == hull(bounds_of(boxes@).take(i as int)),
        decreases boxes.len() - i,
    {
        proof {
            let next = bounds_of(boxes@).take(i + 1);
            assert(next.drop_last() =~= bounds_of(boxes@).take(i as int));
            assert(next.last() == boxes@[i as int]@);
        }
        acc = acc.merged(boxes[i]);
        i += 1;
    }
    assert(bounds_of(boxes@).take(i as int) =~= bounds_of(boxes@));
    acc
}

/// Each box's key along `axis`, paired with the box's place.
fn pairs_of(boxes: &Vec<Aabb>, axis: usize) -> (pairs: Vec<(i64, usize)>)
    requires
        axis < 3,
        forall|i: int| 0 <= i < boxes.len() ==> (#[trigger] boxes[i]).wf(),
    ensures
        pairs@ == key_pairs(bounds_of(boxes@), axis as int),
{
    let mut pairs: Vec<(i64, usize)> = Vec::new();
    let mut i: usize = 0;
    while i < boxes.len()
        invariant
            axis < 3,
            i <= boxes.len(),
            pairs.len() == i,
            forall|k: int| 0 <= k < boxes.len() ==> (#[trigger] boxes[k]).wf(),
            forall|k: int|
                0 <= k < i ==> #[trigger] pairs@[k] == key_pairs(bounds_of(boxes@), axis as int)[k],
        decreases boxes.len() - i,
    {
        assert(boxes[i as int].wf());
        let key = boxes[i].center().axis(axis);
        pairs.push((key, i));
        i += 1;
    }
    assert(pairs@ =~= key_pairs(bounds_of(boxes@), axis as int));
    pairs
}

/// The pairs that `sort_pairs` leaves are those of the contract, and each
/// holds a place of the list.
proof fn lemma_sorted_pairs(sorted: Seq<(i64, usize)>, boxes: Seq<Bounds>, axis: int)
    requires
        sorted_by(sorted, pair_order()),
        sorted.to_multiset() == key_pairs(boxes, axis).to_multiset(),
    ensures
        sorted == sorted_pairs(boxes, axis),
        sorted.len() == boxes.len(),
        forall|j: int| 0 <= j < sorted.len() ==> (#[trigger] sorted[j]).1 < boxes.len(),
{
    let pairs = key_pairs(boxes, axis);
    lemma_pair_order_total();
    pairs.lemma_sort_by_ensures(pair_order());
    lemma_sorted_unique(sorted, sorted_pairs(boxes, axis), pair_order());
    vstd::seq_lib::to_multiset_len(sorted);
    vstd::seq_lib::to_multiset_len(pairs);
    assert forall|j: int| 0 <= j < sorted.len() implies (#[trigger] sorted[j]).1 < boxes.len() by {
        sorted.to_multiset_ensures();
        pairs.to_multiset_ensures();
        assert(sorted.contains(sorted[j]));
        assert(pairs.contains(sorted[j]));
        let k = choose|k: int| 0 <= k < pairs.len() && pairs[k] == sorted[j];
        assert(pairs[k].1 == k as usize);
    }
}

impl<T: Copy> BvhNode<T> {
    /// The items of `items` at the places `order[from..to]`.
    fn pick<A: Copy>(items: &Vec<A>, order: &Vec<(i64, usize)>, from: usize, to: usize) -> (out: Vec<A>)
        requires
            from <= to <= order.len(),
            order.len() == items.len(),
            forall|j: int| 0 <= j < order.len() ==> (#[trigger] order[j]).1 < items.len(),
        ensures
            out@ == reordered(items@, order@).subrange(from as int, to as int),
    {
        let mut out: Vec<A> = Vec::new();
        let mut j: usize = from;
        while j < to
            invariant
                from <= j <= to <= order.len(),
                order.len() == items.len(),
                forall|k: int| 0 <= k < order.len() ==> (#[trigger] order[k]).1 < items.len(),
                out@ == reordered(items@, order@).subrange(from as int, j as int),
            decreases to - j,
        {
            let place = order[j].1;
            out.push(items[place]);
            proof {
                assert(out@ =~= reordered(items@, order@).subrange(from as int, j + 1));
            }
            j += 1;
        }
        out
    }

    fn build(objects: Vec<T>, boxes: Vec<Aabb>, max: usize, axis: usize) -> (node: BvhNode<T>)
        requires
            objects.len() == boxes.len(),
            objects.len() > 0,
            max >= 1,
            axis < 3,
            forall|i: int| 0 <= i < boxes.len() ==> (#[trigger] boxes[i]).wf(),
        ensures
            node.view() == build_spec(objects@, bounds_of(boxes@), max as nat, axis as int),
        decreases objects.len(),
    {
        if objects.len() <= max {
            return BvhNode { aabb: hull_of(&boxes), content: BvhContent::Leaf(objects) };
        }
        let mut pairs = pairs_of(&boxes, axis);
        sort_pairs(&mut pairs);
        proof {
            lemma_sorted_pairs(pairs@, bounds_of(boxes@), axis as int);
        }
        let n = objects.len();
        let half = n / 2;
        let left_objects = Self::pick(&objects, &pairs, 0, half);
        let left_boxes = Self::pick(&boxes, &pairs, 0, half);
        let right_objects = Self::pick(&objects, &pairs, half, n);
        let right_boxes = Self::pick(&boxes, &pairs, half, n);
        let next_axis = (axis + 1) % 3;
        proof {
            let order = sorted_pairs(bounds_of(boxes@), axis as int);
            let sorted_objs = reordered(objects@, order);
            let sorted_boxes = reordered(bounds_of(boxes@), order);
            assert(left_objects@ =~= sorted_objs.take(half as int));
            assert(right_objects@ =~= sorted_objs.skip(half as int));
            assert(bounds_of(left_boxes@) =~= sorted_boxes.take(half as int));
            assert(bounds_of(right_boxes@) =~= sorted_boxes.skip(half as int));
        }
        let left = Self::build(left_objects, left_boxes, max, next_axis);
        let right = Self::build(right_objects, right_boxes, max, next_axis);
        BvhNode {
            aabb: left.aabb.merged(right.aabb),
            content: BvhContent::Node(Box::new(left), Box::new(right)),
        }
    }
}

/// A node's result, put together from those of its two subtrees.
proof fn lemma_traced_node<T, F: Fn(Ray, &Vec<T>) -> Option<HitRecord>>(
    tree: Tree<T>,
    ray: Ray,
    f: F,
    h1: Option<HitRecord>,
    h2: Option<HitRecord>,
)
    requires
        tree.bounds().meets(ray),
        tree is Node,
        tree.left_first(ray) ==> tree->left.traced(ray, f, h1) && tree->right.traced(
            shrunk(ray, h1),
            f,
            h2,
        ),
        !tree.left_first(ray) ==> tree->right.traced(ray, f, h1) && tree->left.traced(
            shrunk(ray, h1),
            f,
            h2,
        ),
    ensures
        tree.traced(ray, f, later(h1, h2)),
{
    assert(joined(h1, h2, later(h1, h2)));
}

impl<T: Copy> BvhNode<T> {
    fn trace_node<F: Fn(Ray, &Vec<T>) -> Option<HitRecord>>(
        node: &BvhNode<T>,
        ray: Ray,
        hit_func: &F,
    ) -> (out: Option<HitRecord>)
        requires
            node.view().wf(),
            ray.wf(),
            forall|r: Ray, v: Vec<T>|
                r.wf() && r.same_line(ray) && node.view().has_leaf(v@) ==> #[trigger] call_requires(
                    *hit_func,
                    (r, &v),
                ),
            forall|r: Ray, v: Vec<T>, h: HitRecord|
                r.wf() && r.same_line(ray) && node.view().has_leaf(v@) && #[trigger] call_ensures(
                    *hit_func,
                    (r, &v),
                    Some(h),
                ) ==> h.dist.wf(),
        ensures
            node.view().traced(ray, *hit_func, out),
            out matches Some(h) ==> h.dist.wf(),
        decreases node,
    {
        if node.aabb.hit(ray).is_none() {
            return None;
        }
        match &node.content {
            BvhContent::Leaf(objects) => {
                assert(node.view().has_leaf(objects@));
                let out = hit_func(ray, objects);
                assert(call_ensures(*hit_func, (ray, objects), out));
                out
            },
            BvhContent::Node(left, right) => {
                proof {
                    let tree = node.view();
                    assert(tree.wf());
                    assert(left.view().wf() && right.view().wf());
                    assert(left.view().bounds() == left.aabb@);
                    assert(right.view().bounds() == right.aabb@);
                    assert forall|v: Vec<T>| left.view().has_leaf(v@) || right.view().has_leaf(v@)
                        implies tree.has_leaf(v@) by {}
                }
                let left_first = Self::gap(&left.aabb, ray.orig) < Self::gap(&right.aabb, ray.orig);
                let (first, second) = if left_first {
                    (left, right)
                } else {
                    (right, left)
                };
                let h1 = Self::trace_node(first, ray, hit_func);
                let ray2 = match h1 {
                    Some(h) => ray.with_max(h.dist),
                    None => ray,
                };
                assert(ray2 == shrunk(ray, h1));
                let h2 = Self::trace_node(second, ray2, hit_func);
                let out = match h2 {
                    Some(h) => Some(h),
                    None => h1,
                };
                proof {
                    let tree = node.view();
                    assert(tree.left_first(ray) == left_first);
                    assert(out == later(h1, h2));
                    lemma_traced_node(tree, ray, *hit_func, h1, h2);
                }
                out
            },
        }
    }

    /// Twice the vector from `o` to the midpoint of `b`, squared.
    fn gap(b: &Aabb, o: Vec3) -> (g: i64)
        requires
            b.wf(),
            o.in_range(),
        ensures
            g == b@.gap(o@),
    {
        let c = b.center();
        let d = Vec3 { x: c.x - 2 * o.x, y: c.y - 2 * o.y, z: c.z - 2 * o.z };
        proof {
            let l: int = 4 * COORD_MAX;
            assert(d@.within(l));
            assert(0 <= d@.mag() <= l);
            crate::vec::lemma_product_bound(d@.mag(), d@.mag(), l, l);
        }
        d.length2()
    }
}

/// The smallest bounds around well-formed boxes are well formed and
/// surround each of them.
pub proof fn lemma_hull(boxes: Seq<Bounds>, i: int)
    requires
        0 <= i < boxes.len(),
        forall|k: int| 0 <= k < boxes.len() ==> (#[trigger] boxes[k]).wf(),
    ensures
        hull(boxes).wf(),
        hull(boxes).surrounds(boxes[i]),
    decreases boxes.len(),
{
    if boxes.len() > 1 {
        let init = boxes.drop_last();
        assert forall|k: int| 0 <= k < init.len() implies (#[trigger] init[k]).wf() by {
            assert(init[k] == boxes[k]);
        }
        if i < boxes.len() - 1 {
            lemma_hull(init, i);
        } else {
            lemma_hull(init, 0);
        }
    }
}

/// What holds of every hierarchy that `build_spec` describes, over objects
/// whose boxes are well formed: its bounds are well formed, they surround
/// what is below them, no leaf holds more than `max` objects where `max` is
/// at least one, and the leaves hold as many objects as there were.
pub proof fn lemma_build_sound<T>(
    objs: Seq<T>,
    boxes: Seq<Bounds>,
    max: nat,
    axis: int,
    box_of: spec_fn(T) -> Bounds,
)
    requires
        objs.len() == boxes.len(),
        objs.len() > 0,
        max >= 1,
        forall|i: int| 0 <= i < boxes.len() ==> (#[trigger] boxes[i]).wf(),
        forall|i: int| 0 <= i < boxes.len() ==> #[trigger] boxes[i] == box_of(objs[i]),
    ensures
        build_spec(objs, boxes, max, axis).wf(),
        build_spec(objs, boxes, max, axis).covers(box_of),
        build_spec(objs, boxes, max, axis).leaves_within(max),
        build_spec(objs, boxes, max, axis).objects().len() == objs.len(),
        objs.len() <= max ==> build_spec(objs, boxes, max, axis) is Leaf,
        objs.len() > max ==> build_spec(objs, boxes, max, axis) is Node,
    decreases objs.len(),
{
    let tree = build_spec(objs, boxes, max, axis);
    if objs.len() <= max || objs.len() <= 1 {
        assert forall|i: int| 0 <= i < objs.len() implies hull(boxes).surrounds(
            #[trigger] box_of(objs[i]),
        ) by {
            lemma_hull(boxes, i);
            assert(boxes[i] == box_of(objs[i]));
        }
        lemma_hull(boxes, 0);
    } else {
        let order = sorted_pairs(boxes, axis);
        let pairs = key_pairs(boxes, axis);
        lemma_pair_order_total();
        pairs.lemma_sort_by_ensures(pair_order());
        lemma_sorted_pairs(order, boxes, axis);
        let half = (objs.len() / 2) as int;
        let so = reordered(objs, order);
        let sb = reordered(boxes, order);
        assert forall|j: int| 0 <= j < sb.len() implies (#[trigger] sb[j]).wf() && sb[j] == box_of(
            so[j],
        ) by {
            let place = order[j].1 as int;
            assert(boxes[place].wf());
            assert(boxes[place] == box_of(objs[place]));
        }
        let next = (axis + 1) % 3;
        assert forall|j: int| 0 <= j < half implies (#[trigger] sb.take(half)[j]).wf() && sb.take(
            half,
        )[j] == box_of(so.take(half)[j]) by {
            assert(sb.take(half)[j] == sb[j]);
        }
        assert forall|j: int| 0 <= j < sb.len() - half implies (#[trigger] sb.skip(half)[j]).wf()
            && sb.skip(half)[j] == box_of(so.skip(half)[j]) by {
            assert(sb.skip(half)[j] == sb[j + half]);
        }
        lemma_build_sound(so.take(half), sb.take(half), max, next, box_of);
        lemma_build_sound(so.skip(half), sb.skip(half), max, next, box_of);
    }
}

/// `boxes` holds, for each object, a box that `f` gives for it.
pub open spec fn boxed_by<T, F: Fn(&T) -> Aabb>(objs: Seq<T>, f: F, boxes: Seq<Aabb>) -> bool {
    &&& boxes.len() == objs.len()
    &&& forall|i: int| 0 <= i < objs.len() ==> call_ensures(f, (&objs[i],), #[trigger] boxes[i])
}

impl<T: Copy> BvhNode<T> {
    /// Appends the objects of all leaves, from left to right, to `out`.
    fn gather(node: &BvhNode<T>, out: &mut Vec<T>)
        ensures
            final(out)@ == old(out)@ + node.view().objects(),
        decreases node,
    {
        match &node.content {
            BvhContent::Leaf(objects) => {
                let mut i: usize = 0;
                while i < objects.len()
                    invariant
                        i <= objects.len(),
                        out@ == old(out)@ + objects@.take(i as int),
                    decreases objects.len() - i,
                {
                    out.push(objects[i]);
                    proof {
                        assert(objects@.take(i + 1) =~= objects@.take(i as int).push(objects@[i as int]));
                        assert(out@ =~= old(out)@ + objects@.take(i + 1));
                    }
                    i += 1;
                }
                assert(objects@.take(i as int) =~= objects@);
            },
            BvhContent::Node(left, right) => {
                Self::gather(left, out);
                Self::gather(right, out);
                assert(out@ =~= old(out)@ + (left.view().objects() + right.view().objects()));
            },
        }
    }
}

impl<T: Copy> Bvh<T> {
    /// Builds the hierarchy over `objects`, which is not empty, with the box
    /// that `to_aabb` gives for each, and at most `max_object_per_node`
    /// objects in a leaf. The objects are left in the order of the leaves.
    pub fn new<F: Fn(&T) -> Aabb>(objects: &mut Vec<T>, to_aabb: F, max_object_per_node: usize) -> (bvh:
        Bvh<T>)
        requires
            old(objects).len() > 0,
            max_object_per_node >= 1,
            forall|i: int| 0 <= i < old(objects).len() ==> call_requires(to_aabb, (&old(objects)[i],)),
            forall|i: int, b: Aabb|
                0 <= i < old(objects).len() && #[trigger] call_ensures(
                    to_aabb,
                    (&old(objects)[i],),
                    b,
                ) ==> b.wf(),
        ensures
            exists|boxes: Seq<Aabb>| #[trigger]
                boxed_by(old(objects)@, to_aabb, boxes) && bvh@ == build_spec(
                    old(objects)@,
                    bounds_of(boxes),
                    max_object_per_node as nat,
                    0,
                ),
            final(objects)@ == bvh@.objects(),
            final(objects)@.to_multiset() == old(objects)@.to_multiset(),
            bvh@.wf(),
            bvh@.leaves_within(max_object_per_node as nat),
            old(objects).len() <= max_object_per_node ==> bvh@ is Leaf,
            old(objects).len() > max_object_per_node ==> bvh@ is Node,
    {
        let mut boxes: Vec<Aabb> = Vec::new();
        let mut owned: Vec<T> = Vec::new();
        let mut i: usize = 0;
        while i < objects.len()
            invariant
                i <= objects.len(),
                *objects == *old(objects),
                boxes.len() == i,
                owned@ == objects@.take(i as int),
                forall|k: int| 0 <= k < objects.len() ==> call_requires(to_aabb, (&objects[k],)),
                forall|k: int, b: Aabb|
                    0 <= k < objects.len() && #[trigger] call_ensures(to_aabb, (&objects[k],), b)
                        ==> b.wf(),
                forall|k: int| 0 <= k < i ==> call_ensures(to_aabb, (&objects@[k],), #[trigger] boxes@[k]),
            decreases objects.len() - i,
        {
            let b = to_aabb(&objects[i]);
            boxes.push(b);
            owned.push(objects[i]);
            proof {
                assert(owned@ =~= objects@.take(i + 1));
            }
            i += 1;
        }
        proof {
            assert(owned@ =~= objects@);
            assert(boxed_by(objects@, to_aabb, boxes@));
            assert forall|k: int| 0 <= k < boxes.len() implies (#[trigger] boxes[k]).wf() by {
                assert(call_ensures(to_aabb, (&objects@[k],), boxes@[k]));
            }
        }
        let root = BvhNode::build(owned, boxes, max_object_per_node, 0);
        proof {
            lemma_build_wf(objects@, bounds_of(boxes@), max_object_per_node as nat, 0);
            lemma_build_partitions(objects@, bounds_of(boxes@), max_object_per_node as nat, 0);
        }
        objects.clear();
        BvhNode::gather(&root, objects);
        assert(objects@ =~= root.view().objects());
        Bvh { root }
    }

    /// The hierarchy over no object at all: along no ray is anything found
    /// in it.
    pub fn empty() -> (bvh: Bvh<T>)
        ensures
            bvh@ == (Tree::Leaf {
                bounds: Bounds { low: Vec3 { x: 0, y: 0, z: 0 }@, high: Vec3 { x: 0, y: 0, z: 0 }@ },
                objects: Seq::<T>::empty(),
            }),
            bvh@.wf(),
    {
        Bvh { root: BvhNode { aabb: Aabb::empty(Vec3::zero()), content: BvhContent::Leaf(Vec::new()) } }
    }

    /// Whether the hierarchy is one leaf without an object.
    pub fn is_empty(&self) -> (b: bool)
        ensures
            b == (self@ matches Tree::Leaf { objects, .. } && objects.len() == 0),
    {
        match &self.root.content {
            BvhContent::Leaf(objects) => objects.len() == 0,
            _ => false,
        }
    }

    /// Whether the hierarchy is a single leaf.
    pub fn is_leaf(&self) -> (b: bool)
        ensures
            b == (self@ is Leaf),
    {
        match &self.root.content {
            BvhContent::Leaf(_) => true,
            _ => false,
        }
    }

    /// The objects of all leaves, from left to right.
    pub fn objects(&self) -> (all: Vec<T>)
        ensures
            all@ == self@.objects(),
    {
        let mut all: Vec<T> = Vec::new();
        BvhNode::gather(&self.root, &mut all);
        assert(all@ =~= self@.objects());
        all
    }

    /// How many objects the left subtree holds: none in a single leaf.
    pub fn left_count(&self) -> (n: usize)
        ensures
            n == match self@ {
                Tree::Leaf { .. } => 0,
                Tree::Node { left, .. } => left.objects().len(),
            },
    {
        match &self.root.content {
            BvhContent::Leaf(_) => 0,
            BvhContent::Node(left, _) => {
                let mut all: Vec<T> = Vec::new();
                BvhNode::gather(left, &mut all);
                assert(all@ =~= left.view().objects());
                all.len()
            },
        }
    }

    /// The box around everything in the hierarchy.
    pub fn aabb(&self) -> (b: Aabb)
        ensures
            b@ == self@.bounds(),
    {
        self.root.aabb
    }

    /// Searches the hierarchy along `ray`: `hit_func` is asked, for each leaf
    /// that the ray may pass, what the ray strikes among the leaf's objects.
    pub fn trace<F: Fn(Ray, &Vec<T>) -> Option<HitRecord>>(&self, ray: Ray, hit_func: F) -> (out: Option<
        HitRecord,
    >)
        requires
            self@.wf(),
            ray.wf(),
            forall|r: Ray, v: Vec<T>|
                r.wf() && r.same_line(ray) && self@.has_leaf(v@) ==> #[trigger] call_requires(
                    hit_func,
                    (r, &v),
                ),
            forall|r: Ray, v: Vec<T>, h: HitRecord|
                r.wf() && r.same_line(ray) && self@.has_leaf(v@) && #[trigger] call_ensures(
                    hit_func,
                    (r, &v),
                    Some(h),
                ) ==> h.dist.wf(),
        ensures
            self@.traced(ray, hit_func, out),
            out matches Some(h) ==> h.dist.wf(),
    {
        BvhNode::trace_node(&self.root, ray, &hit_func)
    }
}

/// A hierarchy built over well-formed boxes is well formed.
pub proof fn lemma_build_wf<T>(objs: Seq<T>, boxes: Seq<Bounds>, max: nat, axis: int)
    requires
        objs.len() == boxes.len(),
        objs.len() > 0,
        max >= 1,
        forall|i: int| 0 <= i < boxes.len() ==> (#[trigger] boxes[i]).wf(),
    ensures
        build_spec(objs, boxes, max, axis).wf(),
        build_spec(objs, boxes, max, axis).leaves_within(max),
        build_spec(objs, boxes, max, axis).objects().len() == objs.len(),
        objs.len() <= max ==> build_spec(objs, boxes, max, axis) is Leaf,
        objs.len() > max ==> build_spec(objs, boxes, max, axis) is Node,
{
    let paired = Seq::new(objs.len(), |i: int| (objs[i], boxes[i]));
    let second = |p: (T, Bounds)| p.1;
    let tree = build_spec(paired, boxes, max, axis);
    lemma_build_sound(paired, boxes, max, axis, second);
    lemma_build_shape(objs, paired, boxes, max, axis);
}

/// The shape of a hierarchy depends on the boxes alone, not on the objects.
proof fn lemma_build_shape<A, B>(a: Seq<A>, b: Seq<B>, boxes: Seq<Bounds>, max: nat, axis: int)
    requires
        a.len() == b.len(),
    ensures
        build_spec(a, boxes, max, axis).wf() == build_spec(b, boxes, max, axis).wf(),
        build_spec(a, boxes, max, axis).leaves_within(max) == build_spec(b, boxes, max, axis).leaves_within(
            max,
        ),
        build_spec(a, boxes, max, axis).objects().len() == build_spec(b, boxes, max, axis).objects().len(),
        build_spec(a, boxes, max, axis) is Leaf == build_spec(b, boxes, max, axis) is Leaf,
        build_spec(a, boxes, max, axis).bounds() == build_spec(b, boxes, max, axis).bounds(),
    decreases a.len(),
{
    if a.len() <= max || a.len() <= 1 {
    } else {
        let order = sorted_pairs(boxes, axis);
        let half = (a.len() / 2) as int;
        let sa = reordered(a, order);
        let sb = reordered(b, order);
        let sx = reordered(boxes, order);
        let next = (axis + 1) % 3;
        lemma_build_shape(sa.take(half), sb.take(half), sx.take(half), max, next);
        lemma_build_shape(sa.skip(half), sb.skip(half), sx.skip(half), max, next);
    }
}

/// Two lists that hold the same items, each as often, still do so after a
/// function has been applied to every item.
pub proof fn lemma_map_keeps_items<A, B>(a: Seq<A>, b: Seq<A>, f: spec_fn(A) -> B)
    requires
        a.to_multiset() == b.to_multiset(),
    ensures
        a.map_values(f).to_multiset() == b.map_values(f).to_multiset(),
    decreases a.len(),
{
    broadcast use vstd::multiset::group_multiset_axioms;

    vstd::seq_lib::to_multiset_len(a);
    vstd::seq_lib::to_multiset_len(b);
    if a.len() == 0 {
        assert(a.map_values(f) =~= b.map_values(f));
    } else {
        let x = a.last();
        let init = a.drop_last();
        a.to_multiset_ensures();
        b.to_multiset_ensures();
        assert(a.contains(x));
        assert(a.to_multiset().count(x) > 0);
        assert(b.to_multiset().count(x) > 0);
        assert(b.contains(x));
        let k = choose|k: int| 0 <= k < b.len() && b[k] == x;
        let rest = b.remove(k);
        assert(a =~= init.push(x));
        assert(b =~= rest.insert(k, x));
        vstd::seq_lib::to_multiset_build(init, x);
        vstd::seq_lib::to_multiset_insert(rest, k, x);
        assert(init.to_multiset() =~= rest.to_multiset()) by {
            assert forall|v: A| init.to_multiset().count(v) == rest.to_multiset().count(v) by {
                assert(init.to_multiset().insert(x).count(v) == rest.to_multiset().insert(x).count(
                    v,
                ));
            }
        }
        lemma_map_keeps_items(init, rest, f);
        assert(a.map_values(f) =~= init.map_values(f).push(f(x)));
        assert(b.map_values(f) =~= rest.map_values(f).insert(k, f(x)));
        vstd::seq_lib::to_multiset_build(init.map_values(f), f(x));
        vstd::seq_lib::to_multiset_insert(rest.map_values(f), k, f(x));
    }
}

/// Sorting the objects by their boxes loses none of them and adds none.
pub proof fn lemma_reordered_items<A>(s: Seq<A>, boxes: Seq<Bounds>, axis: int)
    requires
        s.len() == boxes.len(),
        s.len() <= usize::MAX,
    ensures
        reordered(s, sorted_pairs(boxes, axis)).to_multiset() == s.to_multiset(),
{
    let pairs = key_pairs(boxes, axis);
    let order = sorted_pairs(boxes, axis);
    lemma_pair_order_total();
    pairs.lemma_sort_by_ensures(pair_order());
    lemma_sorted_pairs(order, boxes, axis);
    let f = |p: (i64, usize)| s[p.1 as int];
    lemma_map_keeps_items(order, pairs, f);
    assert(order.map_values(f) =~= reordered(s, order));
    assert(pairs.map_values(f) =~= s);
}

/// The leaves of a hierarchy hold the objects it was built over, each as
/// often as it was given: none is left out and none stands in two leaves.
pub proof fn lemma_build_partitions<T>(objs: Seq<T>, boxes: Seq<Bounds>, max: nat, axis: int)
    requires
        objs.len() == boxes.len(),
        objs.len() <= usize::MAX,
    ensures
        build_spec(objs, boxes, max, axis).objects().to_multiset() == objs.to_multiset(),
    decreases objs.len(),
{
    if objs.len() <= max || objs.len() <= 1 {
    } else {
        let order = sorted_pairs(boxes, axis);
        let half = (objs.len() / 2) as int;
        let so = reordered(objs, order);
        let sb = reordered(boxes, order);
        let next = (axis + 1) % 3;
        lemma_reordered_items(objs, boxes, axis);
        lemma_build_partitions(so.take(half), sb.take(half), max, next);
        lemma_build_partitions(so.skip(half), sb.skip(half), max, next);
        let l = build_spec(so.take(half), sb.take(half), max, next).objects();
        let r = build_spec(so.skip(half), sb.skip(half), max, next).objects();
        vstd::seq_lib::lemma_multiset_commutative(l, r);
        vstd::seq_lib::lemma_multiset_commutative(so.take(half), so.skip(half));
        assert(so.take(half) + so.skip(half) =~= so);
    }
}

/// Every object of a leaf is one of the objects of the hierarchy.
pub proof fn lemma_leaf_objects<T>(tree: Tree<T>, objs: Seq<T>, i: int)
    requires
        tree.has_leaf(objs),
        0 <= i < objs.len(),
    ensures
        tree.objects().contains(objs[i]),
    decreases tree,
{
    match tree {
        Tree::Leaf { objects, .. } => {
            assert(objects[i] == objs[i]);
        },
        Tree::Node { left, right, .. } => {
            if left.has_leaf(objs) {
                lemma_leaf_objects(*left, objs, i);
                let k = choose|k: int| 0 <= k < left.objects().len() && left.objects()[k] == objs[i];
                assert(tree.objects()[k] == objs[i]);
            } else {
                lemma_leaf_objects(*right, objs, i);
                let k = choose|k: int|
                    0 <= k < right.objects().len() && right.objects()[k] == objs[i];
                assert(tree.objects()[left.objects().len() + k] == objs[i]);
            }
        },
    }
}

/// Over more objects than a leaf may hold, the hierarchy is a node whose
/// left subtree holds the lower half of the objects, rounded down, and
/// whose right subtree holds the others.
pub proof fn lemma_build_halves<T>(objs: Seq<T>, boxes: Seq<Bounds>, max: nat, axis: int)
    requires
        objs.len() == boxes.len(),
        max >= 1,
        objs.len() > max,
        forall|i: int| 0 <= i < boxes.len() ==> (#[trigger] boxes[i]).wf(),
    ensures
        build_spec(objs, boxes, max, axis) matches Tree::Node { left, right, .. } && left.objects().len()
            == objs.len() / 2 && right.objects().len() == objs.len() - objs.len() / 2,
{
    let order = sorted_pairs(boxes, axis);
    let pairs = key_pairs(boxes, axis);
    lemma_pair_order_total();
    pairs.lemma_sort_by_ensures(pair_order());
    lemma_sorted_pairs(order, boxes, axis);
    let half = (objs.len() / 2) as int;
    let so = reordered(objs, order);
    let sb = reordered(boxes, order);
    let next = (axis + 1) % 3;
    assert forall|j: int| 0 <= j < half implies (#[trigger] sb.take(half)[j]).wf() by {
        assert(boxes[order[j].1 as int].wf());
    }
    assert forall|j: int| 0 <= j < sb.len() - half implies (#[trigger] sb.skip(half)[j]).wf() by {
        assert(boxes[order[j + half].1 as int].wf());
    }
    lemma_build_wf(so.take(half), sb.take(half), max, next);
    lemma_build_wf(so.skip(half), sb.skip(half), max, next);
}

/// A hierarchy is balanced: over objects that are at most `max` times the
/// `d`-th power of two, it is at most `d` deep.
pub proof fn lemma_build_depth<T>(objs: Seq<T>, boxes: Seq<Bounds>, max: nat, axis: int, d: nat)
    requires
        max >= 1,
        objs.len() <= max * pow2(d),
    ensures
        build_spec(objs, boxes, max, axis).depth() <= d,
    decreases d,
{
    if objs.len() <= max || objs.len() <= 1 {
    } else {
        let order = sorted_pairs(boxes, axis);
        let half = (objs.len() / 2) as int;
        let so = reordered(objs, order);
        let sb = reordered(boxes, order);
        let next = (axis + 1) % 3;
        if d == 0 {
            vstd::arithmetic::power2::lemma2_to64();
            assert(max * pow2(0) == max) by (nonlinear_arith)
                requires
                    pow2(0) == 1,
            ;
        } else {
            let below = (d - 1) as nat;
            vstd::arithmetic::power2::lemma_pow2_unfold(d);
            assert(max * pow2(d) == 2 * (max * pow2(below))) by (nonlinear_arith)
                requires
                    pow2(d) == 2 * pow2(below),
            ;
            lemma_build_depth(so.take(half), sb.take(half), max, next, below);
            lemma_build_depth(so.skip(half), sb.skip(half), max, next, below);
        }
    }
}

} // verus!
