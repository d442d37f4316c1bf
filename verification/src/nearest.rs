use vstd::prelude::*;
use crate::aabb::{Bounds, lemma_meets_surrounding};
use crate::bvh::{Tree, joined, later, shrunk};
use crate::dist::{Dist, Ratio, lemma_le_trans};
use crate::hit::HitRecord;
use crate::ray::Ray;

verus! {

/// What a ray strikes among `objs`, tested one after the other by `one`:
/// after each find the ray is cut off at its distance, so that a later find
/// is never farther, and the last find counts.
pub open spec fn scan<T>(one: spec_fn(Ray, T) -> Option<HitRecord>, ray: Ray, objs: Seq<T>) -> Option<
    HitRecord,
>
    decreases objs.len(),
{
    if objs.len() == 0 {
        None
    } else {
        let before = scan(one, ray, objs.drop_last());
        later(before, one(shrunk(ray, before), objs.last()))
    }
}

/// What a ray strikes in a hierarchy whose objects are tested by `one`. A
/// subtree whose bounds the ray misses is passed over. Of a node the
/// subtree nearer to the ray's origin is searched first, then the other,
/// with the ray cut off at the distance of what the first gave; the later
/// find counts.
pub open spec fn search<T>(tree: Tree<T>, one: spec_fn(Ray, T) -> Option<HitRecord>, ray: Ray) -> Option<
    HitRecord,
>
    decreases tree,
{
    if !tree.bounds().meets(ray) {
        None
    } else {
        match tree {
            Tree::Leaf { objects, .. } => scan(one, ray, objects),
            Tree::Node { left, right, .. } => {
                if tree.left_first(ray) {
                    let h1 = search(*left, one, ray);
                    later(h1, search(*right, one, shrunk(ray, h1)))
                } else {
                    let h1 = search(*right, one, ray);
                    later(h1, search(*left, one, shrunk(ray, h1)))
                }
            },
        }
    }
}

/// `out` is what a search for the nearest of `objs` along `ray` has to give:
/// nothing if the ray strikes none of them; else a find within the ray's
/// bound, at the distance at which the ray strikes one of them, and no
/// farther than it strikes any.
pub open spec fn nearest<T>(
    one: spec_fn(Ray, T) -> Option<HitRecord>,
    ray: Ray,
    objs: Seq<T>,
    out: Option<HitRecord>,
) -> bool {
    match out {
        None => forall|i: int| 0 <= i < objs.len() ==> (#[trigger] one(ray, objs[i])) is None,
        Some(h) => {
            &&& h.dist.wf()
            &&& ray.reaches(h.dist.num as int, h.dist.den as int)
            &&& exists|i: int|
                0 <= i < objs.len() && (#[trigger] one(ray, objs[i]) matches Some(g)
                    && g.dist@.same(h.dist@))
            &&& forall|i: int|
                0 <= i < objs.len() ==> (#[trigger] one(ray, objs[i]) matches Some(g)
                    ==> h.dist@.le(g.dist@))
        },
    }
}

/// The ray, cut off at `d`.
pub open spec fn cut(ray: Ray, d: Dist) -> Ray {
    Ray { orig: ray.orig, dir: ray.dir, max: Some(d) }
}

/// What `one` finds on the object `o` along `r` lies at a distance within
/// the ray's bound, where the ray passes through the object's box.
pub open spec fn sound_at<T>(
    one: spec_fn(Ray, T) -> Option<HitRecord>,
    box_of: spec_fn(T) -> Bounds,
    o: T,
    r: Ray,
) -> bool {
    one(r, o) matches Some(h) ==> {
        &&& h.dist.wf()
        &&& r.reaches(h.dist.num as int, h.dist.den as int)
        &&& box_of(o).meets(r)
    }
}

/// Cutting the ray `r` off at `d` takes from `one` the finds beyond `d` and
/// leaves the distance of the others as it was.
pub open spec fn steady_at<T>(one: spec_fn(Ray, T) -> Option<HitRecord>, o: T, r: Ray, d: Dist) -> bool {
    &&& one(cut(r, d), o) is Some <==> (one(r, o) matches Some(h) && h.dist@.le(d@))
    &&& one(cut(r, d), o) matches Some(h2) ==> (one(r, o) matches Some(h) && h2.dist@.same(h.dist@))
}

/// `one` is a sound and steady test of every object of `objs` along the
/// line of `line`, whatever the ray's bound.
pub open spec fn fair<T>(
    one: spec_fn(Ray, T) -> Option<HitRecord>,
    box_of: spec_fn(T) -> Bounds,
    objs: Seq<T>,
    line: Ray,
) -> bool {
    &&& forall|i: int, r: Ray|
        0 <= i < objs.len() && r.same_line(line) && r.wf() ==> #[trigger] sound_at(
            one,
            box_of,
            objs[i],
            r,
        )
    &&& forall|i: int, r: Ray, d: Dist|
        0 <= i < objs.len() && r.same_line(line) && r.wf() && d.wf() && r.reaches(
            d.num as int,
            d.den as int,
        ) ==> #[trigger] steady_at(one, objs[i], r, d)
}

/// Two ratios that are the same number as a third are the same number.
proof fn lemma_same_trans(a: Ratio, b: Ratio, c: Ratio)
    requires
        a.den > 0,
        b.den > 0,
        c.den > 0,
        a.same(b),
        b.same(c),
    ensures
        a.same(c),
{
    lemma_le_trans(a, b, c);
    lemma_le_trans(c, b, a);
}

/// A distance that does not exceed another within the ray's bound is within
/// it too.
proof fn lemma_reaches_below(ray: Ray, d: Dist, e: Dist)
    requires
        ray.wf(),
        d.wf(),
        e.wf(),
        d@.le(e@),
        ray.reaches(e.num as int, e.den as int),
    ensures
        ray.reaches(d.num as int, d.den as int),
{
    match ray.max {
        Some(m) => {
            lemma_le_trans(d@, e@, m@);
        },
        None => {},
    }
}

/// What the second of two searches adds to the first: for one object of the
/// second search, the find that counts in the end is no farther than the
/// ray strikes that object.
proof fn lemma_second_object<T>(
    one: spec_fn(Ray, T) -> Option<HitRecord>,
    box_of: spec_fn(T) -> Bounds,
    ray: Ray,
    b: Seq<T>,
    x: HitRecord,
    h2: Option<HitRecord>,
    j: int,
)
    requires
        ray.wf(),
        fair(one, box_of, b, ray),
        x.dist.wf(),
        ray.reaches(x.dist.num as int, x.dist.den as int),
        nearest(one, cut(ray, x.dist), b, h2),
        0 <= j < b.len(),
    ensures
        one(ray, b[j]) matches Some(g) ==> later(Some(x), h2).unwrap().dist@.le(g.dist@),
{
    let d = x.dist;
    let r2 = cut(ray, d);
    assert(steady_at(one, b[j], ray, d));
    assert(sound_at(one, box_of, b[j], ray));
    assert(sound_at(one, box_of, b[j], r2));
    if let Some(g) = one(ray, b[j]) {
        match h2 {
            None => {
                assert(one(r2, b[j]) is None);
            },
            Some(h) => {
                if g.dist@.le(d@) {
                    let g2 = one(r2, b[j]).unwrap();
                    assert(h.dist@.le(g2.dist@));
                    lemma_le_trans(h.dist@, g2.dist@, g.dist@);
                } else {
                    lemma_le_trans(h.dist@, d@, g.dist@);
                }
            },
        }
    }
}

/// Two searches, one after the other, the second with the ray cut off at
/// what the first gave, find the nearest of all the objects of both.
pub proof fn lemma_nearest_then<T>(
    one: spec_fn(Ray, T) -> Option<HitRecord>,
    box_of: spec_fn(T) -> Bounds,
    ray: Ray,
    a: Seq<T>,
    b: Seq<T>,
    h1: Option<HitRecord>,
    h2: Option<HitRecord>,
)
    requires
        ray.wf(),
        fair(one, box_of, a, ray),
        fair(one, box_of, b, ray),
        nearest(one, ray, a, h1),
        nearest(one, shrunk(ray, h1), b, h2),
    ensures
        nearest(one, ray, a + b, later(h1, h2)),
        nearest(one, ray, b + a, later(h1, h2)),
{
    let out = later(h1, h2);
    let ab = a + b;
    let ba = b + a;
    let na = a.len() as int;
    let nb = b.len() as int;
    assert forall|i: int| 0 <= i < na implies ab[i] == a[i] && ba[nb + i] == a[i] by {}
    assert forall|j: int| 0 <= j < nb implies ab[na + j] == b[j] && ba[j] == b[j] by {}
    // The distance of `out`, where there is one, is that at which the ray
    // strikes an object of `a` or of `b`: which, and at what place.
    let (from_a, at): (bool, int) = match h1 {
        None => {
            assert(shrunk(ray, h1) == ray);
            match h2 {
                None => (true, 0),
                Some(h) => {
                    let j = choose|j: int|
                        0 <= j < b.len() && (#[trigger] one(ray, b[j]) matches Some(g)
                            && g.dist@.same(h.dist@));
                    (false, j)
                },
            }
        },
        Some(x) => {
            let d = x.dist;
            let r2 = cut(ray, d);
            assert(shrunk(ray, h1) == r2);
            match h2 {
                None => {
                    let i = choose|i: int|
                        0 <= i < a.len() && (#[trigger] one(ray, a[i]) matches Some(g)
                            && g.dist@.same(x.dist@));
                    (true, i)
                },
                Some(h) => {
                    let j = choose|j: int|
                        0 <= j < b.len() && (#[trigger] one(r2, b[j]) matches Some(g)
                            && g.dist@.same(h.dist@));
                    assert(steady_at(one, b[j], ray, d));
                    assert(sound_at(one, box_of, b[j], ray));
                    assert(sound_at(one, box_of, b[j], r2));
                    let g2 = one(r2, b[j]).unwrap();
                    let g = one(ray, b[j]).unwrap();
                    lemma_same_trans(g.dist@, g2.dist@, h.dist@);
                    lemma_reaches_below(ray, h.dist, d);
                    (false, j)
                },
            }
        },
    };
    if let Some(h) = out {
        if from_a {
            assert(one(ray, ab[at]) matches Some(g) && g.dist@.same(h.dist@));
            assert(one(ray, ba[nb + at]) matches Some(g) && g.dist@.same(h.dist@));
        } else {
            assert(one(ray, ab[na + at]) matches Some(g) && g.dist@.same(h.dist@));
            assert(one(ray, ba[at]) matches Some(g) && g.dist@.same(h.dist@));
        }
        assert forall|i: int| 0 <= i < na implies (#[trigger] one(ray, a[i]) matches Some(g)
            ==> h.dist@.le(g.dist@)) by {
            assert(sound_at(one, box_of, a[i], ray));
            if let Some(g) = one(ray, a[i]) {
                match h1 {
                    None => {},
                    Some(x) => {
                        if h2 is Some {
                            lemma_le_trans(h.dist@, x.dist@, g.dist@);
                        }
                    },
                }
            }
        }
        assert forall|j: int| 0 <= j < nb implies (#[trigger] one(ray, b[j]) matches Some(g)
            ==> h.dist@.le(g.dist@)) by {
            match h1 {
                None => {},
                Some(x) => {
                    lemma_second_object(one, box_of, ray, b, x, h2, j);
                },
            }
        }
        assert forall|i: int| 0 <= i < ab.len() implies (#[trigger] one(ray, ab[i]) matches Some(g)
            ==> h.dist@.le(g.dist@)) by {
            if i < na {
                assert(ab[i] == a[i]);
                assert(one(ray, a[i]) matches Some(g) ==> h.dist@.le(g.dist@));
            } else {
                assert(ab[i] == b[i - na]);
                assert(one(ray, b[i - na]) matches Some(g) ==> h.dist@.le(g.dist@));
            }
        }
        assert forall|i: int| 0 <= i < ba.len() implies (#[trigger] one(ray, ba[i]) matches Some(g)
            ==> h.dist@.le(g.dist@)) by {
            if i < nb {
                assert(ba[i] == b[i]);
                assert(one(ray, b[i]) matches Some(g) ==> h.dist@.le(g.dist@));
            } else {
                assert(ba[i] == a[i - nb]);
                assert(one(ray, a[i - nb]) matches Some(g) ==> h.dist@.le(g.dist@));
            }
        }
    } else {
        assert forall|i: int| 0 <= i < ab.len() implies (#[trigger] one(ray, ab[i])) is None by {
            if i < na {
                assert(ab[i] == a[i]);
                assert(one(ray, a[i]) is None);
            } else {
                assert(ab[i] == b[i - na]);
                assert(one(ray, b[i - na]) is None);
            }
        }
        assert forall|i: int| 0 <= i < ba.len() implies (#[trigger] one(ray, ba[i])) is None by {
            if i < nb {
                assert(ba[i] == b[i]);
                assert(one(ray, b[i]) is None);
            } else {
                assert(ba[i] == a[i - nb]);
                assert(one(ray, a[i - nb]) is None);
            }
        }
    }
}

/// A test that is fair to some objects is fair to them along every ray of
/// the same line.
proof fn lemma_fair_along<T>(
    one: spec_fn(Ray, T) -> Option<HitRecord>,
    box_of: spec_fn(T) -> Bounds,
    objs: Seq<T>,
    line: Ray,
    other: Ray,
)
    requires
        fair(one, box_of, objs, line),
        other.same_line(line),
    ensures
        fair(one, box_of, objs, other),
{
    assert forall|i: int, r: Ray|
        0 <= i < objs.len() && r.same_line(other) && r.wf() implies #[trigger] sound_at(
        one,
        box_of,
        objs[i],
        r,
    ) by {
        assert(r.same_line(line));
    }
    assert forall|i: int, r: Ray, d: Dist|
        0 <= i < objs.len() && r.same_line(other) && r.wf() && d.wf() && r.reaches(
            d.num as int,
            d.den as int,
        ) implies #[trigger] steady_at(one, objs[i], r, d) by {
        assert(r.same_line(line));
    }
}

/// A test that is fair to some objects is fair to those among them that
/// stand from `from` up to `to`.
proof fn lemma_fair_part<T>(
    one: spec_fn(Ray, T) -> Option<HitRecord>,
    box_of: spec_fn(T) -> Bounds,
    objs: Seq<T>,
    line: Ray,
    from: int,
    to: int,
)
    requires
        fair(one, box_of, objs, line),
        0 <= from <= to <= objs.len(),
    ensures
        fair(one, box_of, objs.subrange(from, to), line),
{
    let part = objs.subrange(from, to);
    assert forall|i: int, r: Ray|
        0 <= i < part.len() && r.same_line(line) && r.wf() implies #[trigger] sound_at(
        one,
        box_of,
        part[i],
        r,
    ) by {
        assert(part[i] == objs[from + i]);
        assert(sound_at(one, box_of, objs[from + i], r));
    }
    assert forall|i: int, r: Ray, d: Dist|
        0 <= i < part.len() && r.same_line(line) && r.wf() && d.wf() && r.reaches(
            d.num as int,
            d.den as int,
        ) implies #[trigger] steady_at(one, part[i], r, d) by {
        assert(part[i] == objs[from + i]);
        assert(steady_at(one, objs[from + i], r, d));
    }
}

/// Testing objects one after the other, with the ray cut off at each find,
/// finds the nearest of them.
pub proof fn lemma_scan_nearest<T>(
    one: spec_fn(Ray, T) -> Option<HitRecord>,
    box_of: spec_fn(T) -> Bounds,
    ray: Ray,
    objs: Seq<T>,
)
    requires
        ray.wf(),
        fair(one, box_of, objs, ray),
    ensures
        nearest(one, ray, objs, scan(one, ray, objs)),
    decreases objs.len(),
{
    if objs.len() > 0 {
        let n = objs.len() as int;
        let init = objs.drop_last();
        let last = objs.last();
        let tail = objs.subrange(n - 1, n);
        assert(init =~= objs.subrange(0, n - 1));
        lemma_fair_part(one, box_of, objs, ray, 0, n - 1);
        lemma_fair_part(one, box_of, objs, ray, n - 1, n);
        lemma_scan_nearest(one, box_of, ray, init);
        let before = scan(one, ray, init);
        let r2 = shrunk(ray, before);
        let h2 = one(r2, last);
        assert(tail[0] == last);
        assert(sound_at(one, box_of, tail[0], r2));
        match h2 {
            Some(h) => {
                assert(one(r2, tail[0]) matches Some(g) && g.dist@.same(h.dist@));
            },
            None => {},
        }
        assert(nearest(one, r2, tail, h2));
        lemma_nearest_then(one, box_of, ray, init, tail, before, h2);
        assert(init + tail =~= objs);
    }
}

/// In a hierarchy whose bounds surround what is below them, the bounds at
/// the root surround the box of every object.
pub proof fn lemma_covered<T>(tree: Tree<T>, box_of: spec_fn(T) -> Bounds, i: int)
    requires
        tree.covers(box_of),
        0 <= i < tree.objects().len(),
    ensures
        tree.bounds().surrounds(box_of(tree.objects()[i])),
    decreases tree,
{
    match tree {
        Tree::Leaf { .. } => {},
        Tree::Node { left, right, .. } => {
            let nl = left.objects().len();
            if i < nl {
                lemma_covered(*left, box_of, i);
            } else {
                lemma_covered(*right, box_of, i - nl);
            }
        },
    }
}

/// The search of a hierarchy finds the nearest of its objects: what it
/// passes over, the ray does not strike.
pub proof fn lemma_search_nearest<T>(
    tree: Tree<T>,
    one: spec_fn(Ray, T) -> Option<HitRecord>,
    box_of: spec_fn(T) -> Bounds,
    ray: Ray,
)
    requires
        ray.wf(),
        tree.covers(box_of),
        fair(one, box_of, tree.objects(), ray),
    ensures
        nearest(one, ray, tree.objects(), search(tree, one, ray)),
    decreases tree,
{
    let objs = tree.objects();
    if !tree.bounds().meets(ray) {
        assert forall|i: int| 0 <= i < objs.len() implies (#[trigger] one(ray, objs[i])) is None by {
            assert(sound_at(one, box_of, objs[i], ray));
            if one(ray, objs[i]) is Some {
                lemma_covered(tree, box_of, i);
                lemma_meets_surrounding(box_of(objs[i]), tree.bounds(), ray);
            }
        }
    } else {
        match tree {
            Tree::Leaf { objects, .. } => {
                lemma_scan_nearest(one, box_of, ray, objects);
            },
            Tree::Node { left, right, .. } => {
                let lo = left.objects();
                let ro = right.objects();
                let n = objs.len() as int;
                let nl = lo.len() as int;
                assert(lo =~= objs.subrange(0, nl));
                assert(ro =~= objs.subrange(nl, n));
                lemma_fair_part(one, box_of, objs, ray, 0, nl);
                lemma_fair_part(one, box_of, objs, ray, nl, n);
                if tree.left_first(ray) {
                    lemma_search_nearest(*left, one, box_of, ray);
                    let h1 = search(*left, one, ray);
                    let r2 = shrunk(ray, h1);
                    lemma_fair_along(one, box_of, ro, ray, r2);
                    lemma_search_nearest(*right, one, box_of, r2);
                    lemma_nearest_then(one, box_of, ray, lo, ro, h1, search(*right, one, r2));
                } else {
                    lemma_search_nearest(*right, one, box_of, ray);
                    let h1 = search(*right, one, ray);
                    let r2 = shrunk(ray, h1);
                    lemma_fair_along(one, box_of, lo, ray, r2);
                    lemma_search_nearest(*left, one, box_of, r2);
                    lemma_nearest_then(one, box_of, ray, ro, lo, h1, search(*left, one, r2));
                }
            },
        }
    }
}

/// Where the leaf test does what `scan` says, the search of a hierarchy
/// gives what `search` says.
pub proof fn lemma_traced_search<T, F: Fn(Ray, &Vec<T>) -> Option<HitRecord>>(
    tree: Tree<T>,
    ray: Ray,
    f: F,
    one: spec_fn(Ray, T) -> Option<HitRecord>,
    out: Option<HitRecord>,
)
    requires
        tree.traced(ray, f, out),
        forall|r: Ray, v: Vec<T>, o: Option<HitRecord>| #[trigger]
            call_ensures(f, (r, &v), o) ==> o == scan(one, r, v@),
    ensures
        out == search(tree, one, ray),
    decreases tree,
{
    if tree.bounds().meets(ray) {
        match tree {
            Tree::Leaf { objects, .. } => {},
            Tree::Node { left, right, .. } => {
                if tree.left_first(ray) {
                    let (h1, h2) = choose|h1: Option<HitRecord>, h2: Option<HitRecord>|
                        #![trigger joined(h1, h2, out)]
                        left.traced(ray, f, h1) && right.traced(shrunk(ray, h1), f, h2) && joined(
                            h1,
                            h2,
                            out,
                        );
                    lemma_traced_search(*left, ray, f, one, h1);
                    lemma_traced_search(*right, shrunk(ray, h1), f, one, h2);
                } else {
                    let (h1, h2) = choose|h1: Option<HitRecord>, h2: Option<HitRecord>|
                        #![trigger joined(h1, h2, out)]
                        right.traced(ray, f, h1) && left.traced(shrunk(ray, h1), f, h2) && joined(
                            h1,
                            h2,
                            out,
                        );
                    lemma_traced_search(*right, ray, f, one, h1);
                    lemma_traced_search(*left, shrunk(ray, h1), f, one, h2);
                }
            },
        }
    }
}

/// A search for the nearest of some objects is itself steady: cutting the
/// ray off takes away its find if that lies beyond, and else leaves the
/// distance of the find as it was.
pub proof fn lemma_nearest_steady<T>(
    one: spec_fn(Ray, T) -> Option<HitRecord>,
    box_of: spec_fn(T) -> Bounds,
    objs: Seq<T>,
    r: Ray,
    d: Dist,
    whole: Option<HitRecord>,
    part: Option<HitRecord>,
)
    requires
        r.wf(),
        d.wf(),
        r.reaches(d.num as int, d.den as int),
        fair(one, box_of, objs, r),
        nearest(one, r, objs, whole),
        nearest(one, cut(r, d), objs, part),
    ensures
        part is Some <==> (whole matches Some(h) && h.dist@.le(d@)),
        part matches Some(h2) ==> (whole matches Some(h) && h2.dist@.same(h.dist@)),
{
    let r2 = cut(r, d);
    if let Some(h2) = part {
        let j = choose|j: int|
            0 <= j < objs.len() && (#[trigger] one(r2, objs[j]) matches Some(g) && g.dist@.same(
                h2.dist@,
            ));
        assert(steady_at(one, objs[j], r, d));
        assert(sound_at(one, box_of, objs[j], r));
        assert(sound_at(one, box_of, objs[j], r2));
        let g2 = one(r2, objs[j]).unwrap();
        let g = one(r, objs[j]).unwrap();
        assert(whole is Some);
        let h = whole.unwrap();
        // h <= g = g2 = h2
        lemma_same_trans(g.dist@, g2.dist@, h2.dist@);
        lemma_le_trans(h.dist@, g.dist@, h2.dist@);
        lemma_le_trans(h.dist@, g.dist@, d@);
        // h2 <= h, by the object at which `whole` lies
        let k = choose|k: int|
            0 <= k < objs.len() && (#[trigger] one(r, objs[k]) matches Some(g) && g.dist@.same(
                h.dist@,
            ));
        assert(steady_at(one, objs[k], r, d));
        assert(sound_at(one, box_of, objs[k], r));
        assert(sound_at(one, box_of, objs[k], r2));
        let gk = one(r, objs[k]).unwrap();
        lemma_le_trans(gk.dist@, h.dist@, d@);
        let gk2 = one(r2, objs[k]).unwrap();
        lemma_same_trans(gk2.dist@, gk.dist@, h.dist@);
        lemma_le_trans(h2.dist@, gk2.dist@, h.dist@);
    }
    if let Some(h) = whole {
        if h.dist@.le(d@) {
            let k = choose|k: int|
                0 <= k < objs.len() && (#[trigger] one(r, objs[k]) matches Some(g) && g.dist@.same(
                    h.dist@,
                ));
            assert(steady_at(one, objs[k], r, d));
            assert(sound_at(one, box_of, objs[k], r));
            let gk = one(r, objs[k]).unwrap();
            lemma_le_trans(gk.dist@, h.dist@, d@);
            assert(one(r2, objs[k]) is Some);
        }
    }
}

/// `h` is what `one` finds on some object of `objs` along some ray of the
/// line of `ray`.
pub open spec fn found_among<T>(
    one: spec_fn(Ray, T) -> Option<HitRecord>,
    ray: Ray,
    objs: Seq<T>,
    h: HitRecord,
) -> bool {
    exists|k: int, r: Ray|
        0 <= k < objs.len() && r.same_line(ray) && #[trigger] one(r, objs[k]) == Some(h)
}

/// What testing objects one after the other gives is what the test found on
/// one of them.
pub proof fn lemma_scan_source<T>(one: spec_fn(Ray, T) -> Option<HitRecord>, ray: Ray, objs: Seq<T>)
    ensures
        scan(one, ray, objs) matches Some(h) ==> found_among(one, ray, objs, h),
    decreases objs.len(),
{
    if objs.len() > 0 {
        let init = objs.drop_last();
        let before = scan(one, ray, init);
        let r2 = shrunk(ray, before);
        lemma_scan_source(one, ray, init);
        match one(r2, objs.last()) {
            Some(h) => {
                assert(one(r2, objs[objs.len() - 1]) == Some(h));
            },
            None => {
                if let Some(h) = before {
                    let (k, r) = choose|k: int, r: Ray|
                        0 <= k < init.len() && r.same_line(ray) && #[trigger] one(r, init[k])
                            == Some(h);
                    assert(one(r, objs[k]) == Some(h));
                }
            },
        }
    }
}

/// What the search of a hierarchy gives is what the test found on one of
/// its objects.
pub proof fn lemma_search_source<T>(tree: Tree<T>, one: spec_fn(Ray, T) -> Option<HitRecord>, ray: Ray)
    ensures
        search(tree, one, ray) matches Some(h) ==> found_among(one, ray, tree.objects(), h),
    decreases tree,
{
    if tree.bounds().meets(ray) {
        match tree {
            Tree::Leaf { objects, .. } => {
                lemma_scan_source(one, ray, objects);
            },
            Tree::Node { left, right, .. } => {
                let (first, second) = if tree.left_first(ray) {
                    (*left, *right)
                } else {
                    (*right, *left)
                };
                let h1 = search(first, one, ray);
                let r2 = shrunk(ray, h1);
                let h2 = search(second, one, r2);
                lemma_search_source(first, one, ray);
                lemma_search_source(second, one, r2);
                let objs = tree.objects();
                let nl = left.objects().len() as int;
                let first_at: int = if tree.left_first(ray) {
                    0
                } else {
                    nl
                };
                let second_at: int = if tree.left_first(ray) {
                    nl
                } else {
                    0
                };
                match h2 {
                    Some(h) => {
                        let (k, r) = choose|k: int, r: Ray|
                            0 <= k < second.objects().len() && r.same_line(r2) && #[trigger] one(
                                r,
                                second.objects()[k],
                            ) == Some(h);
                        assert(objs[second_at + k] == second.objects()[k]);
                        assert(one(r, objs[second_at + k]) == Some(h));
                    },
                    None => {
                        if let Some(h) = h1 {
                            let (k, r) = choose|k: int, r: Ray|
                                0 <= k < first.objects().len() && r.same_line(ray) && #[trigger] one(
                                    r,
                                    first.objects()[k],
                                ) == Some(h);
                            assert(objs[first_at + k] == first.objects()[k]);
                            assert(one(r, objs[first_at + k]) == Some(h));
                        }
                    },
                }
            },
        }
    }
}

} // verus!
