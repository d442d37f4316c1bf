use vstd::prelude::*;
use crate::dist::{Dist, Ratio, lemma_le_lt_trans, lemma_le_trans, lemma_lt_le_trans, lemma_scale_le};
use crate::hit::Hittable;
use crate::ray::{Ray, reach_of};
use crate::vec::{Vec3, Vector, COORD_MAX};

verus! {

/// An axis-aligned box, given by its lowest and its highest corner.
#[derive(Debug, Clone, Copy)]
pub struct Aabb {
    min: Vec3,
    max: Vec3,
}

/// The two corners of a box in mathematical integers: what an `Aabb` stands
/// for in contracts.
pub struct Bounds {
    pub low: Vector,
    pub high: Vector,
}

impl Bounds {
    /// The smallest bounds around both.
    pub open spec fn join(self, o: Bounds) -> Bounds {
        Bounds { low: self.low.lower(o.low), high: self.high.upper(o.high) }
    }

    /// The point of `ray` at the parameter `n / m`, which is not negative and
    /// not beyond the ray's bound, lies within the bounds.
    pub open spec fn met_at(self, ray: Ray, n: int, m: int) -> bool {
        &&& m > 0
        &&& n >= 0
        &&& ray.reaches(n, m)
        &&& in_slab(self.low.x, self.high.x, ray.orig@.x, ray.dir@.x, n, m)
        &&& in_slab(self.low.y, self.high.y, ray.orig@.y, ray.dir@.y, n, m)
        &&& in_slab(self.low.z, self.high.z, ray.orig@.z, ray.dir@.z, n, m)
    }

    /// Some point of `ray`, within its bound, lies within the bounds.
    pub open spec fn meets(self, ray: Ray) -> bool {
        exists|n: int, m: int| #[trigger] self.met_at(ray, n, m)
    }

    /// `p` lies within the bounds.
    pub open spec fn encloses(self, p: Vector) -> bool {
        self.low.not_above(p) && p.not_above(self.high)
    }

    /// Twice the vector from `o` to the midpoint, squared: by it the
    /// distances of two boxes from a point are compared.
    pub open spec fn gap(self, o: Vector) -> int {
        let c = self.low.plus(self.high).minus(o.scaled(2));
        c.dot(c)
    }

    /// `o` lies inside these bounds, boundary included.
    pub open spec fn surrounds(self, o: Bounds) -> bool {
        self.low.not_above(o.low) && o.high.not_above(self.high)
    }

    /// The lowest corner does not exceed the highest, and both are in range.
    pub open spec fn wf(self) -> bool {
        &&& self.low.not_above(self.high)
        &&& self.low.within(COORD_MAX as int)
        &&& self.high.within(COORD_MAX as int)
    }
}

impl View for Aabb {
    type V = Bounds;

    open spec fn view(&self) -> Bounds {
        Bounds { low: self.low(), high: self.high() }
    }
}

/// Something that knows a box around itself.
pub trait WithAabb {
    /// The bounds of the box that `aabb` returns.
    spec fn aabb_bounds(&self) -> Bounds;

    fn aabb(&self) -> (b: Aabb)
        ensures
            b@ == self.aabb_bounds(),
    ;
}

/// The lowest corner of the smallest box around the points of `pts`, which
/// is not empty.
pub open spec fn hull_low(pts: Seq<Vec3>) -> Vector
    decreases pts.len(),
{
    if pts.len() <= 1 {
        pts[0]@
    } else {
        hull_low(pts.drop_last()).lower(pts.last()@)
    }
}

/// The highest corner of the smallest box around the points of `pts`, which
/// is not empty.
pub open spec fn hull_high(pts: Seq<Vec3>) -> Vector
    decreases pts.len(),
{
    if pts.len() <= 1 {
        pts[0]@
    } else {
        hull_high(pts.drop_last()).upper(pts.last()@)
    }
}

impl Aabb {
    /// The lowest corner.
    pub closed spec fn low(self) -> Vector {
        self.min@
    }

    /// The highest corner.
    pub closed spec fn high(self) -> Vector {
        self.max@
    }

    /// The lowest corner does not exceed the highest, and both are in range.
    pub open spec fn wf(self) -> bool {
        self@.wf()
    }

    /// `p` lies strictly inside the box.
    pub open spec fn holds(self, p: Vector) -> bool {
        self.low().below(p) && p.below(self.high())
    }

    /// `p` lies inside the box or on its boundary.
    pub open spec fn encloses(self, p: Vector) -> bool {
        self@.encloses(p)
    }

    /// `p` has, on some axis, the coordinate of one of the two faces of the
    /// box across that axis.
    pub open spec fn on_face(self, p: Vector) -> bool {
        ||| p.x == self.low().x
        ||| p.x == self.high().x
        ||| p.y == self.low().y
        ||| p.y == self.high().y
        ||| p.z == self.low().z
        ||| p.z == self.high().z
    }

    /// `o` lies inside this box, boundary included.
    pub open spec fn surrounds(self, o: Aabb) -> bool {
        self@.surrounds(o@)
    }

    /// Some point of `ray`, within its bound, lies in the box or on its
    /// boundary.
    pub open spec fn meets(self, ray: Ray) -> bool {
        self@.meets(ray)
    }

    /// The box that `merged` makes of the two boxes `a` and `b`.
    pub open spec fn joins(self, a: Aabb, b: Aabb) -> bool {
        self@ == a@.join(b@)
    }

    /// Two boxes with the same corners are the same box.
    pub proof fn lemma_corners(self, o: Aabb)
        requires
            self.low() == o.low(),
            self.high() == o.high(),
        ensures
            self == o,
    {
    }

    /// The box that holds the one point `center`.
    pub fn empty(center: Vec3) -> (b: Aabb)
        ensures
            b.low() == center@,
            b.high() == center@,
    {
        Aabb { min: center, max: center }
    }

    /// The smallest box around both boxes.
    pub fn merged(self, other: Aabb) -> (b: Aabb)
        ensures
            b.joins(self, other),
    {
        Aabb { min: self.min.min(other.min), max: self.max.max(other.max) }
    }

    /// The smallest box around `points`, or `None` where there is no point.
    pub fn from_points(points: &Vec<Vec3>) -> (r: Option<Aabb>)
        ensures
            r is None <==> points@.len() == 0,
            r matches Some(b) ==> b.low() == hull_low(points@) && b.high() == hull_high(points@),
    {
        if points.len() == 0 {
            return None;
        }
        let mut b = Aabb::empty(points[0]);
        let mut i: usize = 1;
        assert(points@.take(1).len() == 1);
        while i < points.len()
            invariant
                1 <= i <= points.len(),
                b.low() == hull_low(points@.take(i as int)),
                b.high() == hull_high(points@.take(i as int)),
            decreases points.len() - i,
        {
            proof {
                let next = points@.take(i + 1);
                assert(next.drop_last() =~= points@.take(i as int));
                assert(next.last() == points@[i as int]);
            }
            b = b.merged(Aabb::empty(points[i]));
            i += 1;
        }
        assert(points@.take(i as int) =~= points@);
        Some(b)
    }

    /// Whether `pos` lies strictly inside the box: a point on the boundary
    /// does not.
    pub fn contains(&self, pos: Vec3) -> (b: bool)
        ensures
            b == self.holds(pos@),
    {
        pos.x > self.min.x && pos.y > self.min.y && pos.z > self.min.z && pos.x < self.max.x
            && pos.y < self.max.y && pos.z < self.max.z
    }

    /// The midpoint of the box, doubled so that it stays on the lattice.
    pub fn center(&self) -> (c: Vec3)
        requires
            self.wf(),
        ensures
            c@ == self.low().plus(self.high()),
    {
        Vec3 { x: self.min.x + self.max.x, y: self.min.y + self.max.y, z: self.min.z + self.max.z }
    }

    /// The lowest corner.
    pub fn min(&self) -> (v: Vec3)
        ensures
            v@ == self.low(),
    {
        self.min
    }

    /// The highest corner.
    pub fn max(&self) -> (v: Vec3)
        ensures
            v@ == self.high(),
    {
        self.max
    }
}

/// Merging is commutative.
pub proof fn lemma_merged_commutes(a: Aabb, b: Aabb, ab: Aabb, ba: Aabb)
    requires
        ab.joins(a, b),
        ba.joins(b, a),
    ensures
        ab == ba,
{
    ab.lemma_corners(ba);
}

/// Merging is associative.
pub proof fn lemma_merged_associates(a: Aabb, b: Aabb, c: Aabb, ab: Aabb, bc: Aabb, l: Aabb, r: Aabb)
    requires
        ab.joins(a, b),
        bc.joins(b, c),
        l.joins(ab, c),
        r.joins(a, bc),
    ensures
        l == r,
{
    l.lemma_corners(r);
}

/// Merging a box with itself gives the same box.
pub proof fn lemma_merged_idempotent(a: Aabb, aa: Aabb)
    requires
        aa.joins(a, a),
    ensures
        aa == a,
{
    aa.lemma_corners(a);
}

/// Merging keeps boxes well formed, and the result surrounds both.
pub proof fn lemma_merged_surrounds(a: Aabb, b: Aabb, ab: Aabb)
    requires
        ab.joins(a, b),
    ensures
        ab.surrounds(a),
        ab.surrounds(b),
        a.wf() && b.wf() ==> ab.wf(),
{
}

/// The smallest box around some points encloses each of them.
pub proof fn lemma_hull_bounds(pts: Seq<Vec3>, i: int)
    requires
        0 <= i < pts.len(),
    ensures
        hull_low(pts).not_above(pts[i]@),
        pts[i]@.not_above(hull_high(pts)),
        hull_low(pts).not_above(hull_high(pts)),
    decreases pts.len(),
{
    if pts.len() > 1 {
        if i < pts.len() - 1 {
            lemma_hull_bounds(pts.drop_last(), i);
        } else {
            lemma_hull_bounds(pts.drop_last(), 0);
        }
    }
}

/// On every axis some point lies on the lowest face of the smallest box
/// around the points, and some point on the highest.
pub proof fn lemma_hull_attained(pts: Seq<Vec3>, axis: int)
    requires
        0 < pts.len(),
        0 <= axis < 3,
    ensures
        exists|j: int| 0 <= j < pts.len() && (#[trigger] pts[j])@.at(axis) == hull_low(pts).at(axis),
        exists|j: int| 0 <= j < pts.len() && (#[trigger] pts[j])@.at(axis) == hull_high(pts).at(axis),
    decreases pts.len(),
{
    if pts.len() <= 1 {
        assert(pts[0]@.at(axis) == hull_low(pts).at(axis));
        assert(pts[0]@.at(axis) == hull_high(pts).at(axis));
    } else {
        let init = pts.drop_last();
        lemma_hull_attained(init, axis);
        let last = pts.len() - 1;
        let jl = choose|j: int| 0 <= j < init.len() && (#[trigger] init[j])@.at(axis) == hull_low(init).at(axis);
        let jh = choose|j: int| 0 <= j < init.len() && (#[trigger] init[j])@.at(axis) == hull_high(init).at(axis);
        assert(init[jl] == pts[jl]);
        assert(init[jh] == pts[jh]);
        if hull_low(pts).at(axis) == pts[last]@.at(axis) {
        } else {
            assert(pts[jl]@.at(axis) == hull_low(pts).at(axis));
        }
        if hull_high(pts).at(axis) == pts[last]@.at(axis) {
        } else {
            assert(pts[jh]@.at(axis) == hull_high(pts).at(axis));
        }
    }
}

/// A box built around some points encloses each of them, and holds a point
/// strictly inside exactly if the point lies on none of its faces.
pub proof fn lemma_from_points_contains(pts: Seq<Vec3>, i: int, b: Aabb)
    requires
        0 <= i < pts.len(),
        b.low() == hull_low(pts),
        b.high() == hull_high(pts),
    ensures
        b.encloses(pts[i]@),
        b.holds(pts[i]@) <==> !b.on_face(pts[i]@),
{
    lemma_hull_bounds(pts, i);
}

/// On one axis, the point of a ray at parameter `n / m` lies between the
/// two faces `lo` and `hi`: `o` is the origin's coordinate there and `d` the
/// direction's.
pub open spec fn in_slab(lo: int, hi: int, o: int, d: int, n: int, m: int) -> bool {
    lo * m <= o * m + n * d && o * m + n * d <= hi * m
}

/// The parameter `n / m` lies between `entry` and `exit`.
pub open spec fn between(entry: Ratio, exit: Ratio, n: int, m: int) -> bool {
    entry.le(Ratio { num: n, den: m }) && (Ratio { num: n, den: m }).le(exit)
}

/// The parameter `n / m` is at least `near`, and at most `far` where there
/// is one.
pub open spec fn in_window(near: Ratio, far: Option<Ratio>, n: int, m: int) -> bool {
    &&& near.le(Ratio { num: n, den: m })
    &&& (far matches Some(f) ==> (Ratio { num: n, den: m }).le(f))
}

/// The slab of an axis, stated as the parameters between the entry into it
/// and the exit from it.
proof fn lemma_slab_between(lo: int, hi: int, o: int, d: int, n: int, m: int)
    by (nonlinear_arith)
    ensures
        d > 0 ==> (in_slab(lo, hi, o, d, n, m) <==> between(
            Ratio { num: lo - o, den: d },
            Ratio { num: hi - o, den: d },
            n,
            m,
        )),
        d < 0 ==> (in_slab(lo, hi, o, d, n, m) <==> between(
            Ratio { num: o - hi, den: -d },
            Ratio { num: o - lo, den: -d },
            n,
            m,
        )),
{
}

/// Along an axis that the ray does not move on, the slab holds every
/// parameter or none.
proof fn lemma_slab_parallel(lo: int, hi: int, o: int, n: int, m: int)
    by (nonlinear_arith)
    requires
        m > 0,
    ensures
        in_slab(lo, hi, o, 0, n, m) <==> lo <= o <= hi,
{
}

/// A ratio that is not below one that is not negative is not negative.
proof fn lemma_not_negative(a: Ratio, b: Ratio)
    by (nonlinear_arith)
    requires
        a.num >= 0,
        a.den > 0,
        b.den > 0,
        a.le(b),
    ensures
        b.num >= 0,
{
}

/// The larger of `near` and `entry`, and the smaller of `far` and `exit`.
pub open spec fn tighter(near: Ratio, far: Option<Ratio>, entry: Ratio, exit: Ratio) -> (Ratio, Ratio) {
    (
        if near.lt(entry) {
            entry
        } else {
            near
        },
        match far {
            Some(f) => if exit.lt(f) {
                exit
            } else {
                f
            },
            None => exit,
        },
    )
}

/// A parameter lies in the tighter window exactly if it lies in the window
/// and between entry and exit.
proof fn lemma_tighter_at(near: Ratio, far: Option<Ratio>, entry: Ratio, exit: Ratio, n: int, m: int)
    requires
        near.den > 0,
        far matches Some(f) ==> f.den > 0,
        entry.den > 0,
        exit.den > 0,
        m > 0,
    ensures
        in_window(tighter(near, far, entry, exit).0, Some(tighter(near, far, entry, exit).1), n, m)
            <==> in_window(near, far, n, m) && between(entry, exit, n, m),
{
    let t = Ratio { num: n, den: m };
    let (near2, far2) = tighter(near, far, entry, exit);
    if near2.le(t) {
        if near.lt(entry) {
            lemma_lt_le_trans(near, entry, t);
        } else {
            lemma_le_trans(entry, near, t);
        }
    }
    if t.le(far2) {
        match far {
            Some(f) => {
                if exit.lt(f) {
                    lemma_le_lt_trans(t, exit, f);
                } else {
                    lemma_le_trans(t, f, exit);
                }
            },
            None => {},
        }
    }
}

/// Cuts the window `[near, far]` down to its part between `entry` and
/// `exit`, or finds that part empty.
fn narrow(near: Dist, far: Option<Dist>, entry: Dist, exit: Dist) -> (r: Option<(Dist, Option<Dist>)>)
    requires
        near.wf(),
        far matches Some(f) ==> f.wf() && near@.le(f@),
        entry.den > 0,
        exit.den > 0,
    ensures
        match r {
            None => forall|n: int, m: int|
                m > 0 && in_window(near@, reach_of(far), n, m) ==> !#[trigger] between(
                    entry@,
                    exit@,
                    n,
                    m,
                ),
            Some((near2, far2)) => {
                &&& near2.wf()
                &&& (far2 matches Some(f) ==> f.wf() && near2@.le(f@))
                &&& forall|n: int, m: int|
                    #![trigger between(entry@, exit@, n, m)]
                    #![trigger in_window(near2@, reach_of(far2), n, m)]
                    m > 0 ==> (in_window(near2@, reach_of(far2), n, m) <==> in_window(
                        near@,
                        reach_of(far),
                        n,
                        m,
                    ) && between(entry@, exit@, n, m))
            },
        },
{
    let near2 = if near.lt(&entry) {
        entry
    } else {
        near
    };
    let far2 = match far {
        Some(f) => if exit.lt(&f) {
            exit
        } else {
            f
        },
        None => exit,
    };
    proof {
        assert((near2@, far2@) == tighter(near@, reach_of(far), entry@, exit@));
        assert forall|n: int, m: int|
            #![trigger between(entry@, exit@, n, m)]
            #![trigger in_window(near2@, Some(far2@), n, m)]
            m > 0 implies (in_window(near2@, Some(far2@), n, m) <==> in_window(
            near@,
            reach_of(far),
            n,
            m,
        ) && between(entry@, exit@, n, m)) by {
            lemma_tighter_at(near@, reach_of(far), entry@, exit@, n, m);
        }
    }
    if far2.lt(&near2) {
        assert forall|n: int, m: int|
            m > 0 && in_window(near@, reach_of(far), n, m) implies !#[trigger] between(
            entry@,
            exit@,
            n,
            m,
        ) by {
            let t = Ratio { num: n, den: m };
            if between(entry@, exit@, n, m) {
                assert(in_window(near2@, Some(far2@), n, m));
                lemma_le_trans(near2@, t, far2@);
            }
        }
        None
    } else {
        proof {
            if near@.lt(entry@) {
                lemma_not_negative(near@, entry@);
            }
            lemma_not_negative(near2@, far2@);
        }
        Some((near2, Some(far2)))
    }
}

/// Cuts the window `[near, far]` of parameters down to those at which the
/// ray lies in the slab of one axis, or finds that there are none.
fn clip(near: Dist, far: Option<Dist>, lo: i64, hi: i64, o: i64, d: i64) -> (r: Option<(Dist, Option<Dist>)>)
    requires
        near.wf(),
        far matches Some(f) ==> f.wf() && near@.le(f@),
        -COORD_MAX <= lo <= hi <= COORD_MAX,
        -COORD_MAX <= o <= COORD_MAX,
        -COORD_MAX <= d <= COORD_MAX,
    ensures
        match r {
            None => forall|n: int, m: int|
                m > 0 && in_window(near@, reach_of(far), n, m) ==> !#[trigger] in_slab(
                    lo as int,
                    hi as int,
                    o as int,
                    d as int,
                    n,
                    m,
                ),
            Some((near2, far2)) => {
                &&& near2.wf()
                &&& (far2 matches Some(f) ==> f.wf() && near2@.le(f@))
                &&& forall|n: int, m: int|
                    #![trigger in_slab(lo as int, hi as int, o as int, d as int, n, m)]
                    #![trigger in_window(near2@, reach_of(far2), n, m)]
                    m > 0 ==> (in_window(near2@, reach_of(far2), n, m) <==> in_window(
                        near@,
                        reach_of(far),
                        n,
                        m,
                    ) && in_slab(lo as int, hi as int, o as int, d as int, n, m))
            },
        },
{
    if d == 0 {
        proof {
            assert forall|n: int, m: int| m > 0 implies (#[trigger] in_slab(
                lo as int,
                hi as int,
                o as int,
                d as int,
                n,
                m,
            ) <==> lo <= o <= hi) by {
                lemma_slab_parallel(lo as int, hi as int, o as int, n, m);
            }
        }
        if o < lo || o > hi {
            None
        } else {
            Some((near, far))
        }
    } else {
        let (entry, exit) = if d > 0 {
            (Dist { num: lo - o, den: d }, Dist { num: hi - o, den: d })
        } else {
            (Dist { num: o - hi, den: -d }, Dist { num: o - lo, den: -d })
        };
        proof {
            assert forall|n: int, m: int|
                #[trigger] in_slab(lo as int, hi as int, o as int, d as int, n, m) <==> between(
                    entry@,
                    exit@,
                    n,
                    m,
                ) by {
                lemma_slab_between(lo as int, hi as int, o as int, d as int, n, m);
            }
        }
        narrow(near, far, entry, exit)
    }
}

impl Hittable for Aabb {
    type Result = ();

    open spec fn hit_ready(&self, ray: Ray) -> bool {
        self.wf() && ray.wf()
    }

    open spec fn hit_spec(&self, ray: Ray) -> Option<()> {
        if self.meets(ray) {
            Some(())
        } else {
            None
        }
    }

    /// Whether the ray passes through the box within its bound: the slab
    /// test, axis by axis.
    fn hit(&self, ray: Ray) -> (r: Option<()>) {
        let near0 = Dist::zero();
        let far0 = ray.max;
        proof {
            assert forall|n: int, m: int| #[trigger]
                self@.met_at(ray, n, m) implies in_window(near0@, reach_of(far0), n, m) by {}
        }
        let (near1, far1) = match clip(near0, far0, self.min.x, self.max.x, ray.orig.x, ray.dir.x) {
            Some(w) => w,
            None => {
                assert forall|n: int, m: int| !#[trigger] self@.met_at(ray, n, m) by {}
                return None;
            },
        };
        let (near2, far2) = match clip(near1, far1, self.min.y, self.max.y, ray.orig.y, ray.dir.y) {
            Some(w) => w,
            None => {
                assert forall|n: int, m: int| !#[trigger] self@.met_at(ray, n, m) by {
                    if self@.met_at(ray, n, m) {
                        assert(in_window(near1@, reach_of(far1), n, m));
                    }
                }
                return None;
            },
        };
        let (near3, far3) = match clip(near2, far2, self.min.z, self.max.z, ray.orig.z, ray.dir.z) {
            Some(w) => w,
            None => {
                assert forall|n: int, m: int| !#[trigger] self@.met_at(ray, n, m) by {
                    if self@.met_at(ray, n, m) {
                        assert(in_window(near1@, reach_of(far1), n, m));
                        assert(in_window(near2@, reach_of(far2), n, m));
                    }
                }
                return None;
            },
        };
        proof {
            let n = near3.num as int;
            let m = near3.den as int;
            assert(in_window(near3@, reach_of(far3), n, m));
            assert(in_window(near2@, reach_of(far2), n, m));
            assert(in_window(near1@, reach_of(far1), n, m));
            assert(in_window(near0@, reach_of(far0), n, m));
            assert(self@.met_at(ray, n, m));
        }
        Some(())
    }
}

/// A ray that starts in a box, or on its boundary, passes through it,
/// whatever its direction.
pub proof fn lemma_hit_from_inside(b: Aabb, ray: Ray)
    requires
        ray.wf(),
        b.encloses(ray.orig@),
    ensures
        b.meets(ray),
        b.hit_spec(ray) is Some,
{
    assert(b@.met_at(ray, 0, 1));
}

/// A ray misses a box that lies wholly to one side of its origin along some
/// axis when it does not move towards that side.
pub proof fn lemma_miss_pointing_away(b: Aabb, ray: Ray, axis: int)
    requires
        0 <= axis < 3,
        (ray.orig@.at(axis) < b.low().at(axis) && ray.dir@.at(axis) <= 0) || (ray.orig@.at(axis)
            > b.high().at(axis) && ray.dir@.at(axis) >= 0),
    ensures
        !b.meets(ray),
        b.hit_spec(ray) is None,
{
    let o = ray.orig@.at(axis);
    let d = ray.dir@.at(axis);
    let lo = b.low().at(axis);
    let hi = b.high().at(axis);
    assert forall|n: int, m: int| !#[trigger] b@.met_at(ray, n, m) by {
        if m > 0 && n >= 0 {
            assert(!in_slab(lo, hi, o, d, n, m)) by (nonlinear_arith)
                requires
                    (o < lo && d <= 0) || (o > hi && d >= 0),
                    m > 0,
                    n >= 0,
            ;
        }
    }
}

/// A ray that passes through a box passes through every box around it.
pub proof fn lemma_meets_surrounding(inner: Bounds, outer: Bounds, ray: Ray)
    requires
        outer.surrounds(inner),
        inner.meets(ray),
    ensures
        outer.meets(ray),
{
    let (n, m) = choose|n: int, m: int| #[trigger] inner.met_at(ray, n, m);
    lemma_scale_le(outer.low.x, inner.low.x, m);
    lemma_scale_le(outer.low.y, inner.low.y, m);
    lemma_scale_le(outer.low.z, inner.low.z, m);
    lemma_scale_le(inner.high.x, outer.high.x, m);
    lemma_scale_le(inner.high.y, outer.high.y, m);
    lemma_scale_le(inner.high.z, outer.high.z, m);
    assert(outer.met_at(ray, n, m));
}

} // verus!
