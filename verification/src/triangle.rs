use vstd::prelude::*;
use crate::algebra::{lemma_cramer_first, lemma_difference};
use crate::dist::{Dist, Ratio, lemma_weigh_le, lemma_word_product};
use crate::hit::Hittable;
use crate::aabb::{Bounds, in_slab};
use crate::ray::{Ray, Scaled};
use crate::utils::EPSILON;
use crate::vec::{Vec3, Vector, COORD_MAX, lemma_product_bound};

verus! {

/// The solution of the ray–triangle equation in mathematical integers: the
/// barycentric weights of the struck point are `w / det`, `u / det` and
/// `v / det`, and its distance along the ray is `t / det`.
pub struct Strike {
    pub w: int,
    pub u: int,
    pub v: int,
    pub det: int,
    pub t: int,
}

/// Where a ray struck a triangle: the barycentric weights `w / det`, `u / det`
/// and `v / det` of the point over the three corners, which add up to one,
/// and its distance `t / det` along the ray.
#[derive(Clone, Copy, Debug)]
pub struct Bary {
    pub w: i64,
    pub u: i64,
    pub v: i64,
    pub det: i64,
    pub t: i64,
}

impl View for Bary {
    type V = Strike;

    open spec fn view(&self) -> Strike {
        Strike {
            w: self.w as int,
            u: self.u as int,
            v: self.v as int,
            det: self.det as int,
            t: self.t as int,
        }
    }
}

impl Bary {
    /// The three values, each multiplied by the weight of its corner, added
    /// up: the numerators, over `det`, of the value at the struck point.
    pub fn blend(&self, a: Vec3, b: Vec3, c: Vec3) -> (p: Scaled)
        requires
            a.in_range(),
            b.in_range(),
            c.in_range(),
        ensures
            p@ == a@.scaled(self.w as int).plus(b@.scaled(self.u as int)).plus(
                c@.scaled(self.v as int),
            ),
    {
        proof {
            let k: int = 0x8000_0000_0000_0000;
            let l: int = 524288;
            lemma_product_bound(a.x as int, self.w as int, l, k);
            lemma_product_bound(a.y as int, self.w as int, l, k);
            lemma_product_bound(a.z as int, self.w as int, l, k);
            lemma_product_bound(b.x as int, self.u as int, l, k);
            lemma_product_bound(b.y as int, self.u as int, l, k);
            lemma_product_bound(b.z as int, self.u as int, l, k);
            lemma_product_bound(c.x as int, self.v as int, l, k);
            lemma_product_bound(c.y as int, self.v as int, l, k);
            lemma_product_bound(c.z as int, self.v as int, l, k);
            assert(l * k == 0x4_0000_0000_0000_0000_0000);
        }
        let w: i128 = self.w as i128;
        let u: i128 = self.u as i128;
        let v: i128 = self.v as i128;
        Scaled {
            x: (a.x as i128) * w + (b.x as i128) * u + (c.x as i128) * v,
            y: (a.y as i128) * w + (b.y as i128) * u + (c.y as i128) * v,
            z: (a.z as i128) * w + (b.z as i128) * u + (c.z as i128) * v,
        }
    }

    /// The distance along the ray.
    pub fn dist(&self) -> (d: Dist)
        ensures
            d.num == self.t,
            d.den == self.det,
    {
        Dist { num: self.t, den: self.det }
    }
}

/// The solution, by Cramer's rule, of
/// `orig + t * dir == (1 - u - v) * a + u * b + v * c`,
/// with every unknown multiplied by the determinant `det` of the system.
pub open spec fn strike(a: Vector, b: Vector, c: Vector, orig: Vector, dir: Vector) -> Strike {
    let e1 = b.minus(a);
    let e2 = c.minus(a);
    let p = dir.cross(e2);
    let s = orig.minus(a);
    let q = s.cross(e1);
    let det = e1.dot(p);
    let u = s.dot(p);
    let v = dir.dot(q);
    Strike { w: det - u - v, u, v, det, t: e2.dot(q) }
}

impl Strike {
    /// The solution is a point of the triangle, seen from its front, ahead
    /// of the ray's origin and not beyond `max`.
    pub open spec fn lands(self, max: Option<Dist>) -> bool {
        &&& self.det >= EPSILON
        &&& 0 <= self.u <= self.det
        &&& 0 <= self.v
        &&& self.u + self.v <= self.det
        &&& 0 <= self.t
        &&& (max matches Some(d) ==> self.t * d.den <= d.num * self.det)
    }

    /// The distance along the ray.
    pub open spec fn dist(self) -> Ratio {
        Ratio { num: self.t, den: self.det }
    }
}

/// What the ray–triangle test returns for the triangle `a`, `b`, `c`.
pub open spec fn triangle_hit(a: Vec3, b: Vec3, c: Vec3, ray: Ray) -> Option<Bary> {
    let s = strike(a@, b@, c@, ray.orig@, ray.dir@);
    if s.lands(ray.max) {
        Some(Bary { w: s.w as i64, u: s.u as i64, v: s.v as i64, det: s.det as i64, t: s.t as i64 })
    } else {
        None
    }
}

/// One coordinate of the struck point: from Cramer's rule for the edges
/// to the equation between the point on the ray and the weighted corners.
proof fn lemma_strike_coordinate(
    a: int,
    b: int,
    c: int,
    o: int,
    d: int,
    det: int,
    u: int,
    v: int,
    t: int,
)
    requires
        det * (o - a) == u * (b - a) + v * (c - a) - t * d,
    ensures
        o * det + d * t == a * (det - u - v) + b * u + c * v,
{
    lemma_difference(o, a, det);
    lemma_difference(b, a, u);
    lemma_difference(c, a, v);
    assert(a * (det - u - v) == a * det - a * u - a * v) by (nonlinear_arith);
    assert(o * det == det * o && a * det == det * a && d * t == t * d) by (nonlinear_arith);
    assert(a * u == u * a && b * u == u * b && a * v == v * a && c * v == v * c)
        by (nonlinear_arith);
}

/// The solution that `strike` gives does solve the equation: the point of
/// the ray at the distance `t / det` is the point of the triangle with the
/// weights `w / det`, `u / det` and `v / det`.
pub proof fn lemma_strike_point(a: Vector, b: Vector, c: Vector, orig: Vector, dir: Vector)
    ensures
        ({
            let s = strike(a, b, c, orig, dir);
            orig.scaled(s.det).plus(dir.scaled(s.t)) == a.scaled(s.w).plus(b.scaled(s.u)).plus(
                c.scaled(s.v),
            )
        }),
        ({
            let s = strike(a, b, c, orig, dir);
            s.w + s.u + s.v == s.det
        }),
{
    let s = strike(a, b, c, orig, dir);
    let e1 = b.minus(a);
    let e2 = c.minus(a);
    let tv = orig.minus(a);
    lemma_cramer_first(e1.x, e1.y, e1.z, e2.x, e2.y, e2.z, dir.x, dir.y, dir.z, tv.x, tv.y, tv.z);
    lemma_cramer_first(e1.y, e1.z, e1.x, e2.y, e2.z, e2.x, dir.y, dir.z, dir.x, tv.y, tv.z, tv.x);
    lemma_cramer_first(e1.z, e1.x, e1.y, e2.z, e2.x, e2.y, dir.z, dir.x, dir.y, tv.z, tv.x, tv.y);
    lemma_strike_coordinate(a.x, b.x, c.x, orig.x, dir.x, s.det, s.u, s.v, s.t);
    lemma_strike_coordinate(a.y, b.y, c.y, orig.y, dir.y, s.det, s.u, s.v, s.t);
    lemma_strike_coordinate(a.z, b.z, c.z, orig.z, dir.z, s.det, s.u, s.v, s.t);
}

/// A weighted mean of three numbers between two bounds lies between them.
proof fn lemma_mean_between(lo: int, hi: int, a: int, b: int, c: int, w: int, u: int, v: int)
    requires
        lo <= a <= hi,
        lo <= b <= hi,
        lo <= c <= hi,
        0 <= w,
        0 <= u,
        0 <= v,
    ensures
        lo * (w + u + v) <= a * w + b * u + c * v <= hi * (w + u + v),
{
    assert(lo * (w + u + v) == lo * w + lo * u + lo * v) by (nonlinear_arith);
    assert(hi * (w + u + v) == hi * w + hi * u + hi * v) by (nonlinear_arith);
    lemma_weigh_le(lo, a, w);
    lemma_weigh_le(lo, b, u);
    lemma_weigh_le(lo, c, v);
    lemma_weigh_le(a, hi, w);
    lemma_weigh_le(b, hi, u);
    lemma_weigh_le(c, hi, v);
}

/// A ray that strikes a triangle passes, at the distance of the struck
/// point, through every box that encloses the three corners.
pub proof fn lemma_struck_in_box(a: Vec3, b: Vec3, c: Vec3, ray: Ray, around: Bounds)
    requires
        around.encloses(a@),
        around.encloses(b@),
        around.encloses(c@),
        strike(a@, b@, c@, ray.orig@, ray.dir@).lands(ray.max),
    ensures
        ({
            let s = strike(a@, b@, c@, ray.orig@, ray.dir@);
            around.met_at(ray, s.t, s.det)
        }),
        around.meets(ray),
{
    let s = strike(a@, b@, c@, ray.orig@, ray.dir@);
    lemma_strike_point(a@, b@, c@, ray.orig@, ray.dir@);
    let lo = around.low;
    let hi = around.high;
    lemma_mean_between(lo.x, hi.x, a@.x, b@.x, c@.x, s.w, s.u, s.v);
    lemma_mean_between(lo.y, hi.y, a@.y, b@.y, c@.y, s.w, s.u, s.v);
    lemma_mean_between(lo.z, hi.z, a@.z, b@.z, c@.z, s.w, s.u, s.v);
    let o = ray.orig@;
    let d = ray.dir@;
    assert(s.t * d.x == d.x * s.t && s.t * d.y == d.y * s.t && s.t * d.z == d.z * s.t)
        by (nonlinear_arith);
    assert(in_slab(lo.x, hi.x, o.x, d.x, s.t, s.det));
    assert(in_slab(lo.y, hi.y, o.y, d.y, s.t, s.det));
    assert(in_slab(lo.z, hi.z, o.z, d.z, s.t, s.det));
    assert(around.met_at(ray, s.t, s.det));
}

/// The magnitude of a vector within a bound is within it too.
proof fn lemma_mag(v: Vector, b: int)
    requires
        v.within(b),
    ensures
        0 <= v.mag() <= b,
{
}

/// The components of a cross product are bounded by twice the product of
/// the bounds of its factors.
proof fn lemma_cross_within(a: Vector, b: Vector, p: int, q: int)
    requires
        a.within(p),
        b.within(q),
    ensures
        a.cross(b).within(2 * (p * q)),
        2 * (a.mag() * b.mag()) <= 2 * (p * q),
{
    lemma_product_bound(a.y, b.z, p, q);
    lemma_product_bound(a.z, b.y, p, q);
    lemma_product_bound(a.z, b.x, p, q);
    lemma_product_bound(a.x, b.z, p, q);
    lemma_product_bound(a.x, b.y, p, q);
    lemma_product_bound(a.y, b.x, p, q);
    lemma_mag(a, p);
    lemma_mag(b, q);
    lemma_product_bound(a.mag(), b.mag(), p, q);
}

/// A dot product is bounded by three times the product of the bounds of its
/// factors.
proof fn lemma_dot_within(a: Vector, b: Vector, p: int, q: int)
    requires
        a.within(p),
        b.within(q),
    ensures
        -(3 * (p * q)) <= a.dot(b) <= 3 * (p * q),
        3 * (a.mag() * b.mag()) <= 3 * (p * q),
{
    lemma_product_bound(a.x, b.x, p, q);
    lemma_product_bound(a.y, b.y, p, q);
    lemma_product_bound(a.z, b.z, p, q);
    lemma_mag(a, p);
    lemma_mag(b, q);
    lemma_product_bound(a.mag(), b.mag(), p, q);
}

/// For corners and a ray in range, every number of the solution fits a
/// machine word.
pub proof fn lemma_strike_fits(a: Vec3, b: Vec3, c: Vec3, ray: Ray)
    requires
        a.in_range(),
        b.in_range(),
        c.in_range(),
        ray.orig.in_range(),
        ray.dir.in_range(),
    ensures
        ({
            let s = strike(a@, b@, c@, ray.orig@, ray.dir@);
            &&& i64::MIN < s.det < i64::MAX
            &&& i64::MIN < s.u < i64::MAX
            &&& i64::MIN < s.v < i64::MAX
            &&& i64::MIN < s.t < i64::MAX
            &&& i64::MIN < s.u + s.v < i64::MAX
        }),
{
    let l: int = 524288;
    let e1 = b@.minus(a@);
    let e2 = c@.minus(a@);
    let tv = ray.orig@.minus(a@);
    lemma_cross_within(ray.dir@, e2, l, 2 * l);
    lemma_dot_within(e1, ray.dir@.cross(e2), 2 * l, 2 * (l * (2 * l)));
    lemma_dot_within(tv, ray.dir@.cross(e2), 2 * l, 2 * (l * (2 * l)));
    lemma_cross_within(tv, e1, 2 * l, 2 * l);
    lemma_dot_within(ray.dir@, tv.cross(e1), l, 2 * ((2 * l) * (2 * l)));
    lemma_dot_within(e2, tv.cross(e1), 2 * l, 2 * ((2 * l) * (2 * l)));
}

/// The ray–triangle test of Möller and Trumbore, in exact arithmetic. It is
/// one-sided: a triangle seen from behind, or edge-on, is never struck.
pub fn hit_triangle(a: Vec3, b: Vec3, c: Vec3, ray: Ray) -> (r: Option<Bary>)
    requires
        a.in_range(),
        b.in_range(),
        c.in_range(),
        ray.wf(),
    ensures
        r == triangle_hit(a, b, c, ray),
{
    let ghost l: int = 524288;
    let edge1 = a_to(a, b);
    let edge2 = a_to(a, c);
    proof {
        lemma_cross_within(ray.dir@, edge2@, l, 2 * l);
    }
    let pvec = ray.dir.cross(edge2);
    proof {
        lemma_dot_within(edge1@, pvec@, 2 * l, 2 * (l * (2 * l)));
    }
    let det = edge1.dot(pvec);
    if det < EPSILON {
        return None;
    }
    let tvec = a_to(a, ray.orig);
    proof {
        lemma_dot_within(tvec@, pvec@, 2 * l, 2 * (l * (2 * l)));
    }
    let u = tvec.dot(pvec);
    if u < 0 || u > det {
        return None;
    }
    proof {
        lemma_cross_within(tvec@, edge1@, 2 * l, 2 * l);
        lemma_dot_within(ray.dir@, tvec@.cross(edge1@), l, 2 * ((2 * l) * (2 * l)));
        lemma_dot_within(edge2@, tvec@.cross(edge1@), 2 * l, 2 * ((2 * l) * (2 * l)));
    }
    let qvec = tvec.cross(edge1);
    let v = ray.dir.dot(qvec);
    if v < 0 || u + v > det {
        return None;
    }
    let t = edge2.dot(qvec);
    if t < 0 {
        return None;
    }
    match ray.max {
        Some(d) => {
            proof {
                lemma_word_product(t as int, d.den as int);
                lemma_word_product(d.num as int, det as int);
            }
            if (t as i128) * (d.den as i128) > (d.num as i128) * (det as i128) {
                return None;
            }
        },
        None => {},
    }
    Some(Bary { w: det - u - v, u, v, det, t })
}

/// The vector from `a` to `b`.
fn a_to(a: Vec3, b: Vec3) -> (v: Vec3)
    requires
        a.in_range(),
        b.in_range(),
    ensures
        v@ == b@.minus(a@),
        v@.within(2 * COORD_MAX),
{
    b - a
}

impl Hittable for [Vec3; 3] {
    type Result = Bary;

    open spec fn hit_ready(&self, ray: Ray) -> bool {
        self[0].in_range() && self[1].in_range() && self[2].in_range() && ray.wf()
    }

    open spec fn hit_spec(&self, ray: Ray) -> Option<Bary> {
        triangle_hit(self[0], self[1], self[2], ray)
    }

    fn hit(&self, ray: Ray) -> (r: Option<Bary>) {
        hit_triangle(self[0], self[1], self[2], ray)
    }
}

/// With all the weight on one corner, blending gives the value at that
/// corner, over the same denominator.
pub proof fn lemma_blend_at_corner(a: Vector, b: Vector, c: Vector, det: int)
    ensures
        a.scaled(det).plus(b.scaled(0)).plus(c.scaled(0)) == a.scaled(det),
        a.scaled(0).plus(b.scaled(det)).plus(c.scaled(0)) == b.scaled(det),
        a.scaled(0).plus(b.scaled(0)).plus(c.scaled(det)) == c.scaled(det),
{
}

} // verus!
