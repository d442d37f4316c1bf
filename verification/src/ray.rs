use vstd::prelude::*;
use crate::dist::{Dist, Ratio};
use crate::utils::EPSILON;
use crate::vec::{Vec3, Vector, COORD_MAX, lemma_product_bound};

verus! {

/// The numerators of a point with rational coordinates, over a denominator
/// that is kept beside it.
#[derive(Clone, Copy, Debug)]
pub struct Scaled {
    pub x: i128,
    pub y: i128,
    pub z: i128,
}

impl View for Scaled {
    type V = Vector;

    open spec fn view(&self) -> Vector {
        Vector { x: self.x as int, y: self.y as int, z: self.z as int }
    }
}

/// What a bound on a ray's reach stands for in contracts.
pub open spec fn reach_of(max: Option<Dist>) -> Option<Ratio> {
    match max {
        Some(d) => Some(d@),
        None => None,
    }
}

/// A half-line from `orig` along `dir`, cut off at the distance `max` where
/// there is one. The direction is any lattice vector; distances along the ray
/// count in lengths of it.
#[derive(Clone, Copy, Debug)]
pub struct Ray {
    pub orig: Vec3,
    pub dir: Vec3,
    pub max: Option<Dist>,
}

impl Ray {
    /// Origin and direction are in range and the bound, if any, is a distance.
    pub open spec fn wf(self) -> bool {
        &&& self.orig.in_range()
        &&& self.dir.in_range()
        &&& (self.max matches Some(d) ==> d.wf())
    }

    /// The parameter `n / m` does not lie beyond the ray's bound.
    pub open spec fn reaches(self, n: int, m: int) -> bool {
        self.max matches Some(d) ==> n * d.den <= d.num * m
    }

    /// The same half-line as `o`, whatever the two bounds.
    pub open spec fn same_line(self, o: Ray) -> bool {
        self.orig == o.orig && self.dir == o.dir
    }

    /// The numerators, over `m`, of the point at parameter `n / m`.
    pub open spec fn point_at(self, n: int, m: int) -> Vector {
        self.orig@.scaled(m).plus(self.dir@.scaled(n))
    }

    /// A ray without a bound.
    pub fn new(orig: Vec3, dir: Vec3) -> (r: Ray)
        ensures
            r.orig == orig,
            r.dir == dir,
            r.max is None,
    {
        Ray { orig, dir, max: None }
    }

    /// A ray without a bound that starts `EPSILON` lengths of `dir` away
    /// from `orig`, so that it does not strike the surface that it leaves.
    pub fn new_with_epsilon(orig: Vec3, dir: Vec3) -> (r: Ray)
        requires
            orig.in_range(),
            dir.in_range(),
            orig@.plus(dir@.scaled(EPSILON as int)).within(COORD_MAX as int),
        ensures
            r.orig@ == orig@.plus(dir@.scaled(EPSILON as int)),
            r.dir == dir,
            r.max is None,
    {
        Ray::new_with_offset(orig, dir, EPSILON)
    }

    /// A ray without a bound that starts `offset` lengths of `dir` away from
    /// `orig`.
    pub fn new_with_offset(orig: Vec3, dir: Vec3, offset: i64) -> (r: Ray)
        requires
            orig.in_range(),
            dir.in_range(),
            -COORD_MAX <= offset <= COORD_MAX,
            orig@.plus(dir@.scaled(offset as int)).within(COORD_MAX as int),
        ensures
            r.orig@ == orig@.plus(dir@.scaled(offset as int)),
            r.dir == dir,
            r.max is None,
    {
        proof {
            let l: int = 524288;
            lemma_product_bound(dir.x as int, offset as int, l, l);
            lemma_product_bound(dir.y as int, offset as int, l, l);
            lemma_product_bound(dir.z as int, offset as int, l, l);
        }
        Ray {
            orig: Vec3 {
                x: orig.x + dir.x * offset,
                y: orig.y + dir.y * offset,
                z: orig.z + dir.z * offset,
            },
            dir,
            max: None,
        }
    }

    /// The same half-line, cut off at `max`.
    pub fn with_max(self, max: Dist) -> (r: Ray)
        ensures
            r.orig == self.orig,
            r.dir == self.dir,
            r.max == Some(max),
    {
        Ray { orig: self.orig, dir: self.dir, max: Some(max) }
    }

    /// The point at distance `t`, as numerators over `t.den`.
    pub fn along(&self, t: Dist) -> (p: Scaled)
        requires
            self.orig.in_range(),
            self.dir.in_range(),
        ensures
            p@ == self.point_at(t.num as int, t.den as int),
    {
        proof {
            let w: int = 0x8000_0000_0000_0000;
            let c: int = 524288;
            lemma_product_bound(self.orig.x as int, t.den as int, c, w);
            lemma_product_bound(self.orig.y as int, t.den as int, c, w);
            lemma_product_bound(self.orig.z as int, t.den as int, c, w);
            lemma_product_bound(self.dir.x as int, t.num as int, c, w);
            lemma_product_bound(self.dir.y as int, t.num as int, c, w);
            lemma_product_bound(self.dir.z as int, t.num as int, c, w);
            assert(c * w == 0x4_0000_0000_0000_0000_0000);
        }
        let n: i128 = t.num as i128;
        let m: i128 = t.den as i128;
        Scaled {
            x: (self.orig.x as i128) * m + (self.dir.x as i128) * n,
            y: (self.orig.y as i128) * m + (self.dir.y as i128) * n,
            z: (self.orig.z as i128) * m + (self.dir.z as i128) * n,
        }
    }
}

} // verus!
