use vstd::prelude::*;

verus! {

/// Largest magnitude that a coordinate of a point, or a component of a ray's
/// direction, may have. Within it every product that an intersection test
/// forms fits a machine word.
pub const COORD_MAX: i64 = 524288;

/// A vector of three mathematical integers: what a `Vec3` stands for in
/// contracts.
pub struct Vector {
    pub x: int,
    pub y: int,
    pub z: int,
}

pub open spec fn abs_of(a: int) -> int {
    if a < 0 {
        -a
    } else {
        a
    }
}

pub open spec fn min_of(a: int, b: int) -> int {
    if a <= b {
        a
    } else {
        b
    }
}

pub open spec fn max_of(a: int, b: int) -> int {
    if a >= b {
        a
    } else {
        b
    }
}

impl Vector {
    pub open spec fn plus(self, o: Vector) -> Vector {
        Vector { x: self.x + o.x, y: self.y + o.y, z: self.z + o.z }
    }

    pub open spec fn minus(self, o: Vector) -> Vector {
        Vector { x: self.x - o.x, y: self.y - o.y, z: self.z - o.z }
    }

    pub open spec fn scaled(self, k: int) -> Vector {
        Vector { x: self.x * k, y: self.y * k, z: self.z * k }
    }

    pub open spec fn dot(self, o: Vector) -> int {
        self.x * o.x + self.y * o.y + self.z * o.z
    }

    pub open spec fn cross(self, o: Vector) -> Vector {
        Vector {
            x: self.y * o.z - self.z * o.y,
            y: self.z * o.x - self.x * o.z,
            z: self.x * o.y - self.y * o.x,
        }
    }

    pub open spec fn lower(self, o: Vector) -> Vector {
        Vector { x: min_of(self.x, o.x), y: min_of(self.y, o.y), z: min_of(self.z, o.z) }
    }

    pub open spec fn upper(self, o: Vector) -> Vector {
        Vector { x: max_of(self.x, o.x), y: max_of(self.y, o.y), z: max_of(self.z, o.z) }
    }

    /// The component on axis 0, 1 or 2.
    pub open spec fn at(self, axis: int) -> int {
        if axis == 0 {
            self.x
        } else if axis == 1 {
            self.y
        } else {
            self.z
        }
    }

    /// Every component lies in `[-bound, bound]`.
    pub open spec fn within(self, bound: int) -> bool {
        &&& -bound <= self.x <= bound
        &&& -bound <= self.y <= bound
        &&& -bound <= self.z <= bound
    }

    /// The largest magnitude among the components.
    pub open spec fn mag(self) -> int {
        max_of(abs_of(self.x), max_of(abs_of(self.y), abs_of(self.z)))
    }

    /// Every component is strictly below the same component of `o`.
    pub open spec fn below(self, o: Vector) -> bool {
        self.x < o.x && self.y < o.y && self.z < o.z
    }

    /// No component exceeds the same component of `o`.
    pub open spec fn not_above(self, o: Vector) -> bool {
        self.x <= o.x && self.y <= o.y && self.z <= o.z
    }
}

/// `|a * b| <= p * q` whenever `|a| <= p` and `|b| <= q`.
pub proof fn lemma_product_bound(a: int, b: int, p: int, q: int)
    by (nonlinear_arith)
    requires
        -p <= a <= p,
        -q <= b <= q,
    ensures
        -(p * q) <= a * b <= p * q,
{
}

/// A vector with three integer coordinates on a lattice.
#[derive(Clone, Copy, Debug, PartialEq, Eq, Structural)]
pub struct Vec3 {
    pub x: i64,
    pub y: i64,
    pub z: i64,
}

impl View for Vec3 {
    type V = Vector;

    open spec fn view(&self) -> Vector {
        Vector { x: self.x as int, y: self.y as int, z: self.z as int }
    }
}

impl Vec3 {
    /// The coordinates are those of a point of the scene, or of a direction.
    pub open spec fn in_range(self) -> bool {
        self@.within(COORD_MAX as int)
    }

    pub fn new(x: i64, y: i64, z: i64) -> (v: Vec3)
        ensures
            v.x == x,
            v.y == y,
            v.z == z,
    {
        Vec3 { x, y, z }
    }

    pub fn zero() -> (v: Vec3)
        ensures
            v == (Vec3 { x: 0, y: 0, z: 0 }),
    {
        Vec3::new(0, 0, 0)
    }

    /// The component on `axis`.
    pub fn axis(&self, axis: usize) -> (c: i64)
        requires
            axis < 3,
        ensures
            c == self@.at(axis as int),
    {
        if axis == 0 {
            self.x
        } else if axis == 1 {
            self.y
        } else {
            self.z
        }
    }

    pub fn dot(&self, p: Vec3) -> (d: i64)
        requires
            3 * (self@.mag() * p@.mag()) <= i64::MAX,
        ensures
            d == self@.dot(p@),
    {
        proof {
            let m: int = self@.mag();
            let n: int = p@.mag();
            lemma_product_bound(self.x as int, p.x as int, m, n);
            lemma_product_bound(self.y as int, p.y as int, m, n);
            lemma_product_bound(self.z as int, p.z as int, m, n);
        }
        self.x * p.x + self.y * p.y + self.z * p.z
    }

    pub fn length2(&self) -> (d: i64)
        requires
            3 * (self@.mag() * self@.mag()) <= i64::MAX,
        ensures
            d == self@.dot(self@),
    {
        self.dot(*self)
    }

    pub fn distance2(&self, p: Vec3) -> (d: i64)
        requires
            3 * ((self@.mag() + p@.mag()) * (self@.mag() + p@.mag())) <= i64::MAX,
        ensures
            d == self@.minus(p@).dot(self@.minus(p@)),
    {
        proof {
            let s: int = self@.mag() + p@.mag();
            let m: int = self@.minus(p@).mag();
            assert(0 <= m <= s);
            lemma_product_bound(m, m, s, s);
            lemma_product_bound(s, s, s, s);
            assert(s <= s * s) by (nonlinear_arith)
                requires
                    0 <= s,
            ;
        }
        let d = Vec3 { x: self.x - p.x, y: self.y - p.y, z: self.z - p.z };
        d.length2()
    }

    pub fn cross(&self, o: Vec3) -> (v: Vec3)
        requires
            2 * (self@.mag() * o@.mag()) <= i64::MAX,
        ensures
            v@ == self@.cross(o@),
    {
        proof {
            let m: int = self@.mag();
            let n: int = o@.mag();
            lemma_product_bound(self.y as int, o.z as int, m, n);
            lemma_product_bound(self.z as int, o.y as int, m, n);
            lemma_product_bound(self.z as int, o.x as int, m, n);
            lemma_product_bound(self.x as int, o.z as int, m, n);
            lemma_product_bound(self.x as int, o.y as int, m, n);
            lemma_product_bound(self.y as int, o.x as int, m, n);
        }
        Vec3 {
            x: self.y * o.z - self.z * o.y,
            y: self.z * o.x - self.x * o.z,
            z: self.x * o.y - self.y * o.x,
        }
    }

    pub fn max(&self, o: Vec3) -> (v: Vec3)
        ensures
            v@ == self@.upper(o@),
    {
        Vec3 {
            x: if self.x >= o.x { self.x } else { o.x },
            y: if self.y >= o.y { self.y } else { o.y },
            z: if self.z >= o.z { self.z } else { o.z },
        }
    }

    pub fn min(&self, o: Vec3) -> (v: Vec3)
        ensures
            v@ == self@.lower(o@),
    {
        Vec3 {
            x: if self.x <= o.x { self.x } else { o.x },
            y: if self.y <= o.y { self.y } else { o.y },
            z: if self.z <= o.z { self.z } else { o.z },
        }
    }
}

impl Default for Vec3 {
    fn default() -> (v: Vec3)
        ensures
            v == (Vec3 { x: 0, y: 0, z: 0 }),
    {
        Vec3 { x: 0, y: 0, z: 0 }
    }
}

impl From<i64> for Vec3 {
    fn from(x: i64) -> (v: Vec3) {
        Vec3 { x, y: x, z: x }
    }
}

impl vstd::std_specs::convert::FromSpecImpl<i64> for Vec3 {
    open spec fn obeys_from_spec() -> bool {
        true
    }

    open spec fn from_spec(x: i64) -> Vec3 {
        Vec3 { x, y: x, z: x }
    }
}

impl From<[i64; 3]> for Vec3 {
    fn from(xyz: [i64; 3]) -> (v: Vec3) {
        Vec3 { x: xyz[0], y: xyz[1], z: xyz[2] }
    }
}

impl vstd::std_specs::convert::FromSpecImpl<[i64; 3]> for Vec3 {
    open spec fn obeys_from_spec() -> bool {
        true
    }

    open spec fn from_spec(xyz: [i64; 3]) -> Vec3 {
        Vec3 { x: xyz[0], y: xyz[1], z: xyz[2] }
    }
}

impl core::ops::Neg for Vec3 {
    type Output = Vec3;

    fn neg(self) -> (v: Vec3) {
        Vec3 { x: -self.x, y: -self.y, z: -self.z }
    }
}

impl vstd::std_specs::ops::NegSpecImpl for Vec3 {
    open spec fn obeys_neg_spec() -> bool {
        true
    }

    open spec fn neg_req(self) -> bool {
        self.x > i64::MIN && self.y > i64::MIN && self.z > i64::MIN
    }

    open spec fn neg_spec(self) -> Vec3 {
        Vec3 { x: (-self.x) as i64, y: (-self.y) as i64, z: (-self.z) as i64 }
    }
}

impl core::ops::Add for Vec3 {
    type Output = Vec3;

    fn add(self, o: Vec3) -> (v: Vec3) {
        Vec3 { x: self.x + o.x, y: self.y + o.y, z: self.z + o.z }
    }
}

impl vstd::std_specs::ops::AddSpecImpl for Vec3 {
    open spec fn obeys_add_spec() -> bool {
        true
    }

    open spec fn add_req(self, o: Vec3) -> bool {
        &&& i64::MIN <= self.x + o.x <= i64::MAX
        &&& i64::MIN <= self.y + o.y <= i64::MAX
        &&& i64::MIN <= self.z + o.z <= i64::MAX
    }

    open spec fn add_spec(self, o: Vec3) -> Vec3 {
        Vec3 { x: (self.x + o.x) as i64, y: (self.y + o.y) as i64, z: (self.z + o.z) as i64 }
    }
}

impl core::ops::Sub for Vec3 {
    type Output = Vec3;

    fn sub(self, o: Vec3) -> (v: Vec3) {
        Vec3 { x: self.x - o.x, y: self.y - o.y, z: self.z - o.z }
    }
}

impl vstd::std_specs::ops::SubSpecImpl for Vec3 {
    open spec fn obeys_sub_spec() -> bool {
        true
    }

    open spec fn sub_req(self, o: Vec3) -> bool {
        &&& i64::MIN <= self.x - o.x <= i64::MAX
        &&& i64::MIN <= self.y - o.y <= i64::MAX
        &&& i64::MIN <= self.z - o.z <= i64::MAX
    }

    open spec fn sub_spec(self, o: Vec3) -> Vec3 {
        Vec3 { x: (self.x - o.x) as i64, y: (self.y - o.y) as i64, z: (self.z - o.z) as i64 }
    }
}

impl core::ops::Mul for Vec3 {
    type Output = Vec3;

    fn mul(self, o: Vec3) -> (v: Vec3) {
        Vec3 { x: self.x * o.x, y: self.y * o.y, z: self.z * o.z }
    }
}

impl vstd::std_specs::ops::MulSpecImpl for Vec3 {
    open spec fn obeys_mul_spec() -> bool {
        true
    }

    open spec fn mul_req(self, o: Vec3) -> bool {
        &&& i64::MIN <= self.x * o.x <= i64::MAX
        &&& i64::MIN <= self.y * o.y <= i64::MAX
        &&& i64::MIN <= self.z * o.z <= i64::MAX
    }

    open spec fn mul_spec(self, o: Vec3) -> Vec3 {
        Vec3 { x: (self.x * o.x) as i64, y: (self.y * o.y) as i64, z: (self.z * o.z) as i64 }
    }
}

} // verus!
