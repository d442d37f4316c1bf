use vstd::prelude::*;

verus! {

/// A rational number `num / den` with a positive denominator: what a `Dist`
/// stands for in contracts. Two ratios are compared by cross-multiplication,
/// so no division is ever needed.
pub struct Ratio {
    pub num: int,
    pub den: int,
}

impl Ratio {
    pub open spec fn le(self, o: Ratio) -> bool {
        self.num * o.den <= o.num * self.den
    }

    pub open spec fn lt(self, o: Ratio) -> bool {
        self.num * o.den < o.num * self.den
    }

    /// The two ratios are the same rational number.
    pub open spec fn same(self, o: Ratio) -> bool {
        self.num * o.den == o.num * self.den
    }
}

/// Multiplying both sides of an inequality by a positive number keeps it.
pub proof fn lemma_scale_le(a: int, b: int, k: int)
    by (nonlinear_arith)
    requires
        a <= b,
        0 < k,
    ensures
        a * k <= b * k,
{
}

/// Multiplying both sides of an inequality by a number that is not negative
/// keeps it.
pub proof fn lemma_weigh_le(a: int, b: int, k: int)
    by (nonlinear_arith)
    requires
        a <= b,
        0 <= k,
    ensures
        a * k <= b * k,
{
}

/// An inequality between two multiples of a positive number holds between
/// the numbers.
pub proof fn lemma_unscale_le(a: int, b: int, k: int)
    by (nonlinear_arith)
    requires
        a * k <= b * k,
        0 < k,
    ensures
        a <= b,
{
}

/// A strict inequality between two multiples of a positive number holds
/// between the numbers.
pub proof fn lemma_unscale_lt(a: int, b: int, k: int)
    by (nonlinear_arith)
    requires
        a * k < b * k,
        0 < k,
    ensures
        a < b,
{
}

/// Three factors may be multiplied in any order.
pub proof fn lemma_three(a: int, b: int, c: int)
    by (nonlinear_arith)
    ensures
        (a * b) * c == a * (b * c),
        (a * b) * c == (a * c) * b,
        (a * b) * c == (b * c) * a,
        a * b == b * a,
{
}

/// `le` is transitive on ratios with positive denominators.
pub proof fn lemma_le_trans(a: Ratio, b: Ratio, c: Ratio)
    requires
        a.den > 0,
        b.den > 0,
        c.den > 0,
        a.le(b),
        b.le(c),
    ensures
        a.le(c),
{
    lemma_scale_le(a.num * b.den, b.num * a.den, c.den);
    lemma_scale_le(b.num * c.den, c.num * b.den, a.den);
    lemma_three(a.num, b.den, c.den);
    lemma_three(b.num, a.den, c.den);
    lemma_three(b.num, c.den, a.den);
    lemma_three(c.num, b.den, a.den);
    lemma_three(a.num, c.den, b.den);
    lemma_three(c.num, a.den, b.den);
    lemma_unscale_le(a.num * c.den, c.num * a.den, b.den);
}

/// A ratio below a second one that does not exceed a third is below the
/// third.
pub proof fn lemma_lt_le_trans(a: Ratio, b: Ratio, c: Ratio)
    requires
        a.den > 0,
        b.den > 0,
        c.den > 0,
        a.lt(b),
        b.le(c),
    ensures
        a.lt(c),
{
    lemma_scale_le(a.num * b.den + 1, b.num * a.den, c.den);
    lemma_scale_le(b.num * c.den, c.num * b.den, a.den);
    lemma_three(a.num, b.den, c.den);
    lemma_three(b.num, a.den, c.den);
    lemma_three(b.num, c.den, a.den);
    lemma_three(c.num, b.den, a.den);
    lemma_three(a.num, c.den, b.den);
    lemma_three(c.num, a.den, b.den);
    assert((a.num * b.den + 1) * c.den == (a.num * b.den) * c.den + c.den) by (nonlinear_arith);
    lemma_unscale_lt(a.num * c.den, c.num * a.den, b.den);
}

/// A ratio that does not exceed a second one that is below a third is below
/// the third.
pub proof fn lemma_le_lt_trans(a: Ratio, b: Ratio, c: Ratio)
    requires
        a.den > 0,
        b.den > 0,
        c.den > 0,
        a.le(b),
        b.lt(c),
    ensures
        a.lt(c),
{
    lemma_scale_le(a.num * b.den, b.num * a.den, c.den);
    lemma_scale_le(b.num * c.den + 1, c.num * b.den, a.den);
    lemma_three(a.num, b.den, c.den);
    lemma_three(b.num, a.den, c.den);
    lemma_three(b.num, c.den, a.den);
    lemma_three(c.num, b.den, a.den);
    lemma_three(a.num, c.den, b.den);
    lemma_three(c.num, a.den, b.den);
    assert((b.num * c.den + 1) * a.den == (b.num * c.den) * a.den + a.den) by (nonlinear_arith);
    lemma_unscale_lt(a.num * c.den, c.num * a.den, b.den);
}

/// A distance along a ray, kept exactly as a fraction of two integers. It is
/// measured in lengths of the ray's direction vector.
#[derive(Clone, Copy, Debug)]
pub struct Dist {
    pub num: i64,
    pub den: i64,
}

impl View for Dist {
    type V = Ratio;

    open spec fn view(&self) -> Ratio {
        Ratio { num: self.num as int, den: self.den as int }
    }
}

impl Dist {
    /// The distance is not negative and its denominator is positive.
    pub open spec fn wf(self) -> bool {
        self.num >= 0 && self.den > 0
    }

    pub fn new(num: i64, den: i64) -> (d: Dist)
        ensures
            d.num == num,
            d.den == den,
    {
        Dist { num, den }
    }

    /// The distance zero.
    pub fn zero() -> (d: Dist)
        ensures
            d.num == 0,
            d.den == 1,
            d.wf(),
    {
        Dist { num: 0, den: 1 }
    }

    /// Whether this distance does not exceed `o`.
    pub fn le(&self, o: &Dist) -> (b: bool)
        ensures
            b == self@.le(o@),
    {
        proof {
            lemma_word_product(self.num as int, o.den as int);
            lemma_word_product(o.num as int, self.den as int);
        }
        (self.num as i128) * (o.den as i128) <= (o.num as i128) * (self.den as i128)
    }

    /// Whether this distance is smaller than `o`.
    pub fn lt(&self, o: &Dist) -> (b: bool)
        ensures
            b == self@.lt(o@),
    {
        proof {
            lemma_word_product(self.num as int, o.den as int);
            lemma_word_product(o.num as int, self.den as int);
        }
        (self.num as i128) * (o.den as i128) < (o.num as i128) * (self.den as i128)
    }
}

/// The product of two 64-bit integers fits 128 bits.
pub proof fn lemma_word_product(a: int, b: int)
    by (nonlinear_arith)
    requires
        -0x8000_0000_0000_0000 <= a <= 0x7fff_ffff_ffff_ffff,
        -0x8000_0000_0000_0000 <= b <= 0x7fff_ffff_ffff_ffff,
    ensures
        -0x4000_0000_0000_0000_0000_0000_0000_0000 <= a * b <= 0x4000_0000_0000_0000_0000_0000_0000_0000,
{
}

} // verus!
