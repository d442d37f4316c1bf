use vstd::prelude::*;

verus! {

/// A sum of three terms is multiplied term by term.
pub proof fn lemma_sum_of_three(x: int, y: int, z: int, k: int)
    by (nonlinear_arith)
    ensures
        (x + y + z) * k == x * k + y * k + z * k,
{
}

/// A difference is multiplied term by term, from either side.
pub proof fn lemma_difference(x: int, y: int, k: int)
    by (nonlinear_arith)
    ensures
        (x - y) * k == x * k - y * k,
        k * (x - y) == k * x - k * y,
{
}

/// Three factors may be grouped either way.
pub proof fn lemma_grouping(a: int, b: int, c: int)
    by (nonlinear_arith)
    ensures
        a * (b * c) == a * b * c,
{
}

/// A factor times a difference of two products, times another factor, is a
/// difference of two products of four factors.
pub proof fn lemma_minor(x: int, p: int, q: int, r: int, s: int, k: int)
    ensures
        (x * (p * q - r * s)) * k == x * p * q * k - x * r * s * k,
{
    lemma_difference(p * q, r * s, x);
    lemma_difference(x * (p * q), x * (r * s), k);
    lemma_grouping(x, p, q);
    lemma_grouping(x, r, s);
}

/// A product of four factors does not depend on their order.
pub proof fn lemma_four(a: int, b: int, c: int, d: int)
    by (nonlinear_arith)
    ensures
        a * b * c * d == a * b * d * c,
        a * b * c * d == a * c * b * d,
        a * b * c * d == a * c * d * b,
        a * b * c * d == a * d * b * c,
        a * b * c * d == a * d * c * b,
        a * b * c * d == b * a * c * d,
        a * b * c * d == b * a * d * c,
        a * b * c * d == b * c * a * d,
        a * b * c * d == b * c * d * a,
        a * b * c * d == b * d * a * c,
        a * b * c * d == b * d * c * a,
        a * b * c * d == c * a * b * d,
        a * b * c * d == c * a * d * b,
        a * b * c * d == c * b * a * d,
        a * b * c * d == c * b * d * a,
        a * b * c * d == c * d * a * b,
        a * b * c * d == c * d * b * a,
        a * b * c * d == d * a * b * c,
        a * b * c * d == d * a * c * b,
        a * b * c * d == d * b * a * c,
        a * b * c * d == d * b * c * a,
        a * b * c * d == d * c * a * b,
        a * b * c * d == d * c * b * a,
{
}

/// Cramer's rule for the first coordinate of the system
/// `t == u * a + v * b - s * d`, whose unknowns `u`, `v` and `s` are given
/// here multiplied by the determinant.
pub proof fn lemma_cramer_first(
    ax: int,
    ay: int,
    az: int,
    bx: int,
    by: int,
    bz: int,
    dx: int,
    dy: int,
    dz: int,
    tx: int,
    ty: int,
    tz: int,
)
    ensures
        (ax * (dy * bz - dz * by) + ay * (dz * bx - dx * bz) + az * (dx * by - dy * bx)) * tx == (tx * (dy * bz - dz * by) + ty * (dz * bx - dx * bz) + tz * (dx * by - dy * bx)) * ax + (dx * (ty * az - tz * ay) + dy * (tz * ax - tx * az) + dz * (tx * ay - ty * ax)) * bx - (bx * (ty * az - tz * ay) + by * (tz * ax - tx * az) + bz * (tx * ay - ty * ax)) * dx,
{
    lemma_sum_of_three(ax * (dy * bz - dz * by), ay * (dz * bx - dx * bz), az * (dx * by - dy * bx), tx);
    lemma_minor(ax, dy, bz, dz, by, tx);
    lemma_minor(ay, dz, bx, dx, bz, tx);
    lemma_minor(az, dx, by, dy, bx, tx);
    lemma_sum_of_three(tx * (dy * bz - dz * by), ty * (dz * bx - dx * bz), tz * (dx * by - dy * bx), ax);
    lemma_minor(tx, dy, bz, dz, by, ax);
    lemma_minor(ty, dz, bx, dx, bz, ax);
    lemma_minor(tz, dx, by, dy, bx, ax);
    lemma_sum_of_three(dx * (ty * az - tz * ay), dy * (tz * ax - tx * az), dz * (tx * ay - ty * ax), bx);
    lemma_minor(dx, ty, az, tz, ay, bx);
    lemma_minor(dy, tz, ax, tx, az, bx);
    lemma_minor(dz, tx, ay, ty, ax, bx);
    lemma_sum_of_three(bx * (ty * az - tz * ay), by * (tz * ax - tx * az), bz * (tx * ay - ty * ax), dx);
    lemma_minor(bx, ty, az, tz, ay, dx);
    lemma_minor(by, tz, ax, tx, az, dx);
    lemma_minor(bz, tx, ay, ty, ax, dx);
    lemma_four(ax, dy, bz, tx);
    lemma_four(ax, dz, by, tx);
    lemma_four(ay, dz, bx, tx);
    lemma_four(ay, dx, bz, tx);
    lemma_four(az, dx, by, tx);
    lemma_four(az, dy, bx, tx);
    lemma_four(ty, dz, bx, ax);
    lemma_four(ty, dx, bz, ax);
    lemma_four(tz, dx, by, ax);
    lemma_four(tz, dy, bx, ax);
    lemma_four(dx, ty, az, bx);
    lemma_four(dx, tz, ay, bx);
}

} // verus!
