//! Fixed-point curve space: coordinates are integer counts of a small unit,
//! `SCALE` of which make one curve-space unit. Division rounds toward zero.

use vstd::prelude::*;
use vstd::arithmetic::div_mod::{
    lemma_div_is_ordered, lemma_div_nonincreasing, lemma_div_pos_is_pos, lemma_div_by_multiple,
};

verus! {

/// Units per curve-space unit: a coordinate of `SCALE` means 1.0 in curve space.
pub const SCALE: i64 = 1_000_000;

/// Largest magnitude allowed for a knot coordinate or tangent component, in units.
pub const KNOT_BOUND: i64 = 1_000_000_000_000;

/// Largest magnitude a Bezier control-point component can reach: a knot
/// position plus a corrected tangent, each bounded by `KNOT_BOUND`, with the
/// tangent clamp never more than doubling a reach.
pub const CP_BOUND: i64 = 3_000_000_000_000;

/// The Newton parameter is kept within `[-T_LIMIT, T_LIMIT]` (16 curve-space
/// units in `SCALE` units), which keeps every polynomial evaluation in range.
pub const T_LIMIT: i64 = 16_000_000;

/// Truncating (round-toward-zero) division, as the `/` of the executable
/// integer types computes it; meaningful for positive divisors.
pub open spec fn div_trunc(a: int, b: int) -> int
    recommends
        b >= 1,
{
    if a >= 0 {
        a / b
    } else {
        -((-a) / b)
    }
}

/// Truncating division stays within any symmetric bound `b * q` on the dividend.
pub proof fn lemma_div_trunc_le(a: int, b: int, q: int)
    requires
        b >= 1,
        0 <= q,
        -(b * q) <= a <= b * q,
    ensures
        -q <= div_trunc(a, b) <= q,
{
    if a >= 0 {
        lemma_div_pos_is_pos(a, b);
        lemma_div_is_ordered(a, b * q, b);
        lemma_div_by_multiple(q, b);
        assert(b * q == q * b) by (nonlinear_arith);
    } else {
        lemma_div_pos_is_pos(-a, b);
        lemma_div_is_ordered(-a, b * q, b);
        lemma_div_by_multiple(q, b);
        assert(b * q == q * b) by (nonlinear_arith);
    }
}

/// Dividing an exact multiple recovers the factor.
pub proof fn lemma_div_trunc_exact(k: int, b: int)
    requires
        b >= 1,
    ensures
        div_trunc(k * b, b) == k,
{
    if k >= 0 {
        lemma_div_by_multiple(k, b);
    } else {
        lemma_div_by_multiple(-k, b);
        assert(-(k * b) == (-k) * b) by (nonlinear_arith);
    }
}

/// Truncating division of an `i128` by a positive divisor.
pub fn div_q(a: i128, b: i128) -> (q: i128)
    requires
        1 <= b,
    ensures
        q == div_trunc(a as int, b as int),
{
    proof {
        if a >= 0 {
            lemma_div_pos_is_pos(a as int, b as int);
            lemma_div_nonincreasing(a as int, b as int);
        } else {
            lemma_div_pos_is_pos(-(a as int), b as int);
            lemma_div_nonincreasing(-(a as int), b as int);
        }
    }
    a / b
}

} // verus!
