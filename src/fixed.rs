//! Signed fixed-point numbers with 56 fractional bits.
use vstd::arithmetic::div_mod::{lemma_div_pos_is_pos, lemma_multiply_divide_le};
use vstd::prelude::*;

verus! {

/// The value 1.0: a fixed-point number `v` stands for the real `v / ONE`.
pub const ONE: i64 = 72057594037927936;

/// Integer division rounding toward zero, as Rust's `/` rounds.
pub open spec fn trunc_div(n: int, d: int) -> int {
    if n >= 0 {
        n / d
    } else {
        -((-n) / d)
    }
}

/// Product of two fixed-point numbers whose raw product is `n`: `n / ONE`,
/// rounded toward zero.
pub fn div_one(n: i128) -> (r: i128)
    requires
        n > i128::MIN,
    ensures
        r == trunc_div(n as int, ONE as int),
{
    if n >= 0 {
        n / (ONE as i128)
    } else {
        -((-n) / (ONE as i128))
    }
}

/// Dividing by `ONE` keeps a bound of `k * ONE` as a bound of `k`.
pub proof fn lemma_trunc_div_bound(n: int, k: int)
    requires
        k >= 0,
        -k * ONE <= n <= k * ONE,
    ensures
        -k <= trunc_div(n, ONE as int) <= k,
{
    if n >= 0 {
        lemma_multiply_divide_le(n, ONE as int, k);
        lemma_div_pos_is_pos(n, ONE as int);
    } else {
        lemma_multiply_divide_le(-n, ONE as int, k);
        lemma_div_pos_is_pos(-n, ONE as int);
    }
}

/// A component of magnitude above `2 * ONE` already puts a point outside the
/// disk of radius two.
pub proof fn lemma_square_above(x: int, s: int)
    requires
        s > 0,
        x > 2 * s || x < -2 * s,
    ensures
        x * x > 4 * s * s,
{
    if x > 2 * s {
        assert(x * x > 4 * s * s) by (nonlinear_arith)
            requires
                x > 2 * s,
                s > 0,
        ;
    } else {
        assert(x * x > 4 * s * s) by (nonlinear_arith)
            requires
                x < -2 * s,
                s > 0,
        ;
    }
}

/// Inside the disk of radius two, both components lie in `[-2 * ONE, 2 * ONE]`.
pub proof fn lemma_disk_components(x: int, y: int, s: int)
    requires
        s > 0,
        x * x + y * y <= 4 * s * s,
    ensures
        -2 * s <= x <= 2 * s,
        -2 * s <= y <= 2 * s,
{
    assert(y * y >= 0) by (nonlinear_arith);
    assert(x * x >= 0) by (nonlinear_arith);
    if x > 2 * s || x < -2 * s {
        lemma_square_above(x, s);
    }
    if y > 2 * s || y < -2 * s {
        lemma_square_above(y, s);
    }
}

} // verus!
