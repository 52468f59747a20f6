//! Fixed-point scalar arithmetic: scaling constants, truncating division
//! (the quotient rounds toward zero, as hardware division does) and the
//! integer square root, with exact contracts.

use vstd::prelude::*;
use vstd::arithmetic::div_mod::{
    lemma_basic_div, lemma_div_by_multiple, lemma_div_is_ordered, lemma_div_pos_is_pos,
    lemma_remainder,
};

verus! {

/// A stored scalar `v` stands for the real number `v / SCALE`.
pub const SCALE: i64 = 100_000_000;

/// Largest magnitude admitted for a position or velocity component.
pub const COORD_MAX: i64 = 4_000_000_000;

/// Largest admitted mass.
pub const MASS_MAX: i64 = 1_000_000_000;

/// Largest admitted timestep (and timestep ceiling).
pub const DT_MAX: i64 = 8_000_000_000;

/// Largest admitted gravitational constant.
pub const G_MAX: i64 = 16_000_000;

/// Largest admitted number of bodies in a system.
pub const N_MAX: usize = 128;

/// Largest admitted number of integration steps in one run.
pub const STEPS_MAX: usize = 1_000_000;

/// Near-zero velocity floor for the timestep estimator: a body whose speed
/// is at or below this many quanta constrains no pair.
pub const VEL_FLOOR: u64 = 0;

/// Division that truncates toward zero, on mathematical integers.
/// For `a >= 0` it agrees with Euclidean division; for `a < 0` it negates
/// the quotient of the magnitudes.
pub open spec fn tdiv(a: int, d: int) -> int
    recommends
        d > 0,
{
    if a >= 0 {
        a / d
    } else {
        -((-a) / d)
    }
}

/// Truncating division of zero, or of anything smaller than the divisor,
/// is zero.
pub proof fn lemma_tdiv_small(a: int, d: int)
    requires
        d > 0,
        -d < a < d,
    ensures
        tdiv(a, d) == 0,
{
    if a >= 0 {
        lemma_basic_div(a, d);
    } else {
        lemma_basic_div(-a, d);
    }
}

/// Truncating division is antisymmetric in the dividend.
pub proof fn lemma_tdiv_neg(a: int, d: int)
    requires
        d > 0,
    ensures
        tdiv(-a, d) == -tdiv(a, d),
{
    if a == 0 {
        lemma_basic_div(0, d);
    }
}

/// A dividend bounded by `c` multiples of the divisor gives a quotient
/// bounded by `c`.
pub proof fn lemma_tdiv_bound(a: int, d: int, c: int)
    requires
        d > 0,
        c >= 0,
        -(c * d) <= a <= c * d,
    ensures
        -c <= tdiv(a, d) <= c,
{
    if a >= 0 {
        lemma_div_pos_is_pos(a, d);
        lemma_div_is_ordered(a, c * d, d);
        lemma_div_by_multiple(c, d);
    } else {
        lemma_div_pos_is_pos(-a, d);
        lemma_div_is_ordered(-a, c * d, d);
        lemma_div_by_multiple(c, d);
    }
}

/// The truncated quotient accounts for the dividend up to a remainder
/// smaller than the divisor and of the dividend's sign.
pub proof fn lemma_tdiv_rem(a: int, d: int)
    requires
        d > 0,
    ensures
        -d < a - tdiv(a, d) * d < d,
        a >= 0 ==> a - tdiv(a, d) * d >= 0,
        a <= 0 ==> a - tdiv(a, d) * d <= 0,
{
    if a >= 0 {
        lemma_remainder(a, d);
    } else {
        lemma_remainder(-a, d);
        assert(0 <= -a - ((-a) / d) * d < d);
        assert(tdiv(a, d) * d == -(((-a) / d) * d)) by (nonlinear_arith)
            requires
                d > 0,
                a < 0,
                tdiv(a, d) == -((-a) / d),
        ;
    }
}

/// Truncating division of an `i64` by a positive `i64`.
pub fn div_trunc(a: i64, d: i64) -> (q: i64)
    requires
        d > 0,
        a > i64::MIN,
    ensures
        q == tdiv(a as int, d as int),
{
    if a >= 0 {
        ((a as u64) / (d as u64)) as i64
    } else {
        let m: u64 = (-a) as u64;
        let mq: u64 = m / (d as u64);
        proof {
            lemma_div_pos_is_pos(m as int, d as int);
            vstd::arithmetic::div_mod::lemma_div_nonincreasing(m as int, d as int);
        }
        -(mq as i64)
    }
}

/// Truncating division of an `i128` by a positive `i128`.
pub fn div_trunc_wide(a: i128, d: i128) -> (q: i128)
    requires
        d > 0,
        a > i128::MIN,
    ensures
        q == tdiv(a as int, d as int),
{
    if a >= 0 {
        ((a as u128) / (d as u128)) as i128
    } else {
        let m: u128 = (-a) as u128;
        let mq: u128 = m / (d as u128);
        proof {
            lemma_div_pos_is_pos(m as int, d as int);
            vstd::arithmetic::div_mod::lemma_div_nonincreasing(m as int, d as int);
        }
        -(mq as i128)
    }
}

/// `r` is the integer square root of `n`: the largest integer whose square
/// does not exceed `n`.
pub open spec fn is_sqrt_floor(n: int, r: int) -> bool {
    0 <= r && r * r <= n && n < (r + 1) * (r + 1)
}

/// The integer square root of a non-negative integer.
pub open spec fn sqrt_floor(n: int) -> int {
    choose|r: int| is_sqrt_floor(n, r)
}

/// Two integer square roots of the same value coincide.
proof fn lemma_sqrt_floor_unique_raw(n: int, r: int, s: int)
    by (nonlinear_arith)
    requires
        0 <= r,
        r * r <= n,
        n < (r + 1) * (r + 1),
        0 <= s,
        s * s <= n,
        n < (s + 1) * (s + 1),
    ensures
        r == s,
{
}

/// A witness to `is_sqrt_floor` pins `sqrt_floor` down.
pub proof fn lemma_sqrt_floor_is(n: int, r: int)
    requires
        is_sqrt_floor(n, r),
    ensures
        sqrt_floor(n) == r,
{
    assert(exists|q: int| is_sqrt_floor(n, q));
    let s = sqrt_floor(n);
    assert(is_sqrt_floor(n, s));
    lemma_sqrt_floor_unique_raw(n, r, s);
}

/// Integer square root of a `u128`, by binary search.
pub fn isqrt(n: u128) -> (r: u64)
    ensures
        is_sqrt_floor(n as int, r as int),
        r == sqrt_floor(n as int),
{
    let mut lo: u128 = 0;
    let mut hi: u128 = 0x1_0000_0000_0000_0000;
    proof {
        assert((n as int) < (hi as int) * (hi as int)) by (nonlinear_arith)
            requires
                n <= u128::MAX,
                hi == 0x1_0000_0000_0000_0000u128,
        ;
    }
    while lo + 1 < hi
        invariant
            lo < hi <= 0x1_0000_0000_0000_0000,
            (lo as int) * (lo as int) <= n as int,
            (n as int) < (hi as int) * (hi as int),
        decreases hi - lo,
    {
        let mid: u128 = lo + (hi - lo) / 2;
        assert(lo < mid < hi);
        assert((mid as int) * (mid as int) <= u128::MAX as int) by (nonlinear_arith)
            requires
                mid < 0x1_0000_0000_0000_0000u128,
        ;
        if mid * mid <= n {
            lo = mid;
        } else {
            hi = mid;
        }
    }
    proof {
        assert(hi == lo + 1);
        assert((lo as int) < 0x1_0000_0000_0000_0000int);
        lemma_sqrt_floor_is(n as int, lo as int);
    }
    lo as u64
}

} // verus!
