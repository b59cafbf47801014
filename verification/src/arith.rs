//! Rounded integer division and integer square root.
//!
//! The indicator formulas divide sums by window sizes and take square roots
//! of variances. On fixed-point values both are done in integers: division
//! rounds to the nearest integer (halves away from zero), and the square
//! root is the floor square root.

use vstd::prelude::*;

verus! {

use vstd::arithmetic::div_mod::{
    lemma_basic_div, lemma_div_is_ordered, lemma_div_multiples_vanish, lemma_div_nonincreasing,
    lemma_hoist_over_denominator,
};

/// Quotient `a / b` rounded to the nearest integer, halves away from zero.
pub open spec fn round_div(a: int, b: int) -> int
    recommends
        b >= 1,
{
    if a >= 0 {
        (a + b / 2) / b
    } else {
        -((-a + b / 2) / b)
    }
}

/// `r` is the floor square root of `v`.
pub open spec fn is_sqrt(v: int, r: int) -> bool {
    r >= 0 && r * r <= v && v < (r + 1) * (r + 1)
}

/// The floor square root of `v`, for `v >= 0`.
pub open spec fn sqrt_floor(v: int) -> int {
    choose|r: int| is_sqrt(v, r)
}

proof fn lemma_nonneg_round_div_bounds(a: int, b: int, lo: int, hi: int)
    requires
        b >= 1,
        a >= 0,
        lo * b <= a,
        a <= hi * b,
    ensures
        lo <= (a + b / 2) / b <= hi,
{
    let h = b / 2;
    assert(0 <= h < b);
    assert((a + h) / b <= hi) by {
        lemma_div_is_ordered(a + h, hi * b + h, b);
        lemma_hoist_over_denominator(h, hi, b as nat);
        lemma_basic_div(h, b);
    }
    assert(lo <= (a + h) / b) by {
        lemma_div_is_ordered(lo * b, a + h, b);
        lemma_div_multiples_vanish(lo, b);
        assert(b * lo == lo * b);
    }
}

/// If `lo * b <= a <= hi * b` then the rounded quotient of `a` by `b`
/// lies between `lo` and `hi`.
pub proof fn lemma_round_div_bounds(a: int, b: int, lo: int, hi: int)
    requires
        b >= 1,
        lo * b <= a,
        a <= hi * b,
    ensures
        lo <= round_div(a, b) <= hi,
{
    if a >= 0 {
        lemma_nonneg_round_div_bounds(a, b, lo, hi);
    } else {
        assert((-hi) * b == -(hi * b)) by (nonlinear_arith);
        assert((-lo) * b == -(lo * b)) by (nonlinear_arith);
        lemma_nonneg_round_div_bounds(-a, b, -hi, -lo);
    }
}

/// A quotient whose doubled numerator is smaller in magnitude than the
/// divisor rounds to zero.
pub proof fn lemma_round_div_small(a: int, b: int)
    requires
        b >= 1,
        2 * a < b,
        -2 * a < b,
    ensures
        round_div(a, b) == 0,
{
    vstd::arithmetic::div_mod::lemma_fundamental_div_mod(b, 2);
    assert(b == 2 * (b / 2) + b % 2);
    if a >= 0 {
        assert(0 <= a + b / 2 < b);
        lemma_basic_div(a + b / 2, b);
    } else {
        assert(0 <= -a + b / 2 < b);
        lemma_basic_div(-a + b / 2, b);
    }
}

/// Rounded division is exact on multiples of the divisor.
pub proof fn lemma_round_div_exact(c: int, b: int)
    requires
        b >= 1,
    ensures
        round_div(c * b, b) == c,
{
    lemma_round_div_bounds(c * b, b, c, c);
}

/// The floor square root is unique, so any witness determines `sqrt_floor`.
pub proof fn lemma_sqrt_unique(v: int, r: int)
    requires
        is_sqrt(v, r),
    ensures
        sqrt_floor(v) == r,
{
    let c = sqrt_floor(v);
    assert(is_sqrt(v, c)) by {
        assert(exists|x: int| is_sqrt(v, x)) by {
            assert(is_sqrt(v, r));
        }
    }
    assert(c == r) by {
        if c < r {
            assert((c + 1) * (c + 1) <= r * r) by (nonlinear_arith)
                requires
                    0 <= c + 1 <= r,
            ;
        }
        if r < c {
            assert((r + 1) * (r + 1) <= c * c) by (nonlinear_arith)
                requires
                    0 <= r + 1 <= c,
            ;
        }
    }
}

/// Rounded division on `i64` operands.
pub fn round_div64(a: i64, b: i64) -> (r: i64)
    requires
        1 <= b <= 4_000_000_000_000_000_000,
        -4_000_000_000_000_000_000 <= a <= 4_000_000_000_000_000_000,
    ensures
        r == round_div(a as int, b as int),
{
    let bu: u64 = b as u64;
    let half: u64 = bu / 2;
    if a >= 0 {
        let au: u64 = a as u64;
        let q: u64 = (au + half) / bu;
        proof {
            lemma_div_nonincreasing((au + half) as int, bu as int);
        }
        q as i64
    } else {
        let au: u64 = (-a) as u64;
        let q: u64 = (au + half) / bu;
        proof {
            lemma_div_nonincreasing((au + half) as int, bu as int);
        }
        -(q as i64)
    }
}

/// Rounded division on `i128` operands, for wide intermediate values.
pub fn round_div128(a: i128, b: i128) -> (r: i128)
    requires
        1 <= b <= 4_000_000_000_000_000_000,
        -100_000_000_000_000_000_000_000_000 <= a <= 100_000_000_000_000_000_000_000_000,
    ensures
        r == round_div(a as int, b as int),
{
    let bu: u128 = b as u128;
    let half: u128 = bu / 2;
    if a >= 0 {
        let au: u128 = a as u128;
        let q: u128 = (au + half) / bu;
        proof {
            lemma_div_nonincreasing((au + half) as int, bu as int);
        }
        q as i128
    } else {
        let au: u128 = (-a) as u128;
        let q: u128 = (au + half) / bu;
        proof {
            lemma_div_nonincreasing((au + half) as int, bu as int);
        }
        -(q as i128)
    }
}

/// Floor square root of `v` by bisection.
pub fn isqrt64(v: u64) -> (r: u64)
    requires
        v <= 4_000_000_000_000_000_000,
    ensures
        is_sqrt(v as int, r as int),
{
    let mut lo: u64 = 0;
    let mut hi: u64 = 2_000_000_001;
    proof {
        assert(v < 2_000_000_001 * 2_000_000_001) by (nonlinear_arith)
            requires
                v <= 4_000_000_000_000_000_000,
        ;
    }
    while lo + 1 < hi
        invariant
            lo < hi <= 2_000_000_001,
            v <= 4_000_000_000_000_000_000,
            lo * lo <= v,
            v < hi * hi,
        decreases hi - lo,
    {
        let mid: u64 = lo + (hi - lo) / 2;
        assert(lo < mid < hi);
        assert(mid * mid <= 2_000_000_000 * 2_000_000_000) by (nonlinear_arith)
            requires
                0 <= mid <= 2_000_000_000,
        ;
        let sq: u64 = mid * mid;
        if sq <= v {
            lo = mid;
        } else {
            hi = mid;
        }
    }
    lo
}

} // verus!
