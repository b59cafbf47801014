//! Simple and exponential moving averages.
//!
//! The SMA of period `p` maps a series of length `n` to the `n - p + 1`
//! rounded means of its windows. The EMA follows the recurrence
//! `ema[0] = x[0]`, `ema[i] = ema[i-1] + round((2 * (x[i] - ema[i-1])) / (p + 1))`,
//! the fixed-point form of `ema[i] = a*x[i] + (1-a)*ema[i-1]` with
//! `a = 2 / (p + 1)`, written so that a constant series stays constant.

use vstd::prelude::*;

verus! {

use crate::arith::{
    lemma_round_div_bounds, lemma_round_div_exact, lemma_round_div_small, round_div, round_div64,
};
use crate::stats::mean;
use crate::types::{ints, series_ok, CalcError, MAX_SERIES_LEN, VALUE_LIMIT};

/// Largest magnitude the EMA loop accepts; wide enough for raw series and
/// for MACD lines, which are differences of two EMAs.
pub const EMA_INPUT_LIMIT: i64 = 100_000_000;

/// From this period on, the smoothing adjustment provably rounds to zero,
/// so the loop need not form the `i64` denominator at all.
const EMA_FLAT_PERIOD: usize = 1_000_000_000;

/// When the SMA is defined: `p` must be positive and no window may be empty.
pub open spec fn sma_err(s: Seq<int>, p: int) -> Option<CalcError> {
    if p <= 0 {
        Some(CalcError::InvalidPeriod)
    } else if p > s.len() {
        Some(CalcError::InsufficientData)
    } else {
        None
    }
}

/// Entry `i` of the SMA: the rounded mean of the window starting at `i`.
pub open spec fn sma_at(s: Seq<int>, p: int, i: int) -> int
    recommends
        1 <= p,
        0 <= i,
        i + p <= s.len(),
{
    mean(s.subrange(i, i + p))
}

/// One EMA step with smoothing factor `2 / (p + 1)`.
pub open spec fn ema_step(prev: int, x: int, p: int) -> int
    recommends
        p >= 1,
{
    prev + round_div(2 * (x - prev), p + 1)
}

/// Entry `i` of the EMA recurrence over `s`.
pub open spec fn ema_at(s: Seq<int>, p: int, i: int) -> int
    recommends
        p >= 1,
        0 <= i < s.len(),
    decreases i,
{
    if i <= 0 {
        s[0]
    } else {
        ema_step(ema_at(s, p, i - 1), s[i], p)
    }
}

/// When the EMA is defined: `p` must be positive and the series non-empty.
pub open spec fn ema_err(s: Seq<int>, p: int) -> Option<CalcError> {
    if p <= 0 {
        Some(CalcError::InvalidPeriod)
    } else if s.len() == 0 {
        Some(CalcError::InsufficientData)
    } else {
        None
    }
}

/// An EMA step lands between its two inputs.
pub proof fn lemma_ema_step_between(prev: int, x: int, p: int)
    requires
        p >= 1,
    ensures
        prev <= x ==> prev <= ema_step(prev, x, p) <= x,
        x <= prev ==> x <= ema_step(prev, x, p) <= prev,
{
    let d = x - prev;
    let q = p + 1;
    if d >= 0 {
        assert(0 * q <= 2 * d && 2 * d <= d * q) by (nonlinear_arith)
            requires
                q >= 2,
                d >= 0,
        ;
        lemma_round_div_bounds(2 * d, q, 0, d);
    } else {
        assert(d * q <= 2 * d && 2 * d <= 0 * q) by (nonlinear_arith)
            requires
                q >= 2,
                d <= 0,
        ;
        lemma_round_div_bounds(2 * d, q, d, 0);
    }
}

/// Every EMA entry stays within any range that holds the whole series.
pub proof fn lemma_ema_at_in_range(s: Seq<int>, p: int, i: int, lo: int, hi: int)
    requires
        p >= 1,
        0 <= i < s.len(),
        forall|j: int| 0 <= j < s.len() ==> lo <= #[trigger] s[j] <= hi,
    ensures
        lo <= ema_at(s, p, i) <= hi,
    decreases i,
{
    if i <= 0 {
    } else {
        lemma_ema_at_in_range(s, p, i - 1, lo, hi);
        lemma_ema_step_between(ema_at(s, p, i - 1), s[i], p);
    }
}

proof fn lemma_ema_at_constant(s: Seq<int>, p: int, c: int, i: int)
    requires
        p >= 1,
        0 <= i < s.len(),
        forall|j: int| 0 <= j < s.len() ==> #[trigger] s[j] == c,
    ensures
        ema_at(s, p, i) == c,
    decreases i,
{
    if i <= 0 {
    } else {
        lemma_ema_at_constant(s, p, c, i - 1);
        lemma_round_div_exact(0, p + 1);
    }
}

/// The EMA of a constant series is that same constant at every index, for
/// any positive period.
pub proof fn lemma_ema_of_constant_series(s: Seq<int>, p: int, c: int)
    requires
        p >= 1,
        forall|j: int| 0 <= j < s.len() ==> #[trigger] s[j] == c,
    ensures
        forall|i: int| 0 <= i < s.len() ==> #[trigger] ema_at(s, p, i) == c,
{
    assert forall|i: int| 0 <= i < s.len() implies #[trigger] ema_at(s, p, i) == c by {
        lemma_ema_at_constant(s, p, c, i);
    }
}

/// Simple moving average: the rounded mean of every window of size
/// `period`, oldest window first.
pub fn sma(data: &Vec<i64>, period: usize) -> (r: Result<Vec<i64>, CalcError>)
    requires
        series_ok(data@),
    ensures
        match r {
            Ok(out) => {
                &&& sma_err(ints(data@), period as int) is None
                &&& out@.len() == data@.len() - period + 1
                &&& forall|i: int|
                    0 <= i < out@.len() ==> #[trigger] out@[i] as int == sma_at(
                        ints(data@),
                        period as int,
                        i,
                    )
            },
            Err(e) => sma_err(ints(data@), period as int) == Some(e),
        },
{
    if period == 0 {
        return Err(CalcError::InvalidPeriod);
    }
    let n = data.len();
    if period > n {
        return Err(CalcError::InsufficientData);
    }
    let ghost sv = ints(data@);
    let count = n - period + 1;
    let mut out: Vec<i64> = Vec::new();
    let mut i: usize = 0;
    while i < count
        invariant
            series_ok(data@),
            sv == ints(data@),
            1 <= period <= n,
            n == data@.len(),
            count == n - period + 1,
            0 <= i <= count,
            out@.len() == i,
            forall|j: int|
                0 <= j < i ==> #[trigger] out@[j] as int == sma_at(sv, period as int, j),
        decreases count - i,
    {
        let wsum = crate::stats::sum_range(data, i, i + period);
        proof {
            assert((period as int) * (VALUE_LIMIT as int) <= 100_000_000_000) by (nonlinear_arith)
                requires
                    0 <= period <= 10_000,
            ;
        }
        let m = round_div64(wsum, period as i64);
        out.push(m);
        i = i + 1;
    }
    Ok(out)
}

/// The EMA recurrence itself, shared by `ema` and by MACD, which runs it
/// over both the raw series and the MACD line.
pub(crate) fn ema_core(data: &Vec<i64>, period: usize) -> (out: Vec<i64>)
    requires
        1 <= period,
        1 <= data@.len() <= MAX_SERIES_LEN,
        forall|i: int|
            0 <= i < data@.len() ==> -EMA_INPUT_LIMIT <= #[trigger] data@[i] <= EMA_INPUT_LIMIT,
    ensures
        out@.len() == data@.len(),
        forall|i: int|
            0 <= i < out@.len() ==> #[trigger] out@[i] as int == ema_at(
                ints(data@),
                period as int,
                i,
            ),
{
    let ghost sv = ints(data@);
    proof {
        assert(forall|i: int|
            0 <= i < sv.len() ==> -EMA_INPUT_LIMIT <= #[trigger] sv[i] <= EMA_INPUT_LIMIT);
    }
    let n = data.len();
    let mut prev: i64 = data[0];
    let mut out: Vec<i64> = Vec::new();
    out.push(prev);
    let mut k: usize = 1;
    while k < n
        invariant
            1 <= period,
            n == data@.len(),
            1 <= n <= MAX_SERIES_LEN,
            sv == ints(data@),
            forall|i: int|
                0 <= i < data@.len() ==> -EMA_INPUT_LIMIT <= #[trigger] data@[i]
                    <= EMA_INPUT_LIMIT,
            forall|i: int|
                0 <= i < sv.len() ==> -EMA_INPUT_LIMIT <= #[trigger] sv[i] <= EMA_INPUT_LIMIT,
            1 <= k <= n,
            -EMA_INPUT_LIMIT <= prev <= EMA_INPUT_LIMIT,
            prev as int == ema_at(sv, period as int, k - 1),
            out@.len() == k,
            forall|i: int|
                0 <= i < k ==> #[trigger] out@[i] as int == ema_at(sv, period as int, i),
        decreases n - k,
    {
        let x = data[k];
        let d: i64 = x - prev;
        let adj: i64 = if period >= EMA_FLAT_PERIOD {
            proof {
                lemma_round_div_small(2 * (d as int), period as int + 1);
            }
            0
        } else {
            let pd: i64 = (period as i64) + 1;
            round_div64(2 * d, pd)
        };
        proof {
            lemma_ema_step_between(prev as int, x as int, period as int);
        }
        let next: i64 = prev + adj;
        out.push(next);
        prev = next;
        k = k + 1;
    }
    out
}

/// Exponential moving average with smoothing factor `2 / (period + 1)`,
/// seeded with the first observation; one entry per observation.
pub fn ema(data: &Vec<i64>, period: usize) -> (r: Result<Vec<i64>, CalcError>)
    requires
        series_ok(data@),
    ensures
        match r {
            Ok(out) => {
                &&& ema_err(ints(data@), period as int) is None
                &&& out@.len() == data@.len()
                &&& forall|i: int|
                    0 <= i < out@.len() ==> #[trigger] out@[i] as int == ema_at(
                        ints(data@),
                        period as int,
                        i,
                    )
            },
            Err(e) => ema_err(ints(data@), period as int) == Some(e),
        },
{
    if period == 0 {
        return Err(CalcError::InvalidPeriod);
    }
    if data.len() == 0 {
        return Err(CalcError::InsufficientData);
    }
    Ok(ema_core(data, period))
}

} // verus!
