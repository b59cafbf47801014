//! RSI, MACD, and Bollinger bands.
//!
//! RSI follows Wilder's formulation on the trailing window of deltas and is
//! reported in hundredths of an index point, so `10_000` stands for `100`.
//! MACD is the difference of the 12- and 26-period EMAs with a 9-period
//! signal EMA, reported at the most recent index. Bollinger bands are the
//! rounded mean of the most recent window, plus and minus twice the floor
//! square root of its variance.

use vstd::prelude::*;

verus! {

use crate::arith::{lemma_round_div_bounds, lemma_sqrt_unique, round_div, round_div64, isqrt64};
use crate::averages::{ema_at, ema_core, lemma_ema_at_in_range, EMA_INPUT_LIMIT};
use crate::stats::{mean, sum_sq_dev_range, sum_range, variance};
use crate::types::{
    ints, series_ok, BollingerOutput, CalcError, MacdOutput, MAX_SERIES_LEN, VALUE_LIMIT,
};

/// RSI of exactly `100`, in hundredths.
pub const RSI_MAX: i64 = 10_000;

/// Successive differences of a series: `deltas(s)[i] == s[i+1] - s[i]`.
pub open spec fn deltas(s: Seq<int>) -> Seq<int>
    recommends
        s.len() >= 1,
{
    Seq::new((s.len() - 1) as nat, |i: int| s[i + 1] - s[i])
}

/// The positive part of `v`.
pub open spec fn pos_part(v: int) -> int {
    if v > 0 {
        v
    } else {
        0
    }
}

/// The magnitude of the negative part of `v`.
pub open spec fn neg_part(v: int) -> int {
    if v < 0 {
        -v
    } else {
        0
    }
}

/// Sum of the positive parts: the total gain.
pub open spec fn sum_pos(s: Seq<int>) -> int
    decreases s.len(),
{
    if s.len() == 0 {
        0
    } else {
        sum_pos(s.drop_last()) + pos_part(s.last())
    }
}

/// Sum of the negative parts' magnitudes: the total loss.
pub open spec fn sum_neg(s: Seq<int>) -> int
    decreases s.len(),
{
    if s.len() == 0 {
        0
    } else {
        sum_neg(s.drop_last()) + neg_part(s.last())
    }
}

/// When the RSI is defined: `p` positive and more than `p` observations,
/// so that the delta series has a full trailing window.
pub open spec fn rsi_err(s: Seq<int>, p: int) -> Option<CalcError> {
    if p <= 0 {
        Some(CalcError::InvalidPeriod)
    } else if s.len() <= p {
        Some(CalcError::InsufficientData)
    } else {
        None
    }
}

/// The trailing window of `p` deltas.
pub open spec fn rsi_window(s: Seq<int>, p: int) -> Seq<int>
    recommends
        1 <= p < s.len(),
{
    deltas(s).subrange(s.len() - 1 - p, s.len() - 1)
}

/// Wilder's RSI over the trailing delta window, scaled by `100`:
/// `100 - 100 / (1 + gain/loss)`, which is `100 * gain / (gain + loss)`,
/// and `100` itself when there is no loss.
pub open spec fn rsi_spec(s: Seq<int>, p: int) -> int
    recommends
        rsi_err(s, p) is None,
{
    let g = sum_pos(rsi_window(s, p));
    let l = sum_neg(rsi_window(s, p));
    if l == 0 {
        RSI_MAX as int
    } else {
        round_div((RSI_MAX as int) * g, g + l)
    }
}

pub proof fn lemma_sum_pos_push(s: Seq<int>, x: int)
    ensures
        sum_pos(s.push(x)) == sum_pos(s) + pos_part(x),
        sum_neg(s.push(x)) == sum_neg(s) + neg_part(x),
{
    assert(s.push(x).drop_last() =~= s);
}

/// When MACD is defined: at least as many observations as its slow EMA.
pub open spec fn macd_err(s: Seq<int>) -> Option<CalcError> {
    if s.len() < 26 {
        Some(CalcError::InsufficientData)
    } else {
        None
    }
}

/// The MACD line: fast EMA minus slow EMA.
pub open spec fn macd_line_at(s: Seq<int>, i: int) -> int
    recommends
        0 <= i < s.len(),
{
    ema_at(s, 12, i) - ema_at(s, 26, i)
}

/// The whole MACD line as a sequence.
pub open spec fn macd_line_seq(s: Seq<int>) -> Seq<int> {
    Seq::new(s.len(), |i: int| macd_line_at(s, i))
}

/// The signal line: the 9-period EMA of the MACD line.
pub open spec fn macd_signal_at(s: Seq<int>, i: int) -> int
    recommends
        0 <= i < s.len(),
{
    ema_at(macd_line_seq(s), 9, i)
}

/// When Bollinger bands are defined: `p` positive and within the series.
pub open spec fn boll_err(s: Seq<int>, p: int) -> Option<CalcError> {
    if p <= 0 {
        Some(CalcError::InvalidPeriod)
    } else if p > s.len() {
        Some(CalcError::InsufficientData)
    } else {
        None
    }
}

/// The most recent window of `p` observations.
pub open spec fn recent_window(s: Seq<int>, p: int) -> Seq<int>
    recommends
        1 <= p <= s.len(),
{
    s.subrange(s.len() - p, s.len() as int)
}

/// The middle band: the rounded mean of the most recent window.
pub open spec fn boll_middle(s: Seq<int>, p: int) -> int
    recommends
        1 <= p <= s.len(),
{
    mean(recent_window(s, p))
}

/// The band half-width base: floor square root of the window's variance.
pub open spec fn boll_sigma(s: Seq<int>, p: int) -> int
    recommends
        1 <= p <= s.len(),
{
    crate::arith::sqrt_floor(variance(recent_window(s, p)))
}

/// Relative strength index over the trailing window of `period` deltas,
/// in hundredths, always within `[0, 100 * 100]`.
pub fn rsi(data: &Vec<i64>, period: usize) -> (r: Result<i64, CalcError>)
    requires
        series_ok(data@),
    ensures
        match r {
            Ok(v) => {
                &&& rsi_err(ints(data@), period as int) is None
                &&& v as int == rsi_spec(ints(data@), period as int)
                &&& 0 <= v <= RSI_MAX
            },
            Err(e) => rsi_err(ints(data@), period as int) == Some(e),
        },
{
    if period == 0 {
        return Err(CalcError::InvalidPeriod);
    }
    let n = data.len();
    if n <= period {
        return Err(CalcError::InsufficientData);
    }
    let ghost sv = ints(data@);
    let ghost w = rsi_window(sv, period as int);
    let start = n - 1 - period;
    let mut g: i64 = 0;
    let mut l: i64 = 0;
    let mut k: usize = 0;
    while k < period
        invariant
            series_ok(data@),
            sv == ints(data@),
            w == rsi_window(sv, period as int),
            1 <= period < n,
            n == data@.len(),
            start == n - 1 - period,
            0 <= k <= period,
            g as int == sum_pos(w.subrange(0, k as int)),
            l as int == sum_neg(w.subrange(0, k as int)),
            0 <= g <= (k as int) * 20_000_000,
            0 <= l <= (k as int) * 20_000_000,
        decreases period - k,
    {
        let idx = start + k;
        let d: i64 = data[idx + 1] - data[idx];
        proof {
            assert(sv[idx as int] == data@[idx as int] as int);
            assert(sv[idx as int + 1] == data@[idx as int + 1] as int);
            assert(w[k as int] == d as int);
            assert(w.subrange(0, k as int + 1) =~= w.subrange(0, k as int).push(w[k as int]));
            lemma_sum_pos_push(w.subrange(0, k as int), w[k as int]);
        }
        if d > 0 {
            g = g + d;
        } else if d < 0 {
            l = l - d;
        }
        k = k + 1;
    }
    proof {
        assert(w.subrange(0, period as int) =~= w);
    }
    if l == 0 {
        Ok(RSI_MAX)
    } else {
        proof {
            assert((period as int) * 20_000_000 <= 200_000_000_000) by (nonlinear_arith)
                requires
                    0 <= period <= 10_000,
            ;
            lemma_round_div_bounds((RSI_MAX as int) * (g as int), g as int + l as int, 0, 10_000);
        }
        let v = round_div64(RSI_MAX * g, g + l);
        Ok(v)
    }
}

/// MACD at the most recent index: the 12/26 line, the 9-period signal over
/// the line, and the histogram, which is exactly their difference.
pub fn macd(data: &Vec<i64>) -> (r: Result<MacdOutput, CalcError>)
    requires
        series_ok(data@),
    ensures
        match r {
            Ok(m) => {
                &&& macd_err(ints(data@)) is None
                &&& m.line as int == macd_line_at(ints(data@), data@.len() - 1)
                &&& m.signal as int == macd_signal_at(ints(data@), data@.len() - 1)
                &&& m.histogram == m.line - m.signal
            },
            Err(e) => macd_err(ints(data@)) == Some(e),
        },
{
    let n = data.len();
    if n < 26 {
        return Err(CalcError::InsufficientData);
    }
    let ghost sv = ints(data@);
    proof {
        assert(forall|i: int| 0 <= i < sv.len() ==> -VALUE_LIMIT <= #[trigger] sv[i]
            <= VALUE_LIMIT);
    }
    let e12 = ema_core(data, 12);
    let e26 = ema_core(data, 26);
    let mut line: Vec<i64> = Vec::new();
    let mut i: usize = 0;
    while i < n
        invariant
            n == data@.len(),
            26 <= n <= MAX_SERIES_LEN,
            sv == ints(data@),
            forall|j: int| 0 <= j < sv.len() ==> -VALUE_LIMIT <= #[trigger] sv[j] <= VALUE_LIMIT,
            e12@.len() == n && e26@.len() == n,
            forall|j: int| 0 <= j < n ==> #[trigger] e12@[j] as int == ema_at(sv, 12, j),
            forall|j: int| 0 <= j < n ==> #[trigger] e26@[j] as int == ema_at(sv, 26, j),
            0 <= i <= n,
            line@.len() == i,
            forall|j: int| 0 <= j < i ==> #[trigger] line@[j] as int == macd_line_at(sv, j),
            forall|j: int| 0 <= j < i ==> -20_000_000 <= #[trigger] line@[j] <= 20_000_000,
        decreases n - i,
    {
        proof {
            lemma_ema_at_in_range(sv, 12, i as int, -(VALUE_LIMIT as int), VALUE_LIMIT as int);
            lemma_ema_at_in_range(sv, 26, i as int, -(VALUE_LIMIT as int), VALUE_LIMIT as int);
        }
        let v: i64 = e12[i] - e26[i];
        line.push(v);
        i = i + 1;
    }
    let ghost lv = ints(line@);
    proof {
        assert(lv =~= macd_line_seq(sv));
        assert(forall|j: int|
            0 <= j < line@.len() ==> -EMA_INPUT_LIMIT <= #[trigger] line@[j] <= EMA_INPUT_LIMIT);
    }
    let sig = ema_core(&line, 9);
    let line_last = line[n - 1];
    let sig_last = sig[n - 1];
    proof {
        assert(forall|j: int| 0 <= j < lv.len() ==> -20_000_000 <= #[trigger] lv[j] <= 20_000_000);
        lemma_ema_at_in_range(lv, 9, n - 1, -20_000_000, 20_000_000);
    }
    let hist: i64 = line_last - sig_last;
    Ok(MacdOutput { line: line_last, signal: sig_last, histogram: hist })
}

/// Bollinger bands over the most recent window: middle is the rounded mean,
/// upper and lower sit two floor-square-root standard deviations away, so
/// `upper >= middle >= lower` always holds.
pub fn bollinger(data: &Vec<i64>, period: usize) -> (r: Result<BollingerOutput, CalcError>)
    requires
        series_ok(data@),
    ensures
        match r {
            Ok(b) => {
                &&& boll_err(ints(data@), period as int) is None
                &&& b.middle as int == boll_middle(ints(data@), period as int)
                &&& b.upper as int == boll_middle(ints(data@), period as int) + 2 * boll_sigma(
                    ints(data@),
                    period as int,
                )
                &&& b.lower as int == boll_middle(ints(data@), period as int) - 2 * boll_sigma(
                    ints(data@),
                    period as int,
                )
                &&& b.lower <= b.middle <= b.upper
            },
            Err(e) => boll_err(ints(data@), period as int) == Some(e),
        },
{
    if period == 0 {
        return Err(CalcError::InvalidPeriod);
    }
    let n = data.len();
    if period > n {
        return Err(CalcError::InsufficientData);
    }
    let ghost sv = ints(data@);
    let ghost w = recent_window(sv, period as int);
    let from = n - period;
    proof {
        assert(w =~= sv.subrange(from as int, n as int));
        assert(forall|i: int| 0 <= i < w.len() ==> -VALUE_LIMIT <= #[trigger] w[i] <= VALUE_LIMIT);
        assert((period as int) * (VALUE_LIMIT as int) <= 100_000_000_000) by (nonlinear_arith)
            requires
                0 <= period <= 10_000,
        ;
        assert((period as int) * 400_000_000_000_000 <= 4_000_000_000_000_000_000)
            by (nonlinear_arith)
            requires
                0 <= period <= 10_000,
        ;
    }
    let total = sum_range(data, from, n);
    let m = round_div64(total, period as i64);
    proof {
        crate::stats::lemma_mean_bounds(w, -(VALUE_LIMIT as int), VALUE_LIMIT as int);
    }
    let ssd = sum_sq_dev_range(data, from, n, m);
    let var = round_div64(ssd, period as i64);
    proof {
        lemma_round_div_bounds(ssd as int, period as int, 0, 400_000_000_000_000);
    }
    let rt = isqrt64(var as u64);
    proof {
        assert(rt <= 20_000_000) by (nonlinear_arith)
            requires
                0 <= rt,
                (rt as int) * (rt as int) <= 400_000_000_000_000,
        ;
        lemma_sqrt_unique(var as int, rt as int);
    }
    let sigma: i64 = rt as i64;
    let upper: i64 = m + 2 * sigma;
    let lower: i64 = m - 2 * sigma;
    Ok(BollingerOutput { upper, middle: m, lower })
}

} // verus!
