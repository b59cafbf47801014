//! Sums, means, deviations, and the two statistical custom calculations:
//! population volatility and the correlation coefficient.
//!
//! All sums are over the mathematical-integer views of the fixed-point
//! series; the mean and the variance round to the nearest integer, the
//! standard deviation is the floor square root of the variance.

use vstd::prelude::*;

verus! {

use crate::arith::{
    isqrt64, lemma_round_div_bounds, lemma_sqrt_unique, round_div, round_div128, round_div64,
    sqrt_floor,
};
use crate::types::{ints, series_ok, CalcError, MAX_SERIES_LEN, VALUE_LIMIT};

/// Scale of a correlation coefficient: `10_000` stands for `1.0`.
pub const CORR_SCALE: i64 = 10_000;

/// Sum of a sequence of integers.
pub open spec fn seq_sum(s: Seq<int>) -> int
    decreases s.len(),
{
    if s.len() == 0 {
        0
    } else {
        seq_sum(s.drop_last()) + s.last()
    }
}

/// Mean of a non-empty sequence, rounded to the nearest integer.
pub open spec fn mean(s: Seq<int>) -> int
    recommends
        s.len() >= 1,
{
    round_div(seq_sum(s), s.len() as int)
}

/// Sum of squared deviations from `m`.
pub open spec fn sum_sq_dev(s: Seq<int>, m: int) -> int
    decreases s.len(),
{
    if s.len() == 0 {
        0
    } else {
        sum_sq_dev(s.drop_last(), m) + (s.last() - m) * (s.last() - m)
    }
}

/// Sum of cross products of deviations from `mx` and `my`.
pub open spec fn sum_cross_dev(x: Seq<int>, y: Seq<int>, mx: int, my: int) -> int
    recommends
        x.len() == y.len(),
    decreases x.len(),
{
    if x.len() == 0 {
        0
    } else {
        sum_cross_dev(x.drop_last(), y.drop_last(), mx, my) + (x.last() - mx) * (y.last() - my)
    }
}

/// Population variance of a non-empty sequence, rounded to the nearest
/// integer: the rounded mean of squared deviations from the rounded mean.
pub open spec fn variance(s: Seq<int>) -> int
    recommends
        s.len() >= 1,
{
    round_div(sum_sq_dev(s, mean(s)), s.len() as int)
}

/// When volatility is defined: it needs a non-empty series.
pub open spec fn vol_err(s: Seq<int>) -> Option<CalcError> {
    if s.len() == 0 {
        Some(CalcError::InsufficientData)
    } else {
        None
    }
}

/// Population standard deviation: floor square root of the variance.
pub open spec fn volatility_spec(s: Seq<int>) -> int
    recommends
        s.len() >= 1,
{
    sqrt_floor(variance(s))
}

/// When correlation is defined: the series must have equal non-zero length
/// and neither may have zero variance.
pub open spec fn corr_err(x: Seq<int>, y: Seq<int>) -> Option<CalcError> {
    if x.len() != y.len() || x.len() == 0 {
        Some(CalcError::InsufficientData)
    } else if sum_sq_dev(x, mean(x)) == 0 || sum_sq_dev(y, mean(y)) == 0 {
        Some(CalcError::CalculatorFailure)
    } else {
        None
    }
}

/// `v` cut to `[-lim, lim]`.
pub open spec fn clip(v: int, lim: int) -> int {
    if v > lim {
        lim
    } else if v < -lim {
        -lim
    } else {
        v
    }
}

/// Correlation coefficient scaled by `CORR_SCALE`: the cross deviation sum
/// over the product of the floor square roots of the deviation sums, cut to
/// `[-CORR_SCALE, CORR_SCALE]` since the rounded denominator may undershoot.
pub open spec fn correlation_spec(x: Seq<int>, y: Seq<int>) -> int
    recommends
        corr_err(x, y) is None,
{
    let cov = sum_cross_dev(x, y, mean(x), mean(y));
    let sx = sqrt_floor(sum_sq_dev(x, mean(x)));
    let sy = sqrt_floor(sum_sq_dev(y, mean(y)));
    clip(round_div(CORR_SCALE * cov, sx * sy), CORR_SCALE as int)
}

pub proof fn lemma_seq_sum_push(s: Seq<int>, x: int)
    ensures
        seq_sum(s.push(x)) == seq_sum(s) + x,
{
    assert(s.push(x).drop_last() =~= s);
}

pub proof fn lemma_sum_sq_dev_push(s: Seq<int>, x: int, m: int)
    ensures
        sum_sq_dev(s.push(x), m) == sum_sq_dev(s, m) + (x - m) * (x - m),
{
    assert(s.push(x).drop_last() =~= s);
}

pub proof fn lemma_sum_cross_dev_push(x: Seq<int>, y: Seq<int>, a: int, b: int, mx: int, my: int)
    requires
        x.len() == y.len(),
    ensures
        sum_cross_dev(x.push(a), y.push(b), mx, my) == sum_cross_dev(x, y, mx, my) + (a - mx) * (
        b - my),
{
    assert(x.push(a).drop_last() =~= x);
    assert(y.push(b).drop_last() =~= y);
}

/// A sum of entries from `[lo, hi]` lies in `[lo * len, hi * len]`.
pub proof fn lemma_seq_sum_bounds(s: Seq<int>, lo: int, hi: int)
    requires
        forall|i: int| 0 <= i < s.len() ==> lo <= #[trigger] s[i] <= hi,
    ensures
        lo * s.len() <= seq_sum(s) <= hi * s.len(),
    decreases s.len(),
{
    if s.len() == 0 {
    } else {
        let d = s.drop_last();
        assert(forall|i: int| 0 <= i < d.len() ==> lo <= #[trigger] d[i] <= hi);
        lemma_seq_sum_bounds(d, lo, hi);
        assert(lo * (s.len() as int) == lo * (d.len() as int) + lo) by (nonlinear_arith)
            requires
                s.len() == d.len() + 1,
        ;
        assert(hi * (s.len() as int) == hi * (d.len() as int) + hi) by (nonlinear_arith)
            requires
                s.len() == d.len() + 1,
        ;
    }
}

/// The rounded mean of entries from `[lo, hi]` lies in `[lo, hi]`.
pub proof fn lemma_mean_bounds(s: Seq<int>, lo: int, hi: int)
    requires
        s.len() >= 1,
        forall|i: int| 0 <= i < s.len() ==> lo <= #[trigger] s[i] <= hi,
    ensures
        lo <= mean(s) <= hi,
{
    lemma_seq_sum_bounds(s, lo, hi);
    lemma_round_div_bounds(seq_sum(s), s.len() as int, lo, hi);
}

/// A sum of squared deviations at most `d` apart is in `[0, len * d * d]`.
pub proof fn lemma_sum_sq_dev_bounds(s: Seq<int>, m: int, d: int)
    requires
        d >= 0,
        forall|i: int| 0 <= i < s.len() ==> m - d <= #[trigger] s[i] <= m + d,
    ensures
        0 <= sum_sq_dev(s, m) <= s.len() * (d * d),
    decreases s.len(),
{
    if s.len() == 0 {
    } else {
        let r = s.drop_last();
        assert(forall|i: int| 0 <= i < r.len() ==> m - d <= #[trigger] r[i] <= m + d);
        lemma_sum_sq_dev_bounds(r, m, d);
        let t = s.last() - m;
        assert(0 <= t * t <= d * d) by (nonlinear_arith)
            requires
                -d <= t <= d,
        ;
        assert((s.len() as int) * (d * d) == (r.len() as int) * (d * d) + d * d)
            by (nonlinear_arith)
            requires
                s.len() == r.len() + 1,
        ;
    }
}

/// A sum of cross deviations bounded by `dx` and `dy` is bounded by
/// `len * dx * dy` in magnitude.
pub proof fn lemma_sum_cross_dev_bounds(
    x: Seq<int>,
    y: Seq<int>,
    mx: int,
    my: int,
    dx: int,
    dy: int,
)
    requires
        dx >= 0,
        dy >= 0,
        x.len() == y.len(),
        forall|i: int| 0 <= i < x.len() ==> mx - dx <= #[trigger] x[i] <= mx + dx,
        forall|i: int| 0 <= i < y.len() ==> my - dy <= #[trigger] y[i] <= my + dy,
    ensures
        -(x.len() * (dx * dy)) <= sum_cross_dev(x, y, mx, my) <= x.len() * (dx * dy),
    decreases x.len(),
{
    if x.len() == 0 {
    } else {
        let xr = x.drop_last();
        let yr = y.drop_last();
        assert(forall|i: int| 0 <= i < xr.len() ==> mx - dx <= #[trigger] xr[i] <= mx + dx);
        assert(forall|i: int| 0 <= i < yr.len() ==> my - dy <= #[trigger] yr[i] <= my + dy);
        lemma_sum_cross_dev_bounds(xr, yr, mx, my, dx, dy);
        let a = x.last() - mx;
        let b = y.last() - my;
        assert(-(dx * dy) <= a * b <= dx * dy) by (nonlinear_arith)
            requires
                -dx <= a <= dx,
                -dy <= b <= dy,
                dx >= 0,
                dy >= 0,
        ;
        assert((x.len() as int) * (dx * dy) == (xr.len() as int) * (dx * dy) + dx * dy)
            by (nonlinear_arith)
            requires
                x.len() == xr.len() + 1,
        ;
    }
}

/// Sum of `data[from..to]`, with its magnitude bound.
pub(crate) fn sum_range(data: &Vec<i64>, from: usize, to: usize) -> (s: i64)
    requires
        from <= to && to <= data@.len(),
        to - from <= MAX_SERIES_LEN,
        forall|i: int| from <= i < to ==> -VALUE_LIMIT <= #[trigger] data@[i] <= VALUE_LIMIT,
    ensures
        s as int == seq_sum(ints(data@).subrange(from as int, to as int)),
        -(((to - from) as int) * (VALUE_LIMIT as int)) <= s as int <= ((to - from) as int) * (
        VALUE_LIMIT as int),
{
    let ghost whole = ints(data@);
    let mut acc: i64 = 0;
    let mut k: usize = from;
    while k < to
        invariant
            from <= k <= to && to <= data@.len(),
            to - from <= MAX_SERIES_LEN,
            forall|i: int| from <= i < to ==> -VALUE_LIMIT <= #[trigger] data@[i] <= VALUE_LIMIT,
            whole == ints(data@),
            acc as int == seq_sum(whole.subrange(from as int, k as int)),
            -(((k - from) as int) * (VALUE_LIMIT as int)) <= acc as int <= ((k - from) as int) * (
            VALUE_LIMIT as int),
        decreases to - k,
    {
        let v = data[k];
        proof {
            assert(whole[k as int] == data@[k as int] as int);
            assert(whole.subrange(from as int, k as int + 1) =~= whole.subrange(
                from as int,
                k as int,
            ).push(whole[k as int]));
            lemma_seq_sum_push(whole.subrange(from as int, k as int), whole[k as int]);
        }
        acc = acc + v;
        k = k + 1;
    }
    acc
}

/// Sum of squared deviations of `data[from..to]` from `m`, with its bound.
pub(crate) fn sum_sq_dev_range(data: &Vec<i64>, from: usize, to: usize, m: i64) -> (s: i64)
    requires
        from <= to && to <= data@.len(),
        to - from <= MAX_SERIES_LEN,
        forall|i: int| from <= i < to ==> -VALUE_LIMIT <= #[trigger] data@[i] <= VALUE_LIMIT,
        -VALUE_LIMIT <= m <= VALUE_LIMIT,
    ensures
        s as int == sum_sq_dev(ints(data@).subrange(from as int, to as int), m as int),
        0 <= s as int <= ((to - from) as int) * 400_000_000_000_000,
{
    let ghost whole = ints(data@);
    let mut acc: i64 = 0;
    let mut k: usize = from;
    while k < to
        invariant
            from <= k <= to && to <= data@.len(),
            to - from <= MAX_SERIES_LEN,
            forall|i: int| from <= i < to ==> -VALUE_LIMIT <= #[trigger] data@[i] <= VALUE_LIMIT,
            -VALUE_LIMIT <= m <= VALUE_LIMIT,
            whole == ints(data@),
            acc as int == sum_sq_dev(whole.subrange(from as int, k as int), m as int),
            0 <= acc as int <= ((k - from) as int) * 400_000_000_000_000,
        decreases to - k,
    {
        let dev: i64 = data[k] - m;
        proof {
            assert(dev * dev <= 400_000_000_000_000) by (nonlinear_arith)
                requires
                    -20_000_000 <= dev <= 20_000_000,
            ;
            assert(dev * dev >= 0) by (nonlinear_arith);
            assert(whole[k as int] == data@[k as int] as int);
            assert(whole.subrange(from as int, k as int + 1) =~= whole.subrange(
                from as int,
                k as int,
            ).push(whole[k as int]));
            lemma_sum_sq_dev_push(
                whole.subrange(from as int, k as int),
                whole[k as int],
                m as int,
            );
        }
        let sq: i64 = dev * dev;
        acc = acc + sq;
        k = k + 1;
    }
    acc
}

/// Sum of cross products of deviations of two equally long ranges.
pub(crate) fn sum_cross_range(x: &Vec<i64>, y: &Vec<i64>, mx: i64, my: i64) -> (s: i64)
    requires
        x@.len() == y@.len(),
        x@.len() <= MAX_SERIES_LEN,
        forall|i: int| 0 <= i < x@.len() ==> -VALUE_LIMIT <= #[trigger] x@[i] <= VALUE_LIMIT,
        forall|i: int| 0 <= i < y@.len() ==> -VALUE_LIMIT <= #[trigger] y@[i] <= VALUE_LIMIT,
        -VALUE_LIMIT <= mx <= VALUE_LIMIT,
        -VALUE_LIMIT <= my <= VALUE_LIMIT,
    ensures
        s as int == sum_cross_dev(ints(x@), ints(y@), mx as int, my as int),
        -((x@.len() as int) * 400_000_000_000_000) <= s as int <= (x@.len() as int)
            * 400_000_000_000_000,
{
    let ghost xs = ints(x@);
    let ghost ys = ints(y@);
    let mut acc: i64 = 0;
    let mut k: usize = 0;
    while k < x.len()
        invariant
            0 <= k <= x@.len(),
            x@.len() == y@.len(),
            x@.len() <= MAX_SERIES_LEN,
            forall|i: int| 0 <= i < x@.len() ==> -VALUE_LIMIT <= #[trigger] x@[i] <= VALUE_LIMIT,
            forall|i: int| 0 <= i < y@.len() ==> -VALUE_LIMIT <= #[trigger] y@[i] <= VALUE_LIMIT,
            -VALUE_LIMIT <= mx <= VALUE_LIMIT,
            -VALUE_LIMIT <= my <= VALUE_LIMIT,
            xs == ints(x@) && ys == ints(y@),
            acc as int == sum_cross_dev(
                xs.subrange(0, k as int),
                ys.subrange(0, k as int),
                mx as int,
                my as int,
            ),
            -((k as int) * 400_000_000_000_000) <= acc as int <= (k as int) * 400_000_000_000_000,
        decreases x@.len() - k,
    {
        let a: i64 = x[k] - mx;
        let b: i64 = y[k] - my;
        proof {
            assert(-400_000_000_000_000 <= a * b <= 400_000_000_000_000) by (nonlinear_arith)
                requires
                    -20_000_000 <= a <= 20_000_000,
                    -20_000_000 <= b <= 20_000_000,
            ;
            assert(xs[k as int] == x@[k as int] as int);
            assert(ys[k as int] == y@[k as int] as int);
            assert(xs.subrange(0, k as int + 1) =~= xs.subrange(0, k as int).push(xs[k as int]));
            assert(ys.subrange(0, k as int + 1) =~= ys.subrange(0, k as int).push(ys[k as int]));
            lemma_sum_cross_dev_push(
                xs.subrange(0, k as int),
                ys.subrange(0, k as int),
                xs[k as int],
                ys[k as int],
                mx as int,
                my as int,
            );
        }
        let p: i64 = a * b;
        acc = acc + p;
        k = k + 1;
    }
    proof {
        assert(xs.subrange(0, x@.len() as int) =~= xs);
        assert(ys.subrange(0, y@.len() as int) =~= ys);
    }
    acc
}

/// Population standard deviation of the whole series, in the caller's
/// fixed-point scale. Empty input is rejected.
pub fn volatility(data: &Vec<i64>) -> (r: Result<i64, CalcError>)
    requires
        series_ok(data@),
    ensures
        match r {
            Ok(v) => vol_err(ints(data@)) is None && v as int == volatility_spec(ints(data@)) && v
                >= 0,
            Err(e) => vol_err(ints(data@)) == Some(e),
        },
{
    let n = data.len();
    if n == 0 {
        return Err(CalcError::InsufficientData);
    }
    let ghost sv = ints(data@);
    proof {
        assert(sv.subrange(0, n as int) =~= sv);
    }
    let total = sum_range(data, 0, n);
    proof {
        assert((n as int) * (VALUE_LIMIT as int) <= 100_000_000_000) by (nonlinear_arith)
            requires
                0 <= n <= 10_000,
        ;
    }
    let m = round_div64(total, n as i64);
    proof {
        assert(forall|i: int| 0 <= i < sv.len() ==> -VALUE_LIMIT <= #[trigger] sv[i]
            <= VALUE_LIMIT);
        lemma_mean_bounds(sv, -(VALUE_LIMIT as int), VALUE_LIMIT as int);
    }
    let ssd = sum_sq_dev_range(data, 0, n, m);
    proof {
        assert((n as int) * 400_000_000_000_000 <= 4_000_000_000_000_000_000) by (nonlinear_arith)
            requires
                0 <= n <= 10_000,
        ;
    }
    let var = round_div64(ssd, n as i64);
    proof {
        lemma_round_div_bounds(ssd as int, n as int, 0, 400_000_000_000_000);
    }
    let rt = isqrt64(var as u64);
    proof {
        assert(rt <= 2_000_000_000) by (nonlinear_arith)
            requires
                0 <= rt,
                (rt as int) * (rt as int) <= 400_000_000_000_000,
        ;
        lemma_sqrt_unique(var as int, rt as int);
    }
    Ok(rt as i64)
}

/// Correlation coefficient between `data` and `baseline`, scaled by
/// `CORR_SCALE`. The series must have equal non-zero length; a series with
/// zero variance has no defined correlation.
pub fn correlation(data: &Vec<i64>, baseline: &Vec<i64>) -> (r: Result<i64, CalcError>)
    requires
        series_ok(data@),
        series_ok(baseline@),
    ensures
        match r {
            Ok(v) => corr_err(ints(data@), ints(baseline@)) is None && v as int
                == correlation_spec(ints(data@), ints(baseline@)) && -CORR_SCALE <= v <= CORR_SCALE,
            Err(e) => corr_err(ints(data@), ints(baseline@)) == Some(e),
        },
{
    let n = data.len();
    if n != baseline.len() || n == 0 {
        return Err(CalcError::InsufficientData);
    }
    let ghost xs = ints(data@);
    let ghost ys = ints(baseline@);
    proof {
        assert(xs.subrange(0, n as int) =~= xs);
        assert(ys.subrange(0, n as int) =~= ys);
        assert((n as int) * (VALUE_LIMIT as int) <= 100_000_000_000) by (nonlinear_arith)
            requires
                0 <= n <= 10_000,
        ;
        assert((n as int) * 400_000_000_000_000 <= 4_000_000_000_000_000_000) by (nonlinear_arith)
            requires
                0 <= n <= 10_000,
        ;
    }
    let tx = sum_range(data, 0, n);
    let ty = sum_range(baseline, 0, n);
    let mx = round_div64(tx, n as i64);
    let my = round_div64(ty, n as i64);
    proof {
        assert(forall|i: int| 0 <= i < xs.len() ==> -VALUE_LIMIT <= #[trigger] xs[i]
            <= VALUE_LIMIT);
        assert(forall|i: int| 0 <= i < ys.len() ==> -VALUE_LIMIT <= #[trigger] ys[i]
            <= VALUE_LIMIT);
        lemma_mean_bounds(xs, -(VALUE_LIMIT as int), VALUE_LIMIT as int);
        lemma_mean_bounds(ys, -(VALUE_LIMIT as int), VALUE_LIMIT as int);
    }
    let ssdx = sum_sq_dev_range(data, 0, n, mx);
    let ssdy = sum_sq_dev_range(baseline, 0, n, my);
    if ssdx == 0 || ssdy == 0 {
        return Err(CalcError::CalculatorFailure);
    }
    let sx = isqrt64(ssdx as u64);
    let sy = isqrt64(ssdy as u64);
    proof {
        lemma_sqrt_unique(ssdx as int, sx as int);
        lemma_sqrt_unique(ssdy as int, sy as int);
        assert(sx >= 1) by (nonlinear_arith)
            requires
                ssdx >= 1,
                0 <= sx,
                (ssdx as int) < ((sx as int) + 1) * ((sx as int) + 1),
        ;
        assert(sy >= 1) by (nonlinear_arith)
            requires
                ssdy >= 1,
                0 <= sy,
                (ssdy as int) < ((sy as int) + 1) * ((sy as int) + 1),
        ;
        assert(sx <= 2_000_000_000) by (nonlinear_arith)
            requires
                0 <= sx,
                (sx as int) * (sx as int) <= 4_000_000_000_000_000_000,
        ;
        assert(sy <= 2_000_000_000) by (nonlinear_arith)
            requires
                0 <= sy,
                (sy as int) * (sy as int) <= 4_000_000_000_000_000_000,
        ;
        assert((sx as int) * (sy as int) <= 4_000_000_000_000_000_000) by (nonlinear_arith)
            requires
                0 <= sx <= 2_000_000_000,
                0 <= sy <= 2_000_000_000,
        ;
        assert((sx as int) * (sy as int) >= 1) by (nonlinear_arith)
            requires
                sx >= 1,
                sy >= 1,
        ;
    }
    let cov = sum_cross_range(data, baseline, mx, my);
    let den: i64 = (sx as i64) * (sy as i64);
    let num: i128 = (CORR_SCALE as i128) * (cov as i128);
    proof {
        assert(-100_000_000_000_000_000_000_000_000 <= num <= 100_000_000_000_000_000_000_000_000)
            by (nonlinear_arith)
            requires
                num == (CORR_SCALE as int) * (cov as int),
                CORR_SCALE == 10_000,
                -4_000_000_000_000_000_000 <= cov <= 4_000_000_000_000_000_000,
        ;
    }
    let q = round_div128(num, den as i128);
    let c: i64 = if q > 10_000 {
        10_000
    } else if q < -10_000 {
        -10_000
    } else {
        q as i64
    };
    Ok(c)
}

} // verus!
