use analytics_engine::arith::isqrt64;
use analytics_engine::round_div64;
use analytics_engine::{bollinger, correlation, ema, macd, rsi, sma, volatility};
use analytics_engine::{BollingerOutput, CalcError, MacdOutput};

#[test]
fn round_div_rounds_half_away_from_zero() {
    assert_eq!(round_div64(7, 2), 4);
    assert_eq!(round_div64(-7, 2), -4);
    assert_eq!(round_div64(5, 2), 3);
    assert_eq!(round_div64(6, 3), 2);
    assert_eq!(round_div64(0, 9), 0);
    assert_eq!(round_div64(-1, 3), 0);
}

#[test]
fn isqrt_is_floor_square_root() {
    assert_eq!(isqrt64(0), 0);
    assert_eq!(isqrt64(1), 1);
    assert_eq!(isqrt64(2), 1);
    assert_eq!(isqrt64(4), 2);
    assert_eq!(isqrt64(2_000_000), 1414);
    assert_eq!(isqrt64(3_999_999_999_999_999_999), 1_999_999_999);
}

// SMA of the example series at scale 100 (two decimal places):
// [100, 101.5, 99.8, 102.3, 103.1, 101.9, 104.2, 103.8] with period 3
// gives [100.43, 101.2, 101.73, 102.43, 103.07, 103.3].
#[test]
fn sma_example_series() {
    let data: Vec<i64> = vec![10000, 10150, 9980, 10230, 10310, 10190, 10420, 10380];
    let out = sma(&data, 3).unwrap();
    assert_eq!(out, vec![10043, 10120, 10173, 10243, 10307, 10330]);
}

#[test]
fn sma_window_count_for_every_period() {
    let data: Vec<i64> = vec![5, 1, 4, 1, 5, 9, 2, 6];
    for p in 1..=data.len() {
        let out = sma(&data, p).unwrap();
        assert_eq!(out.len(), data.len() - p + 1);
    }
}

#[test]
fn sma_period_one_is_identity() {
    let data: Vec<i64> = vec![3, -1, 4, -1, 5];
    assert_eq!(sma(&data, 1).unwrap(), data);
}

#[test]
fn sma_rejects_zero_period() {
    let data: Vec<i64> = vec![1, 2, 3];
    assert_eq!(sma(&data, 0).unwrap_err(), CalcError::InvalidPeriod);
}

#[test]
fn sma_rejects_short_series() {
    let data: Vec<i64> = vec![1, 2, 3];
    assert_eq!(sma(&data, 4).unwrap_err(), CalcError::InsufficientData);
}

#[test]
fn ema_of_constant_series_is_constant() {
    let data: Vec<i64> = vec![500; 6];
    for p in [1, 2, 7, 14, 100, 1_000_000_000, usize::MAX] {
        assert_eq!(ema(&data, p).unwrap(), data);
    }
}

#[test]
fn ema_with_huge_period_stays_at_the_seed() {
    // The smoothing factor 2 / (p + 1) rounds every adjustment to zero.
    let data: Vec<i64> = vec![100, 999, -500];
    assert_eq!(ema(&data, usize::MAX).unwrap(), vec![100, 100, 100]);
}

#[test]
fn ema_small_exact_values() {
    // period 3: smoothing factor 1/2, so 100 then 100 + 100/2.
    assert_eq!(ema(&vec![100, 200], 3).unwrap(), vec![100, 150]);
    // period 1: smoothing factor 1, the ema follows the series.
    assert_eq!(ema(&vec![100, 200, 50], 1).unwrap(), vec![100, 200, 50]);
}

#[test]
fn ema_rejects_bad_input() {
    assert_eq!(ema(&vec![], 3).unwrap_err(), CalcError::InsufficientData);
    assert_eq!(ema(&vec![1, 2], 0).unwrap_err(), CalcError::InvalidPeriod);
}

#[test]
fn rsi_exact_value() {
    // deltas [1, 1, -1, 2, 2]: gain 6, loss 1, so 100 * 6/7 = 85.71.
    let data: Vec<i64> = vec![1, 2, 3, 2, 4, 6];
    assert_eq!(rsi(&data, 5).unwrap(), 8571);
}

#[test]
fn rsi_pure_gain_and_flat_series_are_one_hundred() {
    assert_eq!(rsi(&vec![1, 2, 3, 4], 3).unwrap(), 10000);
    assert_eq!(rsi(&vec![7, 7, 7, 7], 3).unwrap(), 10000);
}

#[test]
fn rsi_pure_loss_is_zero() {
    assert_eq!(rsi(&vec![9, 7, 4, 2], 3).unwrap(), 0);
}

#[test]
fn rsi_stays_in_range() {
    let data: Vec<i64> = vec![44, 47, 45, 50, 49, 52, 41, 60, 58, 61];
    for p in 1..data.len() {
        let v = rsi(&data, p).unwrap();
        assert!((0..=10000).contains(&v));
    }
}

#[test]
fn rsi_rejects_bad_input() {
    assert_eq!(rsi(&vec![1, 2, 3], 3).unwrap_err(), CalcError::InsufficientData);
    assert_eq!(rsi(&vec![1, 2, 3], 0).unwrap_err(), CalcError::InvalidPeriod);
}

#[test]
fn macd_constant_series_is_zero() {
    let data: Vec<i64> = vec![1000; 26];
    let m = macd(&data).unwrap();
    assert_eq!(
        m,
        MacdOutput {
            line: 0,
            signal: 0,
            histogram: 0
        }
    );
}

#[test]
fn macd_histogram_is_line_minus_signal() {
    let data: Vec<i64> = (0..40).map(|i| 10000 + 37 * i * i).collect();
    let m = macd(&data).unwrap();
    assert_eq!(m.histogram, m.line - m.signal);
}

#[test]
fn macd_matches_ema_composition() {
    let data: Vec<i64> = (0..30).map(|i| 5000 + 211 * i % 977).collect();
    let m = macd(&data).unwrap();
    let e12 = ema(&data, 12).unwrap();
    let e26 = ema(&data, 26).unwrap();
    let line: Vec<i64> = e12.iter().zip(e26.iter()).map(|(a, b)| a - b).collect();
    let signal = ema(&line, 9).unwrap();
    assert_eq!(m.line, *line.last().unwrap());
    assert_eq!(m.signal, *signal.last().unwrap());
}

#[test]
fn macd_rejects_short_series() {
    let data: Vec<i64> = vec![10; 25];
    assert_eq!(macd(&data).unwrap_err(), CalcError::InsufficientData);
}

#[test]
fn bollinger_classic_window() {
    // window [2, 4, 4, 4, 5, 5, 7, 9]: mean 5, population variance 4.
    let data: Vec<i64> = vec![2, 4, 4, 4, 5, 5, 7, 9];
    let b = bollinger(&data, 8).unwrap();
    assert_eq!(
        b,
        BollingerOutput {
            upper: 9,
            middle: 5,
            lower: 1
        }
    );
}

#[test]
fn bollinger_constant_series_collapses() {
    let data: Vec<i64> = vec![420; 10];
    let b = bollinger(&data, 4).unwrap();
    assert_eq!(b.upper, 420);
    assert_eq!(b.middle, 420);
    assert_eq!(b.lower, 420);
}

#[test]
fn bollinger_bands_are_ordered() {
    let data: Vec<i64> = vec![10000, 10150, 9980, 10230, 10310, 10190, 10420, 10380];
    for p in 1..=data.len() {
        let b = bollinger(&data, p).unwrap();
        assert!(b.upper >= b.middle && b.middle >= b.lower);
    }
}

#[test]
fn bollinger_rejects_bad_input() {
    let data: Vec<i64> = vec![1, 2, 3];
    assert_eq!(bollinger(&data, 0).unwrap_err(), CalcError::InvalidPeriod);
    assert_eq!(bollinger(&data, 4).unwrap_err(), CalcError::InsufficientData);
}

// Population standard deviation of [1, 2, 3, 4, 5] is about 1.414; at
// scale 1000 the engine reports 1414.
#[test]
fn volatility_example_value() {
    let data: Vec<i64> = vec![1000, 2000, 3000, 4000, 5000];
    assert_eq!(volatility(&data).unwrap(), 1414);
}

#[test]
fn volatility_of_constant_series_is_zero() {
    assert_eq!(volatility(&vec![123, 123, 123]).unwrap(), 0);
}

#[test]
fn volatility_rejects_empty_series() {
    assert_eq!(volatility(&vec![]).unwrap_err(), CalcError::InsufficientData);
}

#[test]
fn correlation_perfectly_aligned_series() {
    let x: Vec<i64> = vec![1, 2, 3];
    let y: Vec<i64> = vec![2, 4, 6];
    assert_eq!(correlation(&x, &y).unwrap(), 10000);
}

#[test]
fn correlation_perfectly_opposed_series() {
    let x: Vec<i64> = vec![1, 2, 3];
    let y: Vec<i64> = vec![-2, -4, -6];
    assert_eq!(correlation(&x, &y).unwrap(), -10000);
}

#[test]
fn correlation_rejects_flat_series() {
    let x: Vec<i64> = vec![1, 2, 3];
    let y: Vec<i64> = vec![5, 5, 5];
    assert_eq!(correlation(&x, &y).unwrap_err(), CalcError::CalculatorFailure);
}

#[test]
fn correlation_rejects_mismatched_lengths() {
    let x: Vec<i64> = vec![1, 2, 3];
    let y: Vec<i64> = vec![1, 2];
    assert_eq!(correlation(&x, &y).unwrap_err(), CalcError::InsufficientData);
    assert_eq!(
        correlation(&Vec::new(), &Vec::new()).unwrap_err(),
        CalcError::InsufficientData
    );
}
