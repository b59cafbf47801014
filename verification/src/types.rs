//! Shared data types of the engine: errors, calculator variants, result
//! values, and the well-formedness of a fixed-point price series.

use vstd::prelude::*;

verus! {

/// Longest series the engine accepts; keeps every windowed sum within `i64`.
pub const MAX_SERIES_LEN: usize = 10000;

/// Largest magnitude of a fixed-point observation; keeps every windowed sum
/// and squared deviation within `i64`.
pub const VALUE_LIMIT: i64 = 10_000_000;

/// Window size used when a request names none.
pub const DEFAULT_PERIOD: usize = 14;

/// Error kinds of the engine.
#[derive(Clone, Copy, Debug, PartialEq, Eq, Structural)]
pub enum CalcError {
    /// The period was zero.
    InvalidPeriod,
    /// The series is too short for the requested window, or empty.
    InsufficientData,
    /// A custom calculation named a type the dispatcher does not know.
    UnknownCalculationType,
    /// Required input data was not supplied.
    DataUnavailable,
    /// A formula could not produce a value on the given data.
    CalculatorFailure,
    /// A calculator was registered under a name already taken.
    DuplicateName,
}

/// The closed set of built-in calculators.
#[derive(Clone, Copy, Debug, PartialEq, Eq, Structural)]
pub enum Calculator {
    Sma,
    Ema,
    Rsi,
    Macd,
    Bollinger,
}

/// MACD record at the most recent index.
#[derive(Clone, Copy, Debug, PartialEq, Eq, Structural)]
pub struct MacdOutput {
    pub line: i64,
    pub signal: i64,
    pub histogram: i64,
}

/// Bollinger band record at the most recent window.
#[derive(Clone, Copy, Debug, PartialEq, Eq, Structural)]
pub struct BollingerOutput {
    pub upper: i64,
    pub middle: i64,
    pub lower: i64,
}

/// A computed indicator value: a scalar, a series, or a structured record.
#[derive(Debug)]
pub enum IndicatorValue {
    Scalar(i64),
    Series(Vec<i64>),
    Macd(MacdOutput),
    Bands(BollingerOutput),
}

/// An ad-hoc calculation request. The comparison series for `"correlation"`
/// is an explicit field rather than a hidden default.
pub struct CalculationRequest {
    pub symbol: String,
    pub data: Vec<i64>,
    pub calculation_type: String,
    pub baseline: Option<Vec<i64>>,
}

/// The fixed-point views of a series, as mathematical integers.
pub open spec fn ints(s: Seq<i64>) -> Seq<int> {
    s.map(|i: int, x: i64| x as int)
}

/// A well-formed series: short enough and with small enough entries that
/// every formula of the engine stays within `i64`.
pub open spec fn series_ok(s: Seq<i64>) -> bool {
    &&& s.len() <= MAX_SERIES_LEN
    &&& forall|i: int| 0 <= i < s.len() ==> -VALUE_LIMIT <= #[trigger] s[i] <= VALUE_LIMIT
}

/// Runtime check for `series_ok`, so callers outside verified code can
/// establish it before asking for indicators.
pub fn series_in_range(data: &Vec<i64>) -> (r: bool)
    ensures
        r == series_ok(data@),
{
    if data.len() > MAX_SERIES_LEN {
        return false;
    }
    let mut k: usize = 0;
    while k < data.len()
        invariant
            k <= data@.len() <= MAX_SERIES_LEN,
            forall|i: int| 0 <= i < k ==> -VALUE_LIMIT <= #[trigger] data@[i] <= VALUE_LIMIT,
        decreases data@.len() - k,
    {
        let v = data[k];
        if v < -VALUE_LIMIT || v > VALUE_LIMIT {
            return false;
        }
        k = k + 1;
    }
    true
}

} // verus!
