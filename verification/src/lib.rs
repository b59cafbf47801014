//! Technical-indicator engine over fixed-point price series.
//!
//! Prices are fixed-point integers: the caller picks a scale (for instance
//! hundredths of a currency unit) and hands every observation in as an `i64`
//! in that scale. Every formula is then exact integer arithmetic, with
//! division rounded to the nearest integer, and every result is stated and
//! proved against a mathematical definition of the formula.

pub mod arith;
pub mod averages;
pub mod engine;
pub mod oscillators;
pub mod stats;
pub mod streaming;
pub mod types;

pub use arith::round_div64;
pub use averages::{ema, sma};
pub use engine::AnalyticsEngine;
pub use oscillators::{bollinger, macd, rsi};
pub use stats::{correlation, volatility};
pub use streaming::StreamProcessor;
pub use types::{
    series_in_range, BollingerOutput, CalcError, CalculationRequest, Calculator, IndicatorValue,
    MacdOutput,
};
