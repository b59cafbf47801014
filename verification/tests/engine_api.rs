use analytics_engine::{
    AnalyticsEngine, CalcError, CalculationRequest, Calculator, IndicatorValue, StreamProcessor,
};
use analytics_engine::series_in_range;

fn sample_series() -> Vec<i64> {
    vec![10000, 10150, 9980, 10230, 10310, 10190, 10420, 10380]
}

fn names(v: &[&str]) -> Vec<String> {
    v.iter().map(|s| s.to_string()).collect()
}

#[test]
fn registry_knows_the_five_builtins() {
    let e = AnalyticsEngine::new();
    assert_eq!(e.lookup(&"sma".to_string()), Some(Calculator::Sma));
    assert_eq!(e.lookup(&"ema".to_string()), Some(Calculator::Ema));
    assert_eq!(e.lookup(&"rsi".to_string()), Some(Calculator::Rsi));
    assert_eq!(e.lookup(&"macd".to_string()), Some(Calculator::Macd));
    assert_eq!(e.lookup(&"bollinger".to_string()), Some(Calculator::Bollinger));
    assert_eq!(e.lookup(&"wma".to_string()), None);
}

#[test]
fn register_refuses_taken_names() {
    let mut e = AnalyticsEngine::new();
    assert_eq!(
        e.register("sma".to_string(), Calculator::Ema).unwrap_err(),
        CalcError::DuplicateName
    );
    assert_eq!(e.lookup(&"sma".to_string()), Some(Calculator::Sma));
}

#[test]
fn register_accepts_new_names() {
    let mut e = AnalyticsEngine::new();
    assert!(e.register("fast_sma".to_string(), Calculator::Sma).is_ok());
    assert_eq!(e.lookup(&"fast_sma".to_string()), Some(Calculator::Sma));
}

#[test]
fn unknown_indicator_names_are_omitted() {
    let e = AnalyticsEngine::new();
    let data = sample_series();
    let out = e.calculate_indicators(&data, &names(&["sma", "unknown_x"]), Some(3));
    assert_eq!(out.len(), 1);
    assert_eq!(out[0].0, "sma");
    assert!(out[0].1.is_ok());
}

#[test]
fn batch_keeps_request_order_and_collapses_duplicates() {
    let e = AnalyticsEngine::new();
    let data = sample_series();
    let out = e.calculate_indicators(&data, &names(&["ema", "sma", "ema"]), Some(2));
    let got: Vec<&str> = out.iter().map(|p| p.0.as_str()).collect();
    assert_eq!(got, vec!["ema", "sma"]);
}

#[test]
fn batch_accepts_any_period() {
    let e = AnalyticsEngine::new();
    let data = sample_series();
    let out = e.calculate_indicators(&data, &names(&["sma", "ema"]), Some(usize::MAX));
    assert_eq!(out.len(), 2);
    assert_eq!(out[0].1.as_ref().unwrap_err(), &CalcError::InsufficientData);
    assert!(out[1].1.is_ok());
}

#[test]
fn batch_failure_is_per_indicator() {
    let e = AnalyticsEngine::new();
    let data: Vec<i64> = vec![10, 20, 30, 40, 50];
    let out = e.calculate_indicators(&data, &names(&["ema", "rsi"]), Some(10));
    assert_eq!(out.len(), 2);
    assert_eq!(out[0].0, "ema");
    assert!(out[0].1.is_ok());
    assert_eq!(out[1].0, "rsi");
    assert_eq!(out[1].1.as_ref().unwrap_err(), &CalcError::InsufficientData);
}

#[test]
fn batch_default_period_is_fourteen() {
    let e = AnalyticsEngine::new();
    let data: Vec<i64> = (0..20).map(|i| 1000 + 3 * i).collect();
    let out = e.calculate_indicators(&data, &names(&["sma"]), None);
    assert_eq!(out.len(), 1);
    match out[0].1.as_ref().unwrap() {
        IndicatorValue::Series(v) => assert_eq!(v.len(), 20 - 14 + 1),
        other => panic!("expected a series, got {:?}", other),
    }
}

#[test]
fn batch_sma_value_matches_example() {
    let e = AnalyticsEngine::new();
    let data = sample_series();
    let out = e.calculate_indicators(&data, &names(&["sma"]), Some(3));
    match out[0].1.as_ref().unwrap() {
        IndicatorValue::Series(v) => {
            assert_eq!(v, &vec![10043, 10120, 10173, 10243, 10307, 10330])
        }
        other => panic!("expected a series, got {:?}", other),
    }
}

fn request(tag: &str, data: Vec<i64>, baseline: Option<Vec<i64>>) -> CalculationRequest {
    CalculationRequest {
        symbol: "TEST".to_string(),
        data,
        calculation_type: tag.to_string(),
        baseline,
    }
}

#[test]
fn custom_volatility_example() {
    let e = AnalyticsEngine::new();
    let req = request("volatility", vec![1000, 2000, 3000, 4000, 5000], None);
    match e.calculate_custom(&req).unwrap() {
        IndicatorValue::Scalar(v) => assert_eq!(v, 1414),
        other => panic!("expected a scalar, got {:?}", other),
    }
}

#[test]
fn custom_correlation_needs_a_baseline() {
    let e = AnalyticsEngine::new();
    let req = request("correlation", vec![1, 2, 3], None);
    assert_eq!(e.calculate_custom(&req).unwrap_err(), CalcError::DataUnavailable);
}

#[test]
fn custom_correlation_with_baseline() {
    let e = AnalyticsEngine::new();
    let req = request("correlation", vec![1, 2, 3], Some(vec![2, 4, 6]));
    match e.calculate_custom(&req).unwrap() {
        IndicatorValue::Scalar(v) => assert_eq!(v, 10000),
        other => panic!("expected a scalar, got {:?}", other),
    }
}

#[test]
fn custom_indicator_is_pass_through() {
    let e = AnalyticsEngine::new();
    let data = vec![9, -8, 7, 0];
    let req = request("custom_indicator", data.clone(), None);
    match e.calculate_custom(&req).unwrap() {
        IndicatorValue::Series(v) => assert_eq!(v, data),
        other => panic!("expected a series, got {:?}", other),
    }
}

#[test]
fn custom_unknown_tag_is_refused() {
    let e = AnalyticsEngine::new();
    let req = request("sharpe", vec![1, 2, 3], None);
    assert_eq!(
        e.calculate_custom(&req).unwrap_err(),
        CalcError::UnknownCalculationType
    );
}

#[test]
fn series_in_range_guards_the_limits() {
    assert!(series_in_range(&vec![10_000_000, -10_000_000, 0]));
    assert!(!series_in_range(&vec![10_000_001]));
    assert!(!series_in_range(&vec![0; 10001]));
    assert!(series_in_range(&vec![0; 10000]));
}

#[test]
fn stream_processor_handle_exists() {
    let _p = StreamProcessor::new();
}
