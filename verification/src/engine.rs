//! The calculator registry, the batch facade, and the custom-calculation
//! dispatcher.
//!
//! The registry is an ordered name-to-calculator table built once at
//! startup; `register` refuses duplicate names and `lookup` returns the
//! first entry with the given name. A batch request walks the requested
//! names in order, silently skips unknown ones, and reports each known
//! indicator's value or error on its own, so one failure never hides a
//! sibling's result.

use vstd::prelude::*;

verus! {

use crate::averages::{ema_at, ema_err, sma, ema, sma_at, sma_err};
use crate::oscillators::{
    boll_err, boll_middle, boll_sigma, bollinger, macd, macd_err, macd_line_at, macd_signal_at,
    rsi, rsi_err, rsi_spec, RSI_MAX,
};
use crate::stats::{
    corr_err, correlation, correlation_spec, vol_err, volatility, volatility_spec, CORR_SCALE,
};
use crate::types::{
    ints, series_ok, CalcError, CalculationRequest, Calculator, IndicatorValue, DEFAULT_PERIOD,
};

/// Whether `r` is the outcome the calculator `kind` owes on `s` with
/// period `p`: the exact value on well-formed input, the exact error kind
/// otherwise.
pub open spec fn calc_matches(
    kind: Calculator,
    s: Seq<i64>,
    p: int,
    r: Result<IndicatorValue, CalcError>,
) -> bool {
    match kind {
        Calculator::Sma => match r {
            Ok(IndicatorValue::Series(out)) => {
                &&& sma_err(ints(s), p) is None
                &&& out@.len() == s.len() - p + 1
                &&& forall|i: int|
                    0 <= i < out@.len() ==> #[trigger] out@[i] as int == sma_at(ints(s), p, i)
            },
            Ok(_) => false,
            Err(e) => sma_err(ints(s), p) == Some(e),
        },
        Calculator::Ema => match r {
            Ok(IndicatorValue::Series(out)) => {
                &&& ema_err(ints(s), p) is None
                &&& out@.len() == s.len()
                &&& forall|i: int|
                    0 <= i < out@.len() ==> #[trigger] out@[i] as int == ema_at(ints(s), p, i)
            },
            Ok(_) => false,
            Err(e) => ema_err(ints(s), p) == Some(e),
        },
        Calculator::Rsi => match r {
            Ok(IndicatorValue::Scalar(v)) => {
                &&& rsi_err(ints(s), p) is None
                &&& v as int == rsi_spec(ints(s), p)
                &&& 0 <= v <= RSI_MAX
            },
            Ok(_) => false,
            Err(e) => rsi_err(ints(s), p) == Some(e),
        },
        Calculator::Macd => match r {
            Ok(IndicatorValue::Macd(m)) => {
                &&& macd_err(ints(s)) is None
                &&& m.line as int == macd_line_at(ints(s), s.len() - 1)
                &&& m.signal as int == macd_signal_at(ints(s), s.len() - 1)
                &&& m.histogram == m.line - m.signal
            },
            Ok(_) => false,
            Err(e) => macd_err(ints(s)) == Some(e),
        },
        Calculator::Bollinger => match r {
            Ok(IndicatorValue::Bands(b)) => {
                &&& boll_err(ints(s), p) is None
                &&& b.middle as int == boll_middle(ints(s), p)
                &&& b.upper as int == boll_middle(ints(s), p) + 2 * boll_sigma(ints(s), p)
                &&& b.lower as int == boll_middle(ints(s), p) - 2 * boll_sigma(ints(s), p)
                &&& b.lower <= b.middle <= b.upper
            },
            Ok(_) => false,
            Err(e) => boll_err(ints(s), p) == Some(e),
        },
    }
}

impl Calculator {
    /// Run this calculator on a series with the given period.
    pub fn calculate(&self, data: &Vec<i64>, period: usize) -> (r: Result<
        IndicatorValue,
        CalcError,
    >)
        requires
            series_ok(data@),
        ensures
            calc_matches(*self, data@, period as int, r),
    {
        match self {
            Calculator::Sma => match sma(data, period) {
                Ok(v) => Ok(IndicatorValue::Series(v)),
                Err(e) => Err(e),
            },
            Calculator::Ema => match ema(data, period) {
                Ok(v) => Ok(IndicatorValue::Series(v)),
                Err(e) => Err(e),
            },
            Calculator::Rsi => match rsi(data, period) {
                Ok(v) => Ok(IndicatorValue::Scalar(v)),
                Err(e) => Err(e),
            },
            Calculator::Macd => match macd(data) {
                Ok(m) => Ok(IndicatorValue::Macd(m)),
                Err(e) => Err(e),
            },
            Calculator::Bollinger => match bollinger(data, period) {
                Ok(b) => Ok(IndicatorValue::Bands(b)),
                Err(e) => Err(e),
            },
        }
    }
}

/// First-match lookup in an ordered name-to-calculator table.
pub open spec fn lookup_in(entries: Seq<(Seq<char>, Calculator)>, name: Seq<char>) -> Option<
    Calculator,
>
    decreases entries.len(),
{
    if entries.len() == 0 {
        None
    } else if entries[0].0 == name {
        Some(entries[0].1)
    } else {
        lookup_in(entries.drop_first(), name)
    }
}

proof fn lemma_lookup_found(entries: Seq<(Seq<char>, Calculator)>, name: Seq<char>, k: int)
    requires
        0 <= k < entries.len(),
        entries[k].0 == name,
        forall|j: int| 0 <= j < k ==> (#[trigger] entries[j]).0 != name,
    ensures
        lookup_in(entries, name) == Some(entries[k].1),
    decreases k,
{
    if k == 0 {
    } else {
        assert(entries[0].0 != name);
        lemma_lookup_found(entries.drop_first(), name, k - 1);
    }
}

proof fn lemma_lookup_absent(entries: Seq<(Seq<char>, Calculator)>, name: Seq<char>)
    requires
        forall|j: int| 0 <= j < entries.len() ==> (#[trigger] entries[j]).0 != name,
    ensures
        lookup_in(entries, name) is None,
    decreases entries.len(),
{
    if entries.len() == 0 {
    } else {
        lemma_lookup_absent(entries.drop_first(), name);
    }
}

/// The views of a sequence of names.
pub open spec fn name_views(s: Seq<String>) -> Seq<Seq<char>> {
    s.map(|i: int, n: String| n@)
}

/// The requested names that the registry knows, in order of their first
/// occurrence: a repeated name keeps one entry, as a mapping must.
pub open spec fn known_names(
    reg: Seq<(Seq<char>, Calculator)>,
    names: Seq<Seq<char>>,
) -> Seq<Seq<char>>
    decreases names.len(),
{
    if names.len() == 0 {
        Seq::empty()
    } else {
        let rest = known_names(reg, names.drop_last());
        if lookup_in(reg, names.last()) is Some && !rest.contains(names.last()) {
            rest.push(names.last())
        } else {
            rest
        }
    }
}

/// The names of a batch result, in order.
pub open spec fn result_names(r: Seq<(String, Result<IndicatorValue, CalcError>)>) -> Seq<
    Seq<char>,
> {
    r.map(|i: int, pr: (String, Result<IndicatorValue, CalcError>)| pr.0@)
}

/// The period a batch request asks for: the given one, or the default.
pub open spec fn eff_period(period: Option<usize>) -> usize {
    match period {
        Some(p) => p,
        None => DEFAULT_PERIOD,
    }
}

/// Whether `r` is the outcome the custom dispatcher owes on `req`.
pub open spec fn custom_matches(
    req: CalculationRequest,
    r: Result<IndicatorValue, CalcError>,
) -> bool {
    let t = req.calculation_type@;
    if t == "correlation"@ {
        match req.baseline {
            Some(b) => match r {
                Ok(IndicatorValue::Scalar(c)) => {
                    &&& corr_err(ints(req.data@), ints(b@)) is None
                    &&& c as int == correlation_spec(ints(req.data@), ints(b@))
                    &&& -CORR_SCALE <= c <= CORR_SCALE
                },
                Ok(_) => false,
                Err(e) => corr_err(ints(req.data@), ints(b@)) == Some(e),
            },
            None => r == Err::<IndicatorValue, CalcError>(CalcError::DataUnavailable),
        }
    } else if t == "volatility"@ {
        match r {
            Ok(IndicatorValue::Scalar(c)) => vol_err(ints(req.data@)) is None && c as int
                == volatility_spec(ints(req.data@)),
            Ok(_) => false,
            Err(e) => vol_err(ints(req.data@)) == Some(e),
        }
    } else if t == "custom_indicator"@ {
        match r {
            Ok(IndicatorValue::Series(out)) => out@ == req.data@,
            Ok(_) => false,
            Err(_) => false,
        }
    } else {
        r == Err::<IndicatorValue, CalcError>(CalcError::UnknownCalculationType)
    }
}

/// Whether a batch result already holds an entry under `name`.
fn contains_name(
    results: &Vec<(String, Result<IndicatorValue, CalcError>)>,
    name: &String,
) -> (r: bool)
    ensures
        r == result_names(results@).contains(name@),
{
    let mut k: usize = 0;
    while k < results.len()
        invariant
            0 <= k <= results@.len(),
            forall|j: int| 0 <= j < k ==> (#[trigger] results@[j]).0@ != name@,
        decreases results@.len() - k,
    {
        let entry = &results[k];
        if entry.0 == *name {
            proof {
                assert(result_names(results@)[k as int] == name@);
            }
            return true;
        }
        k = k + 1;
    }
    proof {
        assert forall|i: int|
            0 <= i < result_names(results@).len() implies #[trigger] result_names(results@)[i]
            != name@ by {
            assert(result_names(results@)[i] == results@[i].0@);
        }
    }
    false
}

/// Compare a name against a fixed tag.
fn str_is(s: &String, tag: &str) -> (r: bool)
    ensures
        r == (s@ == tag@),
{
    let owned: String = tag.to_owned();
    *s == owned
}

/// An element-for-element copy of a series.
fn copy_series(data: &Vec<i64>) -> (out: Vec<i64>)
    ensures
        out@ == data@,
{
    let mut out: Vec<i64> = Vec::new();
    let mut k: usize = 0;
    while k < data.len()
        invariant
            0 <= k <= data@.len(),
            out@ =~= data@.subrange(0, k as int),
        decreases data@.len() - k,
    {
        out.push(data[k]);
        k = k + 1;
    }
    proof {
        assert(data@.subrange(0, data@.len() as int) =~= data@);
    }
    out
}

/// The indicator engine: an ordered, write-once registry of calculators
/// and the entry points that batch and custom requests go through.
pub struct AnalyticsEngine {
    calculators: Vec<(String, Calculator)>,
}

impl AnalyticsEngine {
    /// The registry as a sequence of name-calculator pairs.
    pub closed spec fn registry(self) -> Seq<(Seq<char>, Calculator)> {
        self.calculators@.map(|i: int, e: (String, Calculator)| (e.0@, e.1))
    }

    /// An engine with the five built-in calculators under their fixed
    /// names, in registration order.
    pub fn new() -> (e: Self)
        ensures
            e.registry() == seq![
                ("sma"@, Calculator::Sma),
                ("ema"@, Calculator::Ema),
                ("rsi"@, Calculator::Rsi),
                ("macd"@, Calculator::Macd),
                ("bollinger"@, Calculator::Bollinger),
            ],
    {
        let mut cs: Vec<(String, Calculator)> = Vec::new();
        cs.push(("sma".to_owned(), Calculator::Sma));
        cs.push(("ema".to_owned(), Calculator::Ema));
        cs.push(("rsi".to_owned(), Calculator::Rsi));
        cs.push(("macd".to_owned(), Calculator::Macd));
        cs.push(("bollinger".to_owned(), Calculator::Bollinger));
        let e = AnalyticsEngine { calculators: cs };
        proof {
            assert(e.registry() =~= seq![
                ("sma"@, Calculator::Sma),
                ("ema"@, Calculator::Ema),
                ("rsi"@, Calculator::Rsi),
                ("macd"@, Calculator::Macd),
                ("bollinger"@, Calculator::Bollinger),
            ]);
        }
        e
    }

    /// Add a calculator under a new name; a taken name is refused and
    /// leaves the registry unchanged.
    pub fn register(&mut self, name: String, calc: Calculator) -> (r: Result<(), CalcError>)
        ensures
            match r {
                Ok(_) => lookup_in(old(self).registry(), name@) is None && final(self).registry()
                    == old(self).registry().push((name@, calc)),
                Err(e) => e == CalcError::DuplicateName && lookup_in(
                    old(self).registry(),
                    name@,
                ) is Some && final(self).registry() == old(self).registry(),
            },
    {
        let taken = self.lookup(&name);
        match taken {
            Some(_) => Err(CalcError::DuplicateName),
            None => {
                self.calculators.push((name, calc));
                proof {
                    assert(final(self).registry() =~= old(self).registry().push((name@, calc)));
                }
                Ok(())
            },
        }
    }

    /// The first calculator registered under `name`, if any.
    pub fn lookup(&self, name: &String) -> (r: Option<Calculator>)
        ensures
            r == lookup_in(self.registry(), name@),
    {
        let ghost reg = self.registry();
        let mut k: usize = 0;
        while k < self.calculators.len()
            invariant
                reg == self.registry(),
                reg.len() == self.calculators@.len(),
                0 <= k <= self.calculators@.len(),
                forall|j: int| 0 <= j < k ==> (#[trigger] reg[j]).0 != name@,
            decreases self.calculators@.len() - k,
        {
            let entry = &self.calculators[k];
            if entry.0 == *name {
                proof {
                    lemma_lookup_found(reg, name@, k as int);
                }
                return Some(entry.1);
            }
            k = k + 1;
        }
        proof {
            lemma_lookup_absent(reg, name@);
        }
        None
    }

    /// Run a batch of indicators over one series, assembling a mapping:
    /// unknown names are omitted, a repeated name keeps its first entry,
    /// and each known name appears in request order with its own value or
    /// error, so one failure aborts nothing else.
    pub fn calculate_indicators(
        &self,
        data: &Vec<i64>,
        indicators: &Vec<String>,
        period: Option<usize>,
    ) -> (r: Vec<(String, Result<IndicatorValue, CalcError>)>)
        requires
            series_ok(data@),
        ensures
            result_names(r@) == known_names(self.registry(), name_views(indicators@)),
            forall|j: int|
                0 <= j < r@.len() ==> lookup_in(self.registry(), (#[trigger] r@[j]).0@) is Some
                    && calc_matches(
                    lookup_in(self.registry(), r@[j].0@).unwrap(),
                    data@,
                    eff_period(period) as int,
                    r@[j].1,
                ),
    {
        let p_eff: usize = match period {
            Some(p) => p,
            None => DEFAULT_PERIOD,
        };
        let ghost reg = self.registry();
        let ghost nv = name_views(indicators@);
        let mut results: Vec<(String, Result<IndicatorValue, CalcError>)> = Vec::new();
        let mut k: usize = 0;
        while k < indicators.len()
            invariant
                series_ok(data@),
                p_eff == eff_period(period),
                reg == self.registry(),
                nv == name_views(indicators@),
                nv.len() == indicators@.len(),
                0 <= k <= indicators@.len(),
                result_names(results@) == known_names(reg, nv.take(k as int)),
                forall|j: int|
                    0 <= j < results@.len() ==> lookup_in(
                        reg,
                        (#[trigger] results@[j]).0@,
                    ) is Some && calc_matches(
                        lookup_in(reg, results@[j].0@).unwrap(),
                        data@,
                        p_eff as int,
                        results@[j].1,
                    ),
            decreases indicators@.len() - k,
        {
            let name = &indicators[k];
            proof {
                assert(nv.take(k as int + 1).drop_last() =~= nv.take(k as int));
                assert(nv[k as int] == name@);
            }
            match self.lookup(name) {
                Some(kind) => {
                    if !contains_name(&results, name) {
                        let outcome = kind.calculate(data, p_eff);
                        let owned = name.clone();
                        results.push((owned, outcome));
                    }
                    proof {
                        assert(result_names(results@) =~= known_names(reg, nv.take(k as int + 1)));
                    }
                },
                None => {
                    proof {
                        assert(result_names(results@) =~= known_names(reg, nv.take(k as int + 1)));
                    }
                },
            }
            k = k + 1;
        }
        proof {
            assert(nv.take(indicators@.len() as int) =~= nv);
        }
        results
    }

    /// Dispatch an ad-hoc calculation by its type tag: `"correlation"`
    /// against the request's baseline series, `"volatility"` over the
    /// request's data, `"custom_indicator"` as the pass-through transform;
    /// any other tag is unknown.
    pub fn calculate_custom(&self, request: &CalculationRequest) -> (r: Result<
        IndicatorValue,
        CalcError,
    >)
        requires
            series_ok(request.data@),
            request.baseline matches Some(b) ==> series_ok(b@),
        ensures
            custom_matches(*request, r),
    {
        if str_is(&request.calculation_type, "correlation") {
            match &request.baseline {
                Some(b) => match correlation(&request.data, b) {
                    Ok(c) => Ok(IndicatorValue::Scalar(c)),
                    Err(e) => Err(e),
                },
                None => Err(CalcError::DataUnavailable),
            }
        } else if str_is(&request.calculation_type, "volatility") {
            match volatility(&request.data) {
                Ok(c) => Ok(IndicatorValue::Scalar(c)),
                Err(e) => Err(e),
            }
        } else if str_is(&request.calculation_type, "custom_indicator") {
            Ok(IndicatorValue::Series(copy_series(&request.data)))
        } else {
            Err(CalcError::UnknownCalculationType)
        }
    }
}

} // verus!
