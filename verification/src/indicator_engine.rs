//! Indicator registration and precomputation: per indicator and symbol, a
//! value series aligned to the canonical timeline, such that the value at a
//! timeline position depends only on bars at or before that instant.

use vstd::prelude::*;
use crate::datafeed::{DataFeed, count_le, lemma_count_le_char, lemma_count_le_sorted,
    sorted_by_datetime, strictly_sorted_by_datetime, has_symbol, symbol_index};
use crate::types::{Bar, str_eq};

verus! {

/// An indicator definition: a built-in computed here from its parameters, or
/// an external one whose values are written in from outside.
#[derive(Debug)]
pub enum IndicatorDef {
    Builtin { name: String, params: Vec<(String, String)>, lookback_period: usize },
    External { name: String, lookback_period: usize },
}

/// The value of the digit sequence `s` read in base ten.
pub open spec fn digits_val(s: Seq<char>) -> int
    decreases s.len(),
{
    if s.len() == 0 {
        0
    } else {
        digits_val(s.drop_last()) * 10 + (s.last() as int - '0' as int)
    }
}

/// Whether `s` consists of base-ten digits only, at least one.
pub open spec fn all_digits(s: Seq<char>) -> bool {
    s.len() >= 1 && forall|i: int| 0 <= i < s.len() ==> '0' <= #[trigger] s[i] <= '9'
}

/// What a decimal read of `s` yields: its value, for a non-empty string of
/// digits whose value fits in `u64`; nothing otherwise.
pub open spec fn spec_parse_u64(s: Seq<char>) -> Option<u64> {
    if all_digits(s) && digits_val(s) <= u64::MAX {
        Some(digits_val(s) as u64)
    } else {
        None
    }
}

/// The digit value is never negative.
proof fn lemma_digits_val_nonneg(s: Seq<char>)
    requires
        forall|i: int| 0 <= i < s.len() ==> '0' <= #[trigger] s[i] <= '9',
    ensures
        digits_val(s) >= 0,
    decreases s.len(),
{
    if s.len() > 0 {
        assert(forall|i: int|
            0 <= i < s.drop_last().len() ==> '0' <= #[trigger] s.drop_last()[i] <= '9');
        lemma_digits_val_nonneg(s.drop_last());
    }
}

/// Read a base-ten `u64` from a string.
pub fn parse_u64(s: &str) -> (r: Option<u64>)
    ensures
        r == spec_parse_u64(s@),
{
    if !s.is_ascii() {
        proof {
            assert(!vstd::utf8::is_ascii_chars(s@));
            let w = choose|i: int| !(0 <= i < s@.len() ==> '\0' <= #[trigger] s@[i] <= '\u{7f}');
            assert(!('0' <= s@[w] <= '9'));
        }
        return None;
    }
    proof {
        vstd::string::is_ascii_spec_bytes(s);
    }
    let bytes = s.as_bytes();
    if bytes.len() == 0 {
        return None;
    }
    let mut acc: u64 = 0;
    let mut k: usize = 0;
    while k < bytes.len()
        invariant
            k <= bytes@.len(),
            bytes@.len() == s@.len(),
            forall|i: int| 0 <= i < s@.len() ==> #[trigger] bytes@[i] == s@[i] as u8,
            vstd::utf8::is_ascii_chars(s@),
            forall|i: int| 0 <= i < k ==> '0' <= #[trigger] s@[i] <= '9',
            acc as int == digits_val(s@.take(k as int)),
        decreases bytes@.len() - k,
    {
        let b = bytes[k];
        if b < 48 || b > 57 {
            proof {
                assert(s@[k as int] as u8 == b);
                assert(!('0' <= s@[k as int] <= '9'));
            }
            return None;
        }
        let d: u64 = (b - 48) as u64;
        proof {
            assert(s@[k as int] as u8 == b);
            assert('0' <= s@[k as int] <= '9');
            assert(s@[k as int] as int - '0' as int == d as int);
            assert(s@.take(k as int + 1).drop_last() =~= s@.take(k as int));
            assert(s@.take(k as int + 1).last() == s@[k as int]);
            lemma_digits_val_nonneg(s@.take(k as int + 1));
        }
        if acc > (u64::MAX - d) / 10 {
            proof {
                vstd::arithmetic::div_mod::lemma_fundamental_div_mod(
                    (u64::MAX - d) as int, 10);
                assert(acc as int * 10 + d as int > u64::MAX as int) by (nonlinear_arith)
                    requires
                        acc as int >= ((u64::MAX - d) as int) / 10 + 1,
                        (u64::MAX - d) as int == 10 * (((u64::MAX - d) as int) / 10)
                            + ((u64::MAX - d) as int) % 10,
                        (((u64::MAX - d) as int) % 10) < 10,
                        d <= 9,
                ;
                if all_digits(s@) {
                    lemma_digits_prefix_monotone(s@, k as int + 1);
                }
            }
            return None;
        }
        proof {
            vstd::arithmetic::div_mod::lemma_fundamental_div_mod((u64::MAX - d) as int, 10);
            assert(acc as int * 10 + d as int <= u64::MAX as int) by (nonlinear_arith)
                requires
                    acc as int <= ((u64::MAX - d) as int) / 10,
                    (u64::MAX - d) as int == 10 * (((u64::MAX - d) as int) / 10)
                        + ((u64::MAX - d) as int) % 10,
                    (((u64::MAX - d) as int) % 10) >= 0,
                    d <= 9,
            ;
        }
        acc = acc * 10 + d;
        k += 1;
    }
    proof {
        assert(s@.take(s@.len() as int) =~= s@);
    }
    Some(acc)
}

/// A longer digit prefix reads to at least as large a value.
proof fn lemma_digits_prefix_monotone(s: Seq<char>, n: int)
    requires
        0 <= n <= s.len(),
        forall|i: int| 0 <= i < s.len() ==> '0' <= #[trigger] s[i] <= '9',
    ensures
        digits_val(s) >= digits_val(s.take(n)),
    decreases s.len() - n,
{
    if n < s.len() {
        lemma_digits_prefix_monotone(s, n + 1);
        assert(s.take(n + 1).drop_last() =~= s.take(n));
        assert(s.take(n + 1).last() == s[n]);
        lemma_digits_val_nonneg(s.take(n));
        assert(digits_val(s.take(n + 1)) == digits_val(s.take(n)) * 10 + (s[n] as int
            - '0' as int));
        assert(digits_val(s.take(n)) * 10 >= digits_val(s.take(n))) by (nonlinear_arith)
            requires digits_val(s.take(n)) >= 0;
    } else {
        assert(s.take(n) =~= s);
    }
}

/// First value stored under `key` in a parameter list.
pub open spec fn param_of(ps: Seq<(String, String)>, key: Seq<char>) -> Option<Seq<char>>
    decreases ps.len(),
{
    if ps.len() == 0 {
        None
    } else if ps[0].0@ == key {
        Some(ps[0].1@)
    } else {
        param_of(ps.drop_first(), key)
    }
}

/// The bar field an indicator reads, by name.
pub open spec fn spec_bar_field(b: Bar, field: Seq<char>) -> Option<u64> {
    if field == "close"@ {
        Some(b.close)
    } else if field == "open"@ {
        Some(b.open)
    } else if field == "high"@ {
        Some(b.high)
    } else if field == "low"@ {
        Some(b.low)
    } else if field == "volume"@ {
        Some(b.volume)
    } else {
        None
    }
}

/// Sum of a value sequence.
pub open spec fn seq_sum(s: Seq<u64>) -> int
    decreases s.len(),
{
    if s.len() == 0 {
        0
    } else {
        seq_sum(s.drop_last()) + s.last()
    }
}

/// The sum of `n` machine words is bounded by `n` times the largest.
proof fn lemma_seq_sum_bounds(s: Seq<u64>)
    ensures
        0 <= seq_sum(s) <= s.len() * (u64::MAX as int),
    decreases s.len(),
{
    if s.len() == 0 {
    } else {
        lemma_seq_sum_bounds(s.drop_last());
        assert((s.len() - 1) * (u64::MAX as int) + (u64::MAX as int) == s.len() * (
        u64::MAX as int)) by (nonlinear_arith);
    }
}

/// The simple moving average aligned at instant `t`: the mean of the last
/// `period` field values among the bars at or before `t`, where at least
/// `period` such bars exist.
pub open spec fn spec_sma_at(vals: Seq<u64>, bars: Seq<Bar>, period: int, t: i64) -> Option<u64> {
    let j = count_le(bars, t);
    if j >= period && j >= 1 {
        Some((seq_sum(vals.subrange(j - period, j)) / period) as u64)
    } else {
        None
    }
}

/// The effective parameters of a built-in simple moving average: the `period`
/// parameter read as a number (the lookback period where absent or
/// unreadable, one atop a zero), and the `field` parameter (the close where
/// absent).
pub open spec fn spec_sma_period(params: Seq<(String, String)>, lookback: int) -> int {
    let parsed = match param_of(params, "period"@) {
        Some(v) => match spec_parse_u64(v) {
            Some(n) => n as int,
            None => lookback,
        },
        None => lookback,
    };
    if parsed == 0 {
        if lookback >= 1 {
            lookback
        } else {
            1
        }
    } else {
        parsed
    }
}

/// The field a built-in simple moving average reads.
pub open spec fn spec_sma_field(params: Seq<(String, String)>) -> Seq<char> {
    match param_of(params, "field"@) {
        Some(v) => v,
        None => "close"@,
    }
}

/// The aligned value series of an indicator on one symbol, at timeline
/// position `i`: for a built-in simple moving average over a known field of a
/// symbol with data, the mean over the trailing window of bars at or before
/// the instant; absent in every other case.
pub open spec fn spec_aligned_at(def: IndicatorDef, bars: Seq<Bar>, t: i64) -> Option<u64> {
    match def {
        IndicatorDef::Builtin { name, params, lookback_period } => {
            if name@ == "sma"@ && bars.len() > 0 {
                let field = spec_sma_field(params@);
                let period = spec_sma_period(params@, lookback_period as int);
                if spec_bar_field(bars[0], field) is Some {
                    spec_sma_at(
                        bars.map_values(|b: Bar| spec_bar_field(b, field).unwrap()),
                        bars,
                        period,
                        t,
                    )
                } else {
                    None
                }
            } else {
                None
            }
        },
        IndicatorDef::External { .. } => None,
    }
}

/// The filtering predicate of value windows: keep the present values.
pub open spec fn is_present() -> spec_fn(Option<u64>) -> bool {
    |v: Option<u64>| v is Some
}

/// What a window query over a value series yields at position `cur`: nothing
/// past the end of the series; the raw entry for a window of one; otherwise
/// the present values of the window ending at `cur`, or nothing when none is
/// present.
pub open spec fn spec_value_window(series: Seq<Option<u64>>, cur: int, count: int) -> Option<
    Seq<Option<u64>>> {
    if cur >= series.len() {
        None
    } else {
        let back = if count >= 1 {
            count - 1
        } else {
            0
        };
        let start = if cur >= back {
            cur - back
        } else {
            0
        };
        let slice = series.subrange(start, cur + 1);
        if count == 1 {
            Some(seq![slice[0]])
        } else {
            let kept = slice.filter(is_present());
            if kept.len() == 0 {
                None
            } else {
                Some(kept)
            }
        }
    }
}

/// Whether a definition is registered under `n`.
pub open spec fn has_indicator(is: Seq<(String, IndicatorDef)>, n: Seq<char>) -> bool {
    exists|i: int| 0 <= i < is.len() && (#[trigger] is[i]).0@ == n
}

/// Index of the definition registered under `n`; meaningful only when
/// `has_indicator`.
pub open spec fn indicator_index(is: Seq<(String, IndicatorDef)>, n: Seq<char>) -> int {
    choose|i: int| 0 <= i < is.len() && (#[trigger] is[i]).0@ == n
}

/// First series stored under an (indicator, symbol) key.
pub open spec fn values_lookup(
    vs: Seq<(String, String, Vec<Option<u64>>)>,
    n: Seq<char>,
    sym: Seq<char>,
) -> Option<Seq<Option<u64>>>
    decreases vs.len(),
{
    if vs.len() == 0 {
        None
    } else if vs[0].0@ == n && vs[0].1@ == sym {
        Some(vs[0].2@)
    } else {
        values_lookup(vs.drop_first(), n, sym)
    }
}

/// The value stored under `key` in a parameter list, if any.
#[verifier::loop_isolation(false)]
fn get_param<'a>(ps: &'a Vec<(String, String)>, key: &str) -> (r: Option<&'a String>)
    ensures
        match r {
            Some(v) => param_of(ps@, key@) == Some(v@),
            None => param_of(ps@, key@) is None,
        },
{
    let mut k: usize = 0;
    proof {
        assert(ps@.skip(0) =~= ps@);
    }
    while k < ps.len()
        invariant
            k <= ps@.len(),
            param_of(ps@, key@) == param_of(ps@.skip(k as int), key@),
        decreases ps@.len() - k,
    {
        proof {
            assert(ps@.skip(k as int)[0] == ps@[k as int]);
            assert(ps@.skip(k as int).drop_first() =~= ps@.skip(k as int + 1));
        }
        if str_eq(ps[k].0.as_str(), key) {
            return Some(&ps[k].1);
        }
        k += 1;
    }
    proof {
        assert(ps@.skip(ps@.len() as int).len() == 0);
    }
    None
}

/// The aligned value series of one indicator over one symbol's bars, as
/// `spec_aligned_at` describes at each timeline position.
#[verifier::loop_isolation(false)]
fn compute_series(def: &IndicatorDef, bars: &Vec<Bar>, timeline: &Vec<i64>) -> (r: Vec<
    Option<u64>>)
    requires
        strictly_sorted_by_datetime(bars@),
        forall|a: int, b: int|
            0 <= a < b < timeline@.len() ==> #[trigger] timeline@[a] < #[trigger] timeline@[b],
    ensures
        r@.len() == timeline@.len(),
        forall|i: int| 0 <= i < r@.len() ==> #[trigger] r@[i] == spec_aligned_at(
            *def, bars@, timeline@[i]),
{
    let tl = timeline.len();
    let is_sma: bool = match def {
        IndicatorDef::Builtin { name, .. } => str_eq(name.as_str(), "sma"),
        IndicatorDef::External { .. } => false,
    };
    if !is_sma || bars.len() == 0 {
        let mut out: Vec<Option<u64>> = Vec::new();
        let mut i: usize = 0;
        while i < tl
            invariant
                i <= tl,
                out@.len() == i,
                forall|q: int| 0 <= q < i ==> #[trigger] out@[q] is None,
            decreases tl - i,
        {
            out.push(None);
            i += 1;
        }
        return out;
    }
    match def {
        IndicatorDef::External { .. } => {
            // Unreachable: `is_sma` is false for external indicators.
            let mut out: Vec<Option<u64>> = Vec::new();
            let mut i: usize = 0;
            while i < tl
                invariant
                    i <= tl,
                    out@.len() == i,
                    forall|q: int| 0 <= q < i ==> #[trigger] out@[q] is None,
                decreases tl - i,
            {
                out.push(None);
                i += 1;
            }
            out
        },
        IndicatorDef::Builtin { name, params, lookback_period } => {
            // Effective field: 0 close, 1 open, 2 high, 3 low, 4 volume.
            let field_known: Option<usize> = {
                let f: &str = match get_param(params, "field") {
                    Some(v) => v.as_str(),
                    None => "close",
                };
                proof {
                    assert(f@ == spec_sma_field(params@));
                }
                if str_eq(f, "close") {
                    Some(0)
                } else if str_eq(f, "open") {
                    Some(1)
                } else if str_eq(f, "high") {
                    Some(2)
                } else if str_eq(f, "low") {
                    Some(3)
                } else if str_eq(f, "volume") {
                    Some(4)
                } else {
                    None
                }
            };
            let ghost fld = spec_sma_field(params@);
            let tag: usize = match field_known {
                Some(t) => t,
                None => {
                    proof {
                        assert(spec_bar_field(bars@[0], fld) is None);
                    }
                    let mut out: Vec<Option<u64>> = Vec::new();
                    let mut i: usize = 0;
                    while i < tl
                        invariant
                            i <= tl,
                            out@.len() == i,
                            forall|q: int| 0 <= q < i ==> #[trigger] out@[q] is None,
                        decreases tl - i,
                    {
                        out.push(None);
                        i += 1;
                    }
                    return out;
                },
            };
            proof {
                assert(spec_bar_field(bars@[0], fld) is Some);
            }
            // Effective period.
            let lb: u64 = *lookback_period as u64;
            let parsed: u64 = match get_param(params, "period") {
                Some(v) => match parse_u64(v.as_str()) {
                    Some(n) => n,
                    None => lb,
                },
                None => lb,
            };
            let eff: u64 = if parsed == 0 {
                if lb >= 1 {
                    lb
                } else {
                    1
                }
            } else {
                parsed
            };
            proof {
                assert(eff as int == spec_sma_period(params@, *lookback_period as int));
                assert(eff >= 1);
            }
            // Extract the field values.
            let nb = bars.len();
            let mut vals: Vec<u64> = Vec::new();
            let mut i: usize = 0;
            while i < nb
                invariant
                    i <= nb,
                    nb == bars@.len(),
                    vals@.len() == i,
                    0 <= tag <= 4,
                    tag == 0 ==> fld == "close"@,
                    tag == 1 ==> fld == "open"@,
                    tag == 2 ==> fld == "high"@,
                    tag == 3 ==> fld == "low"@,
                    tag == 4 ==> fld == "volume"@,
                    forall|q: int| 0 <= q < i ==> #[trigger] vals@[q] == spec_bar_field(
                        bars@[q], fld).unwrap(),
                    forall|q: int|
                        0 <= q < bars@.len() ==> spec_bar_field(#[trigger] bars@[q], fld)
                            is Some,
                decreases nb - i,
            {
                let b = &bars[i];
                let v: u64 = if tag == 0 {
                    b.close
                } else if tag == 1 {
                    b.open
                } else if tag == 2 {
                    b.high
                } else if tag == 3 {
                    b.low
                } else {
                    b.volume
                };
                vals.push(v);
                i += 1;
            }
            let ghost gvals = bars@.map_values(|b: Bar| spec_bar_field(b, fld).unwrap());
            proof {
                assert(vals@ =~= gvals);
            }
            // Walk the timeline, advancing the joint cursor.
            let mut out: Vec<Option<u64>> = Vec::new();
            let mut j: usize = 0;
            let mut i2: usize = 0;
            while i2 < tl
                invariant
                    i2 <= tl,
                    tl == timeline@.len(),
                    nb == bars@.len(),
                    vals@ == gvals,
                    vals@.len() == bars@.len(),
                    eff >= 1,
                    strictly_sorted_by_datetime(bars@),
                    forall|a: int, b: int|
                        0 <= a < b < timeline@.len() ==> #[trigger] timeline@[a]
                            < #[trigger] timeline@[b],
                    out@.len() == i2,
                    j <= nb,
                    i2 == 0 ==> j == 0,
                    i2 >= 1 ==> j as int == count_le(bars@, timeline@[i2 as int - 1]),
                    forall|q: int| 0 <= q < i2 ==> #[trigger] out@[q] == spec_aligned_at(
                        *def, bars@, timeline@[q]),
                decreases tl - i2,
            {
                let t = timeline[i2];
                proof {
                    if i2 >= 1 {
                        lemma_count_le_sorted(bars@, timeline@[i2 as int - 1]);
                        assert(timeline@[i2 as int - 1] < timeline@[i2 as int]);
                    }
                }
                while j < nb && bars[j].datetime <= t
                    invariant
                        j <= nb,
                        nb == bars@.len(),
                        strictly_sorted_by_datetime(bars@),
                        t == timeline@[i2 as int],
                        forall|q: int| 0 <= q < j ==> (#[trigger] bars@[q]).datetime <= t,
                    decreases nb - j,
                {
                    proof {
                        assert forall|q: int| 0 <= q < j + 1 implies (
                            #[trigger] bars@[q]).datetime <= t by {
                            if q < j as int {
                            } else {
                                assert(bars@[j as int].datetime <= t);
                            }
                        }
                    }
                    j += 1;
                }
                proof {
                    assert forall|q: int| j <= q < nb implies (#[trigger] bars@[q]).datetime
                        > t by {
                        if q == j as int {
                        } else {
                            assert(bars@[j as int].datetime < bars@[q].datetime);
                        }
                    }
                    lemma_count_le_char(bars@, t, j as int);
                }
                if (j as u64) >= eff && j >= 1 {
                    let start: usize = j - (eff as usize);
                    let mut acc: u128 = 0;
                    let mut m: usize = start;
                    while m < j
                        invariant
                            start <= m <= j,
                            j <= vals@.len(),
                            acc as int == seq_sum(vals@.subrange(start as int, m as int)),
                            acc as int <= (m as int - start as int) * (u64::MAX as int),
                        decreases j - m,
                    {
                        proof {
                            assert(vals@.subrange(start as int, m as int + 1).drop_last()
                                =~= vals@.subrange(start as int, m as int));
                            assert(vals@.subrange(start as int, m as int + 1).last()
                                == vals@[m as int]);
                            assert((m as int - start as int) * (u64::MAX as int)
                                + (u64::MAX as int) == (m as int + 1 - start as int) * (
                            u64::MAX as int)) by (nonlinear_arith);
                            assert((m as int + 1 - start as int) * (u64::MAX as int)
                                <= (u64::MAX as int) * (u64::MAX as int)) by (nonlinear_arith)
                                requires m as int + 1 - start as int <= u64::MAX as int;
                            assert((u64::MAX as int) * (u64::MAX as int) < u128::MAX as int)
                                by (nonlinear_arith);
                        }
                        acc = acc + vals[m] as u128;
                        m += 1;
                    }
                    let mean: u128 = acc / (eff as u128);
                    proof {
                        let window = vals@.subrange(j as int - eff as int, j as int);
                        assert(window =~= vals@.subrange(start as int, j as int));
                        lemma_seq_sum_bounds(window);
                        vstd::arithmetic::div_mod::lemma_div_is_ordered(
                            seq_sum(window), (eff as int) * (u64::MAX as int), eff as int);
                        vstd::arithmetic::div_mod::lemma_div_by_multiple(
                            u64::MAX as int, eff as int);
                        assert((eff as int) * (u64::MAX as int) == (u64::MAX as int) * (
                        eff as int)) by (nonlinear_arith);
                    }
                    out.push(Some(mean as u64));
                } else {
                    out.push(None);
                }
                i2 += 1;
            }
            out
        },
    }
}

/// The indicator engine: registered indicators, the precomputed value series
/// per indicator and symbol, and the current timeline position.
pub struct IndicatorEngine {
    pub indicators: Vec<(String, IndicatorDef)>,
    pub values: Vec<(String, String, Vec<Option<u64>>)>,
    pub current_index: usize,
}

impl IndicatorEngine {
    /// One entry per indicator name.
    pub open spec fn wf(self) -> bool {
        forall|a: int, b: int|
            0 <= a < b < self.indicators@.len() ==> (#[trigger] self.indicators@[a]).0@ != (
            #[trigger] self.indicators@[b]).0@
    }

    /// A fresh engine with nothing registered.
    pub fn new() -> (r: IndicatorEngine)
        ensures
            r.wf(),
            r.indicators@.len() == 0,
            r.values@.len() == 0,
            r.current_index == 0,
    {
        IndicatorEngine { indicators: Vec::new(), values: Vec::new(), current_index: 0 }
    }

    /// Register `def` under `name`, replacing any earlier definition of that
    /// name.
    #[verifier::loop_isolation(false)]
    pub fn register_indicator(&mut self, name: String, def: IndicatorDef)
        requires
            old(self).wf(),
        ensures
            final(self).wf(),
            final(self).values == old(self).values,
            final(self).current_index == old(self).current_index,
            final(self).indicators@ == if has_indicator(old(self).indicators@, name@) {
                old(self).indicators@.update(
                    indicator_index(old(self).indicators@, name@), ((name, def)))
            } else {
                old(self).indicators@.push(((name, def)))
            },
    {
        let mut k: usize = 0;
        let n = self.indicators.len();
        while k < n
            invariant
                self == old(self),
                n == self.indicators@.len(),
                k <= n,
                forall|i: int| 0 <= i < k ==> (#[trigger] self.indicators@[i]).0@ != name@,
            decreases n - k,
        {
            if str_eq(self.indicators[k].0.as_str(), name.as_str()) {
                proof {
                    assert(old(self).indicators@[k as int].0@ == name@);
                    assert(has_indicator(old(self).indicators@, name@));
                    let j = indicator_index(old(self).indicators@, name@);
                    assert(old(self).indicators@[j].0@ == name@);
                    assert(j == k as int);
                }
                let mut tmp: (String, IndicatorDef) = (name, def);
                self.indicators.set_and_swap(k, &mut tmp);
                proof {
                    assert(self.indicators@ =~= old(self).indicators@.update(
                        k as int, ((name, def))));
                    assert forall|a: int, b: int|
                        0 <= a < b < self.indicators@.len() implies (
                        #[trigger] self.indicators@[a]).0@ != (
                        #[trigger] self.indicators@[b]).0@ by {
                        assert(old(self).indicators@[a].0@ != old(self).indicators@[b].0@);
                        assert(self.indicators@[a].0@ == old(self).indicators@[a].0@);
                        assert(self.indicators@[b].0@ == old(self).indicators@[b].0@);
                    }
                }
                return;
            }
            k += 1;
        }
        self.indicators.push((name, def));
        proof {
            let m = old(self).indicators@.len() as int;
            assert(self.indicators@[m].0@ == name@);
            assert forall|a: int, b: int|
                0 <= a < b < self.indicators@.len() implies (#[trigger] self.indicators@[a]).0@
                    != (#[trigger] self.indicators@[b]).0@ by {
                if b < m {
                    assert(old(self).indicators@[a].0@ != old(self).indicators@[b].0@);
                } else {
                    assert(self.indicators@[b].0@ == name@);
                    if a < m {
                        assert(old(self).indicators@[a].0@ != name@);
                    }
                }
            }
        }
    }

    /// Precompute, for each registered indicator and each symbol of the
    /// feed, the value series aligned to the canonical timeline: the entry at
    /// a timeline position depends only on bars at or before that instant,
    /// as `spec_aligned_at` describes.  Earlier series are discarded.
    #[verifier::loop_isolation(false)]
    pub fn compute_all_indicators(&mut self, datafeed: &DataFeed)
        requires
            old(self).wf(),
            datafeed.wf(),
        ensures
            final(self).wf(),
            final(self).indicators == old(self).indicators,
            final(self).current_index == old(self).current_index,
            final(self).values@.len() == old(self).indicators@.len()
                * datafeed.symbols@.len(),
            forall|a: int, b: int|
                #![trigger final(self).values@[a * datafeed.symbols@.len() + b]]
                0 <= a < old(self).indicators@.len() && 0 <= b < datafeed.symbols@.len() ==> {
                    let e = final(self).values@[a * datafeed.symbols@.len() + b];
                    e.0@ == old(self).indicators@[a].0@ && e.1@
                        == datafeed.symbols@[b]@ && e.2@.len()
                        == datafeed.benchmark_timeline@.len() && (forall|i: int|
                        0 <= i < e.2@.len() ==> #[trigger] e.2@[i] == spec_aligned_at(
                            old(self).indicators@[a].1, (datafeed.series@[b])@,
                            datafeed.benchmark_timeline@[i]))
                },
    {
        let symbols = datafeed.get_symbols();
        let ghost sn = datafeed.symbols@.len() as int;
        proof {
            assert forall|a: int, b: int|
                0 <= a < b < datafeed.benchmark_timeline@.len() implies #[trigger] datafeed
                    .benchmark_timeline@[a] < #[trigger] datafeed.benchmark_timeline@[b] by {
                assert(datafeed.benchmark_bars@[a].datetime < datafeed.benchmark_bars@[b].datetime);
            }
        }
        let mut new_values: Vec<(String, String, Vec<Option<u64>>)> = Vec::new();
        let ni = self.indicators.len();
        let ns = symbols.len();
        let mut ii: usize = 0;
        while ii < ni
            invariant
                new_values@.len() == ii as int * sn,
                ii <= ni,
                forall|a: int, b: int|
                    #![trigger new_values@[a * sn + b]]
                    0 <= a < ii && 0 <= b < sn ==> {
                        let e = new_values@[a * sn + b];
                        e.0@ == self.indicators@[a].0@ && e.1@
                            == datafeed.symbols@[b]@ && e.2@.len()
                            == datafeed.benchmark_timeline@.len() && (forall|i: int|
                            0 <= i < e.2@.len() ==> #[trigger] e.2@[i] == spec_aligned_at(
                                self.indicators@[a].1, (datafeed.series@[b])@,
                                datafeed.benchmark_timeline@[i]))
                    },
            decreases ni - ii,
        {
            let mut si: usize = 0;
            while si < ns
                invariant
                    new_values@.len() == ii as int * sn + si as int,
                    si <= ns,
                    ii < ni,
                    forall|a: int, b: int|
                        #![trigger new_values@[a * sn + b]]
                        0 <= a < ni && 0 <= b < sn && (a < ii || (a == ii && b < si)) ==> {
                            let e = new_values@[a * sn + b];
                            e.0@ == self.indicators@[a].0@ && e.1@
                                == datafeed.symbols@[b]@ && e.2@.len()
                                == datafeed.benchmark_timeline@.len() && (forall|i: int|
                                0 <= i < e.2@.len() ==> #[trigger] e.2@[i] == spec_aligned_at(
                                    self.indicators@[a].1, (datafeed.series@[b])@,
                                    datafeed.benchmark_timeline@[i]))
                        },
                decreases ns - si,
            {
                proof {
                    assert(symbols@[si as int]@ == datafeed.symbols@[si as int]@);
                    assert(has_symbol(datafeed.symbols@, symbols@[si as int]@));
                    let j = symbol_index(datafeed.symbols@, symbols@[si as int]@);
                    assert(datafeed.symbols@[j]@ == symbols@[si as int]@);
                    assert(j == si as int);
                }
                let bars = datafeed.get_all_bars_for_symbol(symbols[si].as_str());
                proof {
                    assert(bars@ == (datafeed.series@[si as int])@);
                    assert(strictly_sorted_by_datetime(bars@));
                }
                let series = compute_series(&self.indicators[ii].1, &bars,
                    datafeed.benchmark_timeline());
                let ghost vs0 = new_values@;
                new_values.push((self.indicators[ii].0.clone(), symbols[si].clone(), series));
                proof {
                    assert(vs0.len() == ii as int * sn + si as int);
                    assert forall|a: int, b: int|
                        #![trigger new_values@[a * sn + b]]
                        0 <= a < ni && 0 <= b < sn && (a < ii as int || (a == ii as int && b
                            < si as int + 1)) implies {
                        let e = new_values@[a * sn + b];
                        e.0@ == self.indicators@[a].0@ && e.1@
                            == datafeed.symbols@[b]@ && e.2@.len()
                            == datafeed.benchmark_timeline@.len() && (forall|i: int|
                            0 <= i < e.2@.len() ==> #[trigger] e.2@[i] == spec_aligned_at(
                                self.indicators@[a].1, (datafeed.series@[b])@,
                                datafeed.benchmark_timeline@[i]))
                    } by {
                        if a == ii as int && b == si as int {
                            assert(a * sn + b == vs0.len()) by (nonlinear_arith)
                                requires a == ii as int && b == si as int && vs0.len()
                                    == ii as int * sn + si as int;
                            assert(new_values@[a * sn + b] == new_values@[vs0.len() as int]);
                        } else {
                            assert(a * sn + b < vs0.len()) by (nonlinear_arith)
                                requires
                                    0 <= a,
                                    0 <= b < sn,
                                    (a < ii as int || (a == ii as int && b < si as int)),
                                    vs0.len() == ii as int * sn + si as int,
                            ;
                            assert(0 <= a * sn + b) by (nonlinear_arith)
                                requires 0 <= a && 0 <= b && sn >= 0;
                            assert(new_values@[a * sn + b] == vs0[a * sn + b]);
                        }
                    }
                }
                si += 1;
            }
            proof {
                assert(ii as int * sn + sn == (ii as int + 1) * sn) by (nonlinear_arith);
            }
            ii += 1;
        }
        self.values = new_values;
    }

    /// Whether any indicator is registered.
    pub fn has_indicators(&self) -> (r: bool)
        ensures
            r == (self.indicators@.len() > 0),
    {
        self.indicators.len() > 0
    }

    /// Move the engine to timeline position `index`.
    pub fn update_index(&mut self, index: usize)
        ensures
            final(self).current_index == index,
            final(self).indicators == old(self).indicators,
            final(self).values == old(self).values,
    {
        self.current_index = index;
    }

    /// Index of the series stored first under `(name, symbol)`, if any.
    #[verifier::loop_isolation(false)]
    fn find_series(&self, name: &str, symbol: &str) -> (r: Option<usize>)
        ensures
            match r {
                Some(i) => i < self.values@.len() && self.values@[i as int].0@ == name@
                    && self.values@[i as int].1@ == symbol@ && values_lookup(
                    self.values@, name@, symbol@) == Some(self.values@[i as int].2@) && (
                forall|q: int|
                    0 <= q < i ==> !((#[trigger] self.values@[q]).0@ == name@
                        && self.values@[q].1@ == symbol@)),
                None => values_lookup(self.values@, name@, symbol@) is None,
            },
    {
        let mut k: usize = 0;
        let n = self.values.len();
        proof {
            assert(self.values@.skip(0) =~= self.values@);
        }
        while k < n
            invariant
                n == self.values@.len(),
                k <= n,
                values_lookup(self.values@, name@, symbol@) == values_lookup(
                    self.values@.skip(k as int), name@, symbol@),
                forall|q: int|
                    0 <= q < k ==> !((#[trigger] self.values@[q]).0@ == name@
                        && self.values@[q].1@ == symbol@),
            decreases n - k,
        {
            proof {
                assert(self.values@.skip(k as int)[0] == self.values@[k as int]);
                assert(self.values@.skip(k as int).drop_first() =~= self.values@.skip(
                    k as int + 1));
            }
            if str_eq(self.values[k].0.as_str(), name) && str_eq(
                self.values[k].1.as_str(), symbol) {
                return Some(k);
            }
            k += 1;
        }
        proof {
            assert(self.values@.skip(n as int).len() == 0);
        }
        None
    }

    /// The indicator value at the current timeline position: the stored
    /// series entry there, or nothing when no series, no entry, or an absent
    /// value stands there.
    pub fn get_indicator_value(&self, name: &str, symbol: &str) -> (r: Option<u64>)
        ensures
            r == match values_lookup(self.values@, name@, symbol@) {
                Some(series) => if (self.current_index as int) < series.len() {
                    series[self.current_index as int]
                } else {
                    None
                },
                None => None,
            },
    {
        match self.find_series(name, symbol) {
            Some(i) => {
                let series = &self.values[i].2;
                if self.current_index < series.len() {
                    series[self.current_index]
                } else {
                    None
                }
            },
            None => None,
        }
    }

    /// The window of indicator values ending at the current position: the
    /// raw entry for a window of one; for longer windows the present values
    /// only, or nothing when none is present.  Nothing without a stored
    /// series or past its end.
    #[verifier::loop_isolation(false)]
    pub fn get_indicator_value_count(&self, name: &str, symbol: &str, count: usize) -> (r:
        Option<Vec<Option<u64>>>)
        ensures
            match values_lookup(self.values@, name@, symbol@) {
                Some(series) => {
                    let w = spec_value_window(series, self.current_index as int, count as int);
                    (r is Some <==> w is Some) && (r is Some ==> r.unwrap()@ == w.unwrap())
                },
                None => r is None,
            },
    {
        let i = match self.find_series(name, symbol) {
            Some(i) => i,
            None => {
                return None;
            },
        };
        let series = &self.values[i].2;
        let n = series.len();
        if self.current_index >= n {
            return None;
        }
        let back = if count >= 1 {
            count - 1
        } else {
            0
        };
        let start = if self.current_index >= back {
            self.current_index - back
        } else {
            0
        };
        let mut slice: Vec<Option<u64>> = Vec::new();
        let mut m: usize = start;
        while m <= self.current_index
            invariant
                start <= m <= self.current_index + 1,
                slice@ == series@.subrange(start as int, m as int),
            decreases self.current_index + 1 - m,
        {
            proof {
                assert(series@.subrange(start as int, m as int + 1).drop_last() =~= series@
                    .subrange(start as int, m as int));
                assert(series@.subrange(start as int, m as int + 1).last() == series@[m as int]);
            }
            slice.push(series[m]);
            m += 1;
        }
        if count == 1 {
            let mut one: Vec<Option<u64>> = Vec::new();
            one.push(slice[0]);
            proof {
                assert(one@ =~= seq![series@.subrange(start as int, self.current_index as int
                    + 1)[0]]);
            }
            return Some(one);
        }
        let mut kept: Vec<Option<u64>> = Vec::new();
        let mut m2: usize = 0;
        let ghost sl = slice@;
        proof {
            reveal_with_fuel(Seq::filter, 2);
        }
        while m2 < slice.len()
            invariant
                m2 <= sl.len(),
                slice@ == sl,
                kept@ == sl.take(m2 as int).filter(is_present()),
            decreases sl.len() - m2,
        {
            proof {
                assert(sl.take(m2 as int + 1).drop_last() =~= sl.take(m2 as int));
                assert(sl.take(m2 as int + 1).last() == sl[m2 as int]);
                reveal_with_fuel(Seq::filter, 2);
            }
            if slice[m2].is_some() {
                kept.push(slice[m2]);
            }
            m2 += 1;
        }
        proof {
            assert(sl.take(sl.len() as int) =~= sl);
        }
        if kept.len() == 0 {
            None
        } else {
            Some(kept)
        }
    }

    /// Write `value` into the stored series for `(name, symbol)` at `index`;
    /// nothing happens without such a series or past its end.
    pub fn set_indicator_value(&mut self, name: &str, symbol: &str, index: usize, value: u64)
        ensures
            final(self).indicators == old(self).indicators,
            final(self).current_index == old(self).current_index,
            final(self).values@.len() == old(self).values@.len(),
            forall|q: int|
                0 <= q < old(self).values@.len() ==> (#[trigger] final(self).values@[q]).0 == old(
                    self).values@[q].0 && final(self).values@[q].1 == old(self).values@[q].1,
            match values_lookup(old(self).values@, name@, symbol@) {
                Some(series) => if (index as int) < series.len() {
                    values_lookup(final(self).values@, name@, symbol@) == Some(
                        series.update(index as int, Some(value))) && exists|i: int|
                        #![trigger old(self).values@[i]]
                        {
                            &&& 0 <= i < old(self).values@.len()
                            &&& old(self).values@[i].0@ == name@
                            &&& old(self).values@[i].1@ == symbol@
                            &&& forall|q: int|
                                0 <= q < old(self).values@.len() && q != i ==> #[trigger] final(
                                    self).values@[q] == old(self).values@[q]
                            &&& final(self).values@[i].0 == old(self).values@[i].0
                            &&& final(self).values@[i].1 == old(self).values@[i].1
                            &&& final(self).values@[i].2@ == old(self).values@[i].2@.update(
                                index as int, Some(value))
                        }
                } else {
                    final(self).values == old(self).values
                },
                None => final(self).values == old(self).values,
            },
    {
        match self.find_series(name, symbol) {
            Some(i) => {
                if index < self.values[i].2.len() {
                    let mut tmp: (String, String, Vec<Option<u64>>) = (
                        String::new(),
                        String::new(),
                        Vec::new(),
                    );
                    self.values.set_and_swap(i, &mut tmp);
                    tmp.2.set(index, Some(value));
                    self.values.set_and_swap(i, &mut tmp);
                    proof {
                        lemma_values_lookup_update(
                            old(self).values@, self.values@, i as int, name@, symbol@);
                    }
                } else {
                }
            },
            None => {},
        }
    }
}

/// When only the series of the first `(name, symbol)` entry changes, the
/// lookup of that key finds the new series.
proof fn lemma_values_lookup_update(
    vs_old: Seq<(String, String, Vec<Option<u64>>)>,
    vs_new: Seq<(String, String, Vec<Option<u64>>)>,
    i: int,
    n: Seq<char>,
    sym: Seq<char>,
)
    requires
        vs_old.len() == vs_new.len(),
        0 <= i < vs_old.len(),
        forall|q: int| 0 <= q < vs_old.len() && q != i ==> vs_new[q] == vs_old[q],
        vs_new[i].0 == vs_old[i].0,
        vs_new[i].1 == vs_old[i].1,
        vs_old[i].0@ == n,
        vs_old[i].1@ == sym,
        forall|q: int| 0 <= q < i ==> !((#[trigger] vs_old[q]).0@ == n && vs_old[q].1@ == sym),
    ensures
        values_lookup(vs_new, n, sym) == Some(vs_new[i].2@),
    decreases i,
{
    if i == 0 {
        assert(vs_new[0].0@ == n && vs_new[0].1@ == sym);
    } else {
        assert(!(vs_new[0].0@ == n && vs_new[0].1@ == sym));
        lemma_values_lookup_update(vs_old.drop_first(), vs_new.drop_first(), i - 1, n, sym);
    }
}

/// No look-ahead: the aligned indicator value at instant `t` is the same
/// whether it is computed from the whole bar series or from only the bars at
/// or before `t`.  With `compute_all_indicators` aligning position `i` at
/// instant `T[i]`, the value stored there is a function of the bars dated at
/// or before `T[i]` alone.
pub proof fn lemma_aligned_no_lookahead(def: IndicatorDef, bars: Seq<Bar>, t: i64)
    requires
        sorted_by_datetime(bars),
    ensures
        spec_aligned_at(def, bars, t) == spec_aligned_at(
            def, bars.take(count_le(bars, t)), t),
{
    lemma_count_le_sorted(bars, t);
    let c = count_le(bars, t);
    let pre = bars.take(c);
    assert(count_le(pre, t) == c) by {
        assert(forall|i: int| 0 <= i < c ==> (#[trigger] pre[i]).datetime <= t);
        lemma_count_le_char(pre, t, c);
    }
    match def {
        IndicatorDef::Builtin { name, params, lookback_period } => {
            if name@ == "sma"@ && bars.len() > 0 && c >= 1 {
                let field = spec_sma_field(params@);
                assert(pre[0] == bars[0]);
                if spec_bar_field(bars[0], field) is Some {
                    let period = spec_sma_period(params@, lookback_period as int);
                    let vals = bars.map_values(|b: Bar| spec_bar_field(b, field).unwrap());
                    let vals_pre = pre.map_values(|b: Bar| spec_bar_field(b, field).unwrap());
                    if c >= period && period >= 1 {
                        assert(vals_pre.subrange(c - period, c) =~= vals.subrange(c - period, c));
                    }
                }
            }
        },
        IndicatorDef::External { .. } => {
        },
    }
}

} // verus!
