//! Market data management: the canonical timeline taken from the benchmark
//! symbol and, per tradable symbol, a monotone cursor pointing at the latest
//! bar at or before the current timeline instant.

use vstd::prelude::*;
use crate::types::Bar;

verus! {

/// Bars in non-decreasing datetime order.
pub open spec fn sorted_by_datetime(bars: Seq<Bar>) -> bool {
    forall|i: int, j: int|
        0 <= i <= j < bars.len() ==> (#[trigger] bars[i]).datetime <= (#[trigger] bars[j]).datetime
}

/// Bars in strictly increasing datetime order.
pub open spec fn strictly_sorted_by_datetime(bars: Seq<Bar>) -> bool {
    forall|i: int, j: int|
        0 <= i < j < bars.len() ==> (#[trigger] bars[i]).datetime < (#[trigger] bars[j]).datetime
}

/// No two bars share a datetime.
pub open spec fn distinct_datetimes(bars: Seq<Bar>) -> bool {
    forall|i: int, j: int|
        0 <= i < j < bars.len() ==> (#[trigger] bars[i]).datetime != (#[trigger] bars[j]).datetime
}

/// How many bars have datetime at or before `t`.
pub open spec fn count_le(bars: Seq<Bar>, t: i64) -> int
    decreases bars.len(),
{
    if bars.len() == 0 {
        0
    } else {
        count_le(bars.drop_last(), t) + if bars.last().datetime <= t {
            1int
        } else {
            0int
        }
    }
}

/// `count_le` is between 0 and the length.
pub proof fn lemma_count_le_bounds(bars: Seq<Bar>, t: i64)
    ensures
        0 <= count_le(bars, t) <= bars.len(),
    decreases bars.len(),
{
    if bars.len() > 0 {
        lemma_count_le_bounds(bars.drop_last(), t);
    }
}

/// On a sorted sequence the bars at or before `t` are exactly the prefix of
/// length `count_le`.
pub proof fn lemma_count_le_sorted(bars: Seq<Bar>, t: i64)
    requires
        sorted_by_datetime(bars),
    ensures
        0 <= count_le(bars, t) <= bars.len(),
        forall|i: int| 0 <= i < count_le(bars, t) ==> (#[trigger] bars[i]).datetime <= t,
        forall|i: int| count_le(bars, t) <= i < bars.len() ==> (#[trigger] bars[i]).datetime > t,
    decreases bars.len(),
{
    lemma_count_le_bounds(bars, t);
    if bars.len() > 0 {
        assert(sorted_by_datetime(bars.drop_last()));
        lemma_count_le_sorted(bars.drop_last(), t);
        let c = count_le(bars, t);
        let n = bars.len() as int;
        if bars.last().datetime <= t {
            // Every earlier bar is at or before the last one.
            assert forall|i: int| 0 <= i < c implies (#[trigger] bars[i]).datetime <= t by {
                assert(bars[i].datetime <= bars[n - 1].datetime);
            }
            assert(count_le(bars.drop_last(), t) == bars.drop_last().len())
                by {
                if count_le(bars.drop_last(), t) < n - 1 {
                    let w = count_le(bars.drop_last(), t);
                    assert(bars.drop_last()[w] == bars[w]);
                    assert(bars[w].datetime > t);
                    assert(bars[w].datetime <= bars[n - 1].datetime);
                }
            }
        } else {
            assert forall|i: int| 0 <= i < c implies (#[trigger] bars[i]).datetime <= t by {
                assert(bars.drop_last()[i] == bars[i]);
            }
            assert forall|i: int| c <= i < n implies (#[trigger] bars[i]).datetime > t by {
                if i < n - 1 {
                    assert(bars.drop_last()[i] == bars[i]);
                }
            }
        }
    }
}

/// Any cut `k` whose prefix is at or before `t` and whose suffix is after `t`
/// equals `count_le`.
pub proof fn lemma_count_le_char(bars: Seq<Bar>, t: i64, k: int)
    requires
        0 <= k <= bars.len(),
        forall|i: int| 0 <= i < k ==> (#[trigger] bars[i]).datetime <= t,
        forall|i: int| k <= i < bars.len() ==> (#[trigger] bars[i]).datetime > t,
    ensures
        count_le(bars, t) == k,
    decreases bars.len(),
{
    if bars.len() == 0 {
    } else {
        let n = bars.len() as int;
        if k == n {
            assert(forall|i: int|
                0 <= i < n - 1 ==> (#[trigger] bars.drop_last()[i]).datetime <= t);
            lemma_count_le_char(bars.drop_last(), t, n - 1);
        } else {
            assert(bars.last().datetime > t);
            assert(forall|i: int|
                0 <= i < k ==> (#[trigger] bars.drop_last()[i]).datetime <= t);
            assert forall|i: int|
                k <= i < n - 1 implies (#[trigger] bars.drop_last()[i]).datetime > t by {
                assert(bars.drop_last()[i] == bars[i]);
            }
            lemma_count_le_char(bars.drop_last(), t, k);
        }
    }
}

/// The datetimes of a bar sequence, in order.
pub open spec fn datetimes_of(bars: Seq<Bar>) -> Seq<i64> {
    bars.map_values(|b: Bar| b.datetime)
}

/// Relies on `slice::sort_by_key` (called through `Vec`): it reorders the
/// elements, so the result is a permutation of the input — of the bars and
/// hence of their datetimes — in non-decreasing key order.
#[verifier::external_body]
fn sort_bars_by_datetime(bars: &mut Vec<Bar>)
    ensures
        final(bars)@.len() == old(bars)@.len(),
        final(bars)@.to_multiset() == old(bars)@.to_multiset(),
        datetimes_of(final(bars)@).to_multiset() == datetimes_of(old(bars)@).to_multiset(),
        sorted_by_datetime(final(bars)@),
{
    bars.sort_by_key(|b| b.datetime);
}

/// A sorted permutation of a sequence with pairwise distinct datetimes is
/// strictly sorted.
pub proof fn lemma_sorted_distinct_strict(sorted: Seq<Bar>, original: Seq<Bar>)
    requires
        sorted_by_datetime(sorted),
        distinct_datetimes(original),
        sorted.len() == original.len(),
        datetimes_of(sorted).to_multiset() == datetimes_of(original).to_multiset(),
    ensures
        strictly_sorted_by_datetime(sorted),
{
    let dts_o = datetimes_of(original);
    let dts_s = datetimes_of(sorted);
    assert(dts_o.no_duplicates()) by {
        assert forall|i: int, j: int|
            0 <= i < dts_o.len() && 0 <= j < dts_o.len() && i != j implies dts_o[i] != dts_o[j] by {
            if i < j {
                assert(original[i].datetime != original[j].datetime);
            } else {
                assert(original[j].datetime != original[i].datetime);
            }
        }
    }
    dts_o.lemma_multiset_has_no_duplicates();
    dts_s.lemma_multiset_has_no_duplicates_conv();
    assert forall|i: int, j: int|
        0 <= i < j < sorted.len() implies (#[trigger] sorted[i]).datetime < (
        #[trigger] sorted[j]).datetime by {
        assert(dts_s[i] == sorted[i].datetime);
        assert(dts_s[j] == sorted[j].datetime);
        assert(dts_s[i] != dts_s[j]);
        assert(sorted[i].datetime <= sorted[j].datetime);
    }
}

/// Index of the last bar at or before `t` in a sorted sequence, by binary
/// search; `None` when every bar is after `t`.
fn find_bar_index(bars: &Vec<Bar>, t: i64) -> (r: Option<usize>)
    requires
        sorted_by_datetime(bars@),
    ensures
        match r {
            Some(c) => count_le(bars@, t) == c + 1,
            None => count_le(bars@, t) == 0,
        },
{
    proof {
        lemma_count_le_sorted(bars@, t);
    }
    let mut left: usize = 0;
    let mut right: usize = bars.len();
    while left < right
        invariant
            0 <= left <= right <= bars@.len(),
            sorted_by_datetime(bars@),
            forall|i: int| 0 <= i < left ==> (#[trigger] bars@[i]).datetime <= t,
            forall|i: int| right <= i < bars@.len() ==> (#[trigger] bars@[i]).datetime > t,
        decreases right - left,
    {
        let mid = left + (right - left) / 2;
        if bars[mid].datetime <= t {
            proof {
                assert forall|i: int| 0 <= i <= mid as int implies (
                    #[trigger] bars@[i]).datetime <= t by {
                    assert(bars@[i].datetime <= bars@[mid as int].datetime);
                }
            }
            left = mid + 1;
        } else {
            proof {
                assert forall|i: int| mid as int <= i < bars@.len() implies (
                    #[trigger] bars@[i]).datetime > t by {
                    assert(bars@[mid as int].datetime <= bars@[i].datetime);
                }
            }
            right = mid;
        }
    }
    proof {
        lemma_count_le_char(bars@, t, left as int);
    }
    if left > 0 {
        Some(left - 1)
    } else {
        None
    }
}

/// A per-symbol cursor is correct for time `t` when it points at the last
/// bar at or before `t`, and is absent exactly when no bar is that early.
pub open spec fn cursor_ok(bars: Seq<Bar>, c: Option<usize>, t: i64) -> bool {
    match c {
        Some(ci) => count_le(bars, t) == ci + 1,
        None => count_le(bars, t) == 0,
    }
}

/// The data feed: benchmark timeline, per-symbol bar series and cursors, and
/// the current position on the timeline.
pub struct DataFeed {
    /// The canonical timeline: the benchmark bars' datetimes.
    pub benchmark_timeline: Vec<i64>,
    /// The benchmark bars themselves, sorted by datetime.
    pub benchmark_bars: Vec<Bar>,
    /// The tradable symbols, one entry each.
    pub symbols: Vec<String>,
    /// Bar series, parallel to `symbols`, each sorted by datetime.
    pub series: Vec<Vec<Bar>>,
    /// Cursors, parallel to `symbols`.
    pub cursors: Vec<Option<usize>>,
    /// Position on the timeline; equals the timeline length past the end.
    pub current_index: usize,
}

/// Whether a series for `sym` is stored.
pub open spec fn has_symbol(symbols: Seq<String>, sym: Seq<char>) -> bool {
    exists|i: int| 0 <= i < symbols.len() && (#[trigger] symbols[i])@ == sym
}

/// Index of the series for `sym`; meaningful only when `has_symbol`.
pub open spec fn symbol_index(symbols: Seq<String>, sym: Seq<char>) -> int {
    choose|i: int| 0 <= i < symbols.len() && (#[trigger] symbols[i])@ == sym
}

impl DataFeed {
    /// The stored data is consistent, cursors aside.
    pub open spec fn wf_data(self) -> bool {
        &&& self.symbols@.len() == self.series@.len()
        &&& self.symbols@.len() == self.cursors@.len()
        &&& forall|a: int, b: int|
            0 <= a < b < self.symbols@.len() ==> (#[trigger] self.symbols@[a])@ != (
            #[trigger] self.symbols@[b])@
        &&& forall|k: int|
            0 <= k < self.series@.len() ==> strictly_sorted_by_datetime(
                (#[trigger] self.series@[k])@)
        &&& strictly_sorted_by_datetime(self.benchmark_bars@)
        &&& self.benchmark_timeline@.len() == self.benchmark_bars@.len()
        &&& forall|i: int|
            0 <= i < self.benchmark_timeline@.len() ==> #[trigger] self.benchmark_timeline@[i]
                == self.benchmark_bars@[i].datetime
        &&& self.current_index <= self.benchmark_timeline@.len()
    }

    /// The instant the feed currently stands at; meaningful only while the
    /// timeline has not run out.
    pub open spec fn current_time(self) -> i64 {
        self.benchmark_timeline@[self.current_index as int]
    }

    /// Every cursor points at the last bar at or before the current instant.
    pub open spec fn cursors_ok(self) -> bool {
        (self.current_index as int) < self.benchmark_timeline@.len() ==> forall|k: int|
            0 <= k < self.cursors@.len() ==> cursor_ok(
                (#[trigger] self.series@[k])@, self.cursors@[k], self.current_time())
    }

    /// Everything the queries rely on about a stored feed.
    pub open spec fn wf(self) -> bool {
        self.wf_data() && self.cursors_ok()
    }

    /// A fresh, empty feed.
    pub fn new() -> (r: DataFeed)
        ensures
            r.wf(),
            r.benchmark_timeline@.len() == 0,
            r.benchmark_bars@.len() == 0,
            r.symbols@.len() == 0,
            r.series@.len() == 0,
            r.current_index == 0,
    {
        DataFeed {
            benchmark_timeline: Vec::new(),
            benchmark_bars: Vec::new(),
            symbols: Vec::new(),
            series: Vec::new(),
            cursors: Vec::new(),
            current_index: 0,
        }
    }

    /// The canonical timeline.
    pub fn benchmark_timeline(&self) -> (r: &Vec<i64>)
        ensures
            r == &self.benchmark_timeline,
    {
        &self.benchmark_timeline
    }

    /// Index of the series for `symbol`, if one is stored.
    fn find_symbol(&self, symbol: &str) -> (r: Option<usize>)
        ensures
            match r {
                Some(i) => i < self.symbols@.len() && self.symbols@[i as int]@ == symbol@,
                None => !has_symbol(self.symbols@, symbol@),
            },
    {
        let mut k: usize = 0;
        while k < self.symbols.len()
            invariant
                k <= self.symbols@.len(),
                forall|i: int| 0 <= i < k ==> (#[trigger] self.symbols@[i])@ != symbol@,
            decreases self.symbols@.len() - k,
        {
            if crate::types::str_eq(self.symbols[k].as_str(), symbol) {
                return Some(k);
            }
            k += 1;
        }
        None
    }

    /// Point every cursor at the last bar at or before the current instant.
    fn update_all_symbol_indices(&mut self)
        requires
            old(self).wf_data(),
        ensures
            final(self).wf(),
            final(self).benchmark_timeline == old(self).benchmark_timeline,
            final(self).benchmark_bars == old(self).benchmark_bars,
            final(self).symbols == old(self).symbols,
            final(self).series == old(self).series,
            final(self).current_index == old(self).current_index,
    {
        if self.current_index >= self.benchmark_timeline.len() {
            return;
        }
        let t = self.benchmark_timeline[self.current_index];
        let n = self.series.len();
        let mut fresh: Vec<Option<usize>> = Vec::new();
        let mut k: usize = 0;
        while k < n
            invariant
                n == self.series@.len(),
                k <= n,
                fresh@.len() == k,
                forall|i: int|
                    0 <= i < self.series@.len() ==> strictly_sorted_by_datetime(
                        (#[trigger] self.series@[i])@),
                forall|i: int|
                    0 <= i < k ==> cursor_ok((#[trigger] self.series@[i])@, fresh@[i], t),
            decreases n - k,
        {
            let c = find_bar_index(&self.series[k], t);
            fresh.push(c);
            k += 1;
        }
        self.cursors = fresh;
    }

    /// Store the benchmark series: it is sorted, its datetimes become the
    /// canonical timeline, and every symbol cursor is re-seeded.
    pub fn set_benchmark(&mut self, benchmark_bars: Vec<Bar>)
        requires
            old(self).wf(),
            distinct_datetimes(benchmark_bars@),
        ensures
            final(self).wf(),
            final(self).symbols == old(self).symbols,
            final(self).series == old(self).series,
            final(self).current_index == if old(self).current_index as int
                <= final(self).benchmark_timeline@.len() {
                old(self).current_index as int
            } else {
                final(self).benchmark_timeline@.len() as int
            },
            final(self).benchmark_bars@.to_multiset() == benchmark_bars@.to_multiset(),
            final(self).benchmark_bars@.len() == benchmark_bars@.len(),
            strictly_sorted_by_datetime(final(self).benchmark_bars@),
            final(self).benchmark_timeline@ == datetimes_of(final(self).benchmark_bars@),
    {
        let mut bars = benchmark_bars;
        let ghost orig = bars@;
        sort_bars_by_datetime(&mut bars);
        proof {
            lemma_sorted_distinct_strict(bars@, orig);
        }
        let mut tl: Vec<i64> = Vec::new();
        let mut k: usize = 0;
        while k < bars.len()
            invariant
                k <= bars@.len(),
                tl@.len() == k,
                forall|i: int| 0 <= i < k ==> #[trigger] tl@[i] == bars@[i].datetime,
            decreases bars@.len() - k,
        {
            tl.push(bars[k].datetime);
            k += 1;
        }
        self.benchmark_timeline = tl;
        self.benchmark_bars = bars;
        if self.current_index > self.benchmark_timeline.len() {
            self.current_index = self.benchmark_timeline.len();
        }
        self.update_all_symbol_indices();
        proof {
            assert(self.benchmark_timeline@ =~= datetimes_of(self.benchmark_bars@));
        }
    }

    /// Store (or replace) the bar series for `symbol`: it is sorted, and its
    /// cursor is established at once.
    pub fn add_market_data(&mut self, symbol: String, bars: Vec<Bar>)
        requires
            old(self).wf(),
            distinct_datetimes(bars@),
        ensures
            final(self).wf(),
            final(self).benchmark_timeline == old(self).benchmark_timeline,
            final(self).benchmark_bars == old(self).benchmark_bars,
            final(self).current_index == old(self).current_index,
            has_symbol(final(self).symbols@, symbol@),
            ({
                let k = symbol_index(final(self).symbols@, symbol@);
                (final(self).series@[k])@.to_multiset() == bars@.to_multiset()
                    && (final(self).series@[k])@.len() == bars@.len()
                    && strictly_sorted_by_datetime((final(self).series@[k])@)
            }),
            forall|s: Seq<char>|
                s != symbol@ ==> #[trigger] has_symbol(final(self).symbols@, s) == has_symbol(
                    old(self).symbols@, s),
            forall|s: Seq<char>|
                s != symbol@ && has_symbol(old(self).symbols@, s) ==> (final(self).series@[
                #[trigger] symbol_index(final(self).symbols@, s)])@ == (old(self).series@[
                symbol_index(old(self).symbols@, s)])@,
    {
        let mut sorted = bars;
        let ghost orig = sorted@;
        sort_bars_by_datetime(&mut sorted);
        proof {
            lemma_sorted_distinct_strict(sorted@, orig);
        }
        match self.find_symbol(symbol.as_str()) {
            Some(k) => {
                proof {
                    let j = symbol_index(self.symbols@, symbol@);
                    assert(self.symbols@[j]@ == symbol@);
                    assert(j == k as int);
                }
                self.series.set(k, sorted);
            },
            None => {
                self.symbols.push(symbol);
                self.series.push(sorted);
                self.cursors.push(None);
                proof {
                    let sy_new = self.symbols@;
                    let sy_old = old(self).symbols@;
                    let n = sy_old.len() as int;
                    assert forall|a: int, b: int|
                        0 <= a < b < sy_new.len() implies (#[trigger] sy_new[a])@ != (
                        #[trigger] sy_new[b])@ by {
                        if b < n {
                            assert(sy_old[a]@ != sy_old[b]@);
                        } else {
                            if sy_new[a]@ == sy_new[n]@ {
                                assert(sy_old[a]@ == sy_new[n]@);
                                assert(has_symbol(sy_old, sy_new[n]@));
                            }
                        }
                    }
                }
            },
        }
        self.update_all_symbol_indices();
        proof {
            let sy_new = self.symbols@;
            let sy_old = old(self).symbols@;
            assert(has_symbol(sy_new, symbol@)) by {
                if has_symbol(sy_old, symbol@) {
                    let j = symbol_index(sy_old, symbol@);
                    assert(sy_old[j]@ == symbol@);
                    assert(sy_new[j]@ == symbol@);
                } else {
                    assert(sy_new[sy_new.len() - 1]@ == symbol@);
                }
            }
            let k2 = symbol_index(sy_new, symbol@);
            assert(sy_new[k2]@ == symbol@);
            if has_symbol(sy_old, symbol@) {
                let j = symbol_index(sy_old, symbol@);
                assert(sy_old[j]@ == symbol@);
                assert(sy_new[j]@ == symbol@);
                assert(k2 == j);
            } else {
                assert(k2 == sy_new.len() - 1) by {
                    if k2 < sy_new.len() - 1 {
                        assert(sy_old[k2]@ == symbol@);
                    }
                }
            }
            assert forall|s: Seq<char>|
                s != symbol@ implies #[trigger] has_symbol(self.symbols@, s) == has_symbol(
                    old(self).symbols@, s) by {
                if has_symbol(sy_old, s) {
                    let a = symbol_index(sy_old, s);
                    assert(sy_old[a]@ == s);
                    assert(sy_new[a]@ == s);
                    assert(has_symbol(sy_new, s));
                }
                if has_symbol(sy_new, s) {
                    let b = symbol_index(sy_new, s);
                    assert(sy_new[b]@ == s);
                    if b < sy_old.len() {
                        assert(sy_old[b]@ == s);
                        assert(has_symbol(sy_old, s));
                    } else {
                        assert(sy_new[b]@ == symbol@);
                    }
                }
            }
            assert forall|s: Seq<char>|
                s != symbol@ && has_symbol(old(self).symbols@, s) implies (self.series@[
                #[trigger] symbol_index(self.symbols@, s)])@ == (old(self).series@[symbol_index(
                old(self).symbols@, s)])@ by {
                let a = symbol_index(sy_old, s);
                assert(sy_old[a]@ == s);
                assert(sy_new[a]@ == s);
                assert(has_symbol(sy_new, s));
                let b = symbol_index(sy_new, s);
                assert(sy_new[b]@ == s);
                assert(b == a) by {
                    if b != a {
                        if b < sy_old.len() {
                            assert(sy_old[b]@ == s);
                        } else {
                            assert(sy_new[b]@ == symbol@);
                        }
                    }
                }
                assert(a != k2);
                assert((self.series@[b])@ == (old(self).series@[a])@);
            }
        }
    }
}

/// The bar a query at the current instant returns for `sym`: the latest bar
/// at or before the current instant, if the feed is not past the end and such
/// a bar exists.
pub open spec fn spec_current_bar(feed: DataFeed, sym: Seq<char>) -> Option<Bar> {
    if feed.current_index as int >= feed.benchmark_timeline@.len() {
        None
    } else if !has_symbol(feed.symbols@, sym) {
        None
    } else {
        let bars = (feed.series@[symbol_index(feed.symbols@, sym)])@;
        let c = count_le(bars, feed.current_time());
        if c == 0 {
            None
        } else {
            Some(bars[c - 1])
        }
    }
}

/// The keyed current-bar list over the first `n` symbols: for each symbol
/// with a bar at or before the current instant, its latest such bar.
pub open spec fn current_pairs_upto(feed: DataFeed, n: int) -> Seq<(String, Bar)>
    decreases n,
{
    if n <= 0 {
        Seq::<(String, Bar)>::empty()
    } else {
        let pre = current_pairs_upto(feed, n - 1);
        let k = n - 1;
        let c = count_le((feed.series@[k])@, feed.current_time());
        if c > 0 {
            pre.push((feed.symbols@[k], (feed.series@[k])@[c - 1]))
        } else {
            pre
        }
    }
}

/// What `get_current_bars` returns: one keyed entry per tradable symbol, in
/// symbol order; empty past the end of the timeline.
pub open spec fn spec_current_pairs(feed: DataFeed) -> Seq<(String, Bar)> {
    if feed.current_index as int >= feed.benchmark_timeline@.len() {
        Seq::<(String, Bar)>::empty()
    } else {
        current_pairs_upto(feed, feed.symbols@.len() as int)
    }
}

/// First bar stored under key `s` in a keyed pair list; meaningful lookups
/// need pairwise distinct keys.
pub open spec fn lookup_bar(pairs: Seq<(String, Bar)>, s: Seq<char>) -> Option<Bar> {
    if exists|a: int| 0 <= a < pairs.len() && (#[trigger] pairs[a]).0@ == s {
        Some(pairs[choose|a: int| 0 <= a < pairs.len() && (#[trigger] pairs[a]).0@ == s].1)
    } else {
        None
    }
}

impl DataFeed {
    /// The instant the feed stands at, or `None` past the end.
    pub fn get_current_datetime(&self) -> (r: Option<i64>)
        ensures
            r == if (self.current_index as int) < self.benchmark_timeline@.len() {
                Some(self.current_time())
            } else {
                None::<i64>
            },
    {
        if self.current_index < self.benchmark_timeline.len() {
            Some(self.benchmark_timeline[self.current_index])
        } else {
            None
        }
    }

    /// Whether a bar remains to be driven.
    pub fn has_next(&self) -> (r: bool)
        ensures
            r == ((self.current_index as int) < self.benchmark_timeline@.len()),
    {
        self.current_index < self.benchmark_timeline.len()
    }

    /// The feed's position on the timeline.
    pub fn current_index(&self) -> (r: usize)
        ensures
            r == self.current_index,
    {
        self.current_index
    }

    /// The stored symbols.
    pub fn get_symbols(&self) -> (r: Vec<String>)
        ensures
            r@.len() == self.symbols@.len(),
            forall|i: int| 0 <= i < r@.len() ==> (#[trigger] r@[i])@ == self.symbols@[i]@,
    {
        let mut out: Vec<String> = Vec::new();
        let mut k: usize = 0;
        while k < self.symbols.len()
            invariant
                k <= self.symbols@.len(),
                out@.len() == k,
                forall|i: int| 0 <= i < k ==> (#[trigger] out@[i])@ == self.symbols@[i]@,
            decreases self.symbols@.len() - k,
        {
            out.push(self.symbols[k].clone());
            k += 1;
        }
        out
    }

    /// The full stored series for `symbol`; empty when the symbol is unknown.
    pub fn get_all_bars_for_symbol(&self, symbol: &str) -> (r: Vec<Bar>)
        requires
            self.wf(),
        ensures
            r@ == if has_symbol(self.symbols@, symbol@) {
                (self.series@[symbol_index(self.symbols@, symbol@)])@
            } else {
                Seq::<Bar>::empty()
            },
    {
        match self.find_symbol(symbol) {
            Some(k) => {
                proof {
                    let j = symbol_index(self.symbols@, symbol@);
                    assert(self.symbols@[j]@ == symbol@);
                    assert(j == k as int);
                }
                let bars = &self.series[k];
                let mut out: Vec<Bar> = Vec::new();
                let mut i: usize = 0;
                while i < bars.len()
                    invariant
                        i <= bars@.len(),
                        out@ == bars@.take(i as int),
                    decreases bars@.len() - i,
                {
                    proof {
                        assert(bars@.take(i as int + 1).drop_last() =~= bars@.take(i as int));
                    }
                    out.push(bars[i]);
                    i += 1;
                }
                proof {
                    assert(bars@.take(bars@.len() as int) =~= bars@);
                }
                out
            },
            None => Vec::new(),
        }
    }

    /// The latest bar of `symbol` at or before the current instant.
    pub fn get_current_bar(&self, symbol: &str) -> (r: Option<Bar>)
        requires
            self.wf(),
        ensures
            r == spec_current_bar(*self, symbol@),
            r is Some ==> r.unwrap().datetime <= self.current_time(),
    {
        if self.current_index >= self.benchmark_timeline.len() {
            return None;
        }
        let k = match self.find_symbol(symbol) {
            Some(k) => k,
            None => {
                return None;
            },
        };
        proof {
            let j = symbol_index(self.symbols@, symbol@);
            assert(self.symbols@[j]@ == symbol@);
            assert(j == k as int);
        }
        match self.cursors[k] {
            Some(c) => {
                proof {
                    lemma_count_le_bounds((self.series@[k as int])@, self.current_time());
                    lemma_count_le_sorted((self.series@[k as int])@, self.current_time());
                }
                Some(self.series[k][c])
            },
            None => None,
        }
    }

    /// Whether `symbol` has a bar at or before the current instant.
    pub fn is_tradable(&self, symbol: &str) -> (r: bool)
        requires
            self.wf(),
        ensures
            r == (spec_current_bar(*self, symbol@) is Some),
    {
        self.get_current_bar(symbol).is_some()
    }

    /// The latest bars of all symbols at the current instant, keyed by symbol;
    /// empty past the end of the timeline.
    pub fn get_current_bars(&self) -> (r: Vec<(String, Bar)>)
        requires
            self.wf(),
        ensures
            r@ == spec_current_pairs(*self),
            forall|a: int, b: int|
                0 <= a < b < r@.len() ==> (#[trigger] r@[a]).0@ != (#[trigger] r@[b]).0@,
            forall|s: Seq<char>| #[trigger] lookup_bar(r@, s) == spec_current_bar(*self, s),
            forall|a: int|
                0 <= a < r@.len() ==> (#[trigger] r@[a]).1.datetime <= self.current_time(),
    {
        let mut out: Vec<(String, Bar)> = Vec::new();
        if self.current_index >= self.benchmark_timeline.len() {
            proof {
                assert(out@ =~= spec_current_pairs(*self));
                assert forall|s: Seq<char>| #[trigger] lookup_bar(out@, s) == spec_current_bar(
                    *self, s) by {
                    if exists|a: int| 0 <= a < out@.len() && (#[trigger] out@[a]).0@ == s {
                        let a = choose|a: int| 0 <= a < out@.len() && (#[trigger] out@[a]).0@ == s;
                    }
                }
            }
            return out;
        }
        let t = self.benchmark_timeline[self.current_index];
        let n = self.symbols.len();
        let mut k: usize = 0;
        while k < n
            invariant
                self.wf(),
                (self.current_index as int) < self.benchmark_timeline@.len(),
                t == self.current_time(),
                n == self.symbols@.len(),
                k <= n,
                out@ == current_pairs_upto(*self, k as int),
                forall|a: int, b: int|
                    0 <= a < b < out@.len() ==> (#[trigger] out@[a]).0@ != (
                    #[trigger] out@[b]).0@,
                forall|a: int|
                    0 <= a < out@.len() ==> exists|j: int|
                        0 <= j < k && (#[trigger] out@[a]).0@ == self.symbols@[j]@
                            && spec_current_bar(*self, self.symbols@[j]@) == Some(out@[a].1),
                forall|j: int|
                    0 <= j < k && spec_current_bar(*self, (#[trigger] self.symbols@[j])@) is Some
                        ==> exists|a: int|
                        0 <= a < out@.len() && (#[trigger] out@[a]).0@ == self.symbols@[j]@,
            decreases n - k,
        {
            proof {
                let j = symbol_index(self.symbols@, self.symbols@[k as int]@);
                assert(self.symbols@[j]@ == self.symbols@[k as int]@);
                assert(j == k as int);
                lemma_count_le_bounds((self.series@[k as int])@, t);
                lemma_count_le_sorted((self.series@[k as int])@, t);
            }
            match self.cursors[k] {
                Some(c) => {
                    let ghost out0 = out@;
                    out.push((self.symbols[k].clone(), self.series[k][c]));
                    proof {
                        assert(out@ =~= current_pairs_upto(*self, k as int + 1));
                        assert(has_symbol(self.symbols@, self.symbols@[k as int]@));
                        assert(out@[out@.len() - 1].0@ == self.symbols@[k as int]@);
                        assert(spec_current_bar(*self, self.symbols@[k as int]@) == Some(
                            out@[out@.len() - 1].1));
                        assert forall|a: int, b: int|
                            0 <= a < b < out@.len() implies (#[trigger] out@[a]).0@ != (
                            #[trigger] out@[b]).0@ by {
                            if b == out@.len() - 1 {
                                let j = choose|j: int|
                                    0 <= j < k && (#[trigger] out0[a]).0@ == self.symbols@[j]@
                                        && spec_current_bar(*self, self.symbols@[j]@) == Some(
                                        out0[a].1);
                                assert(self.symbols@[j]@ != self.symbols@[k as int]@);
                            }
                        }
                        assert forall|j: int|
                            0 <= j < k + 1 && spec_current_bar(
                                *self, (#[trigger] self.symbols@[j])@) is Some implies exists|a: int|
                            0 <= a < out@.len() && (#[trigger] out@[a]).0@
                                == self.symbols@[j]@ by {
                            if j == k as int {
                                assert(out@[out@.len() - 1].0@ == self.symbols@[j]@);
                            } else {
                                let a = choose|a: int|
                                    0 <= a < out0.len() && (#[trigger] out0[a]).0@
                                        == self.symbols@[j]@;
                                assert(out@[a].0@ == self.symbols@[j]@);
                            }
                        }
                        assert forall|a: int|
                            0 <= a < out@.len() implies exists|j: int|
                            0 <= j < k + 1 && (#[trigger] out@[a]).0@ == self.symbols@[j]@
                                && spec_current_bar(*self, self.symbols@[j]@) == Some(
                                out@[a].1) by {
                            if a == out@.len() - 1 {
                                assert(out@[a].0@ == self.symbols@[k as int]@
                                    && spec_current_bar(*self, self.symbols@[k as int]@) == Some(
                                    out@[a].1));
                            } else {
                                let j = choose|j: int|
                                    0 <= j < k && (#[trigger] out0[a]).0@ == self.symbols@[j]@
                                        && spec_current_bar(*self, self.symbols@[j]@) == Some(
                                        out0[a].1);
                                assert(out@[a].0@ == self.symbols@[j]@ && spec_current_bar(
                                    *self, self.symbols@[j]@) == Some(out@[a].1));
                            }
                        }
                    }
                },
                None => {
                    proof {
                        assert(cursor_ok(
                            (self.series@[k as int])@, self.cursors@[k as int],
                            self.current_time()));
                        assert(spec_current_bar(*self, self.symbols@[k as int]@) is None);
                        assert forall|j: int|
                            0 <= j < k + 1 && spec_current_bar(
                                *self, (#[trigger] self.symbols@[j])@) is Some implies exists|a: int|
                            0 <= a < out@.len() && (#[trigger] out@[a]).0@
                                == self.symbols@[j]@ by {
                            assert(j != k as int);
                        }
                    }
                },
            }
            k += 1;
        }
        proof {
            assert forall|s: Seq<char>| #[trigger] lookup_bar(out@, s) == spec_current_bar(
                *self, s) by {
                if exists|a: int| 0 <= a < out@.len() && (#[trigger] out@[a]).0@ == s {
                    let a = choose|a: int| 0 <= a < out@.len() && (#[trigger] out@[a]).0@ == s;
                    let j = choose|j: int|
                        0 <= j < n && (#[trigger] out@[a]).0@ == self.symbols@[j]@
                            && spec_current_bar(*self, self.symbols@[j]@) == Some(out@[a].1);
                    assert(lookup_bar(out@, s) == Some(out@[a].1));
                } else {
                    if spec_current_bar(*self, s) is Some {
                        assert(has_symbol(self.symbols@, s));
                        let j = symbol_index(self.symbols@, s);
                        assert(self.symbols@[j]@ == s);
                        assert(spec_current_bar(*self, self.symbols@[j]@) is Some);
                        let a = choose|a: int|
                            0 <= a < out@.len() && (#[trigger] out@[a]).0@ == self.symbols@[j]@;
                        assert(out@[a].0@ == s);
                    }
                }
            }
            assert forall|a: int|
                0 <= a < out@.len() implies (#[trigger] out@[a]).1.datetime
                    <= self.current_time() by {
                let j = choose|j: int|
                    0 <= j < n && (#[trigger] out@[a]).0@ == self.symbols@[j]@ && spec_current_bar(
                        *self, self.symbols@[j]@) == Some(out@[a].1);
                lemma_count_le_sorted((self.series@[j])@, self.current_time());
            }
        }
        out
    }
}

/// What a history query returns: the `count` bars ending at the latest bar at
/// or before the current instant, or nothing when fewer than `count` exist
/// (all or nothing).
pub open spec fn spec_history(feed: DataFeed, sym: Seq<char>, count: int) -> Seq<Bar> {
    if feed.current_index as int >= feed.benchmark_timeline@.len() {
        Seq::<Bar>::empty()
    } else if !has_symbol(feed.symbols@, sym) {
        Seq::<Bar>::empty()
    } else {
        let bars = (feed.series@[symbol_index(feed.symbols@, sym)])@;
        let c = count_le(bars, feed.current_time());
        if c == 0 || count > c {
            Seq::<Bar>::empty()
        } else {
            bars.subrange(c - count, c)
        }
    }
}

impl DataFeed {
    /// The `count` most recent bars of `symbol`, ending at the latest bar at
    /// or before the current instant; empty when fewer than `count` exist.
    /// No returned bar is dated after the current instant.
    pub fn get_bars(&self, symbol: &str, count: usize) -> (r: Vec<Bar>)
        requires
            self.wf(),
        ensures
            r@ == spec_history(*self, symbol@, count as int),
            forall|i: int|
                0 <= i < r@.len() ==> (#[trigger] r@[i]).datetime <= self.current_time(),
    {
        if self.current_index >= self.benchmark_timeline.len() {
            return Vec::new();
        }
        let k = match self.find_symbol(symbol) {
            Some(k) => k,
            None => {
                return Vec::new();
            },
        };
        proof {
            let j = symbol_index(self.symbols@, symbol@);
            assert(self.symbols@[j]@ == symbol@);
            assert(j == k as int);
        }
        let c = match self.cursors[k] {
            Some(c) => c,
            None => {
                return Vec::new();
            },
        };
        proof {
            assert(cursor_ok(
                (self.series@[k as int])@, self.cursors@[k as int], self.current_time()));
            lemma_count_le_bounds((self.series@[k as int])@, self.current_time());
            lemma_count_le_sorted((self.series@[k as int])@, self.current_time());
        }
        let bars = &self.series[k];
        let nb = bars.len();
        proof {
            assert((c as int) < nb as int);
        }
        if count > c + 1 {
            return Vec::new();
        }
        let start = c + 1 - count;
        let end = c + 1;
        let mut out: Vec<Bar> = Vec::new();
        let mut i: usize = start;
        while i < end
            invariant
                start <= i <= end,
                end == c as int + 1,
                (c as int) < bars@.len(),
                out@ == bars@.subrange(start as int, i as int),
            decreases end - i,
        {
            proof {
                assert(bars@.subrange(start as int, i as int + 1).drop_last() =~= bars@.subrange(
                    start as int, i as int));
                assert(bars@.subrange(start as int, i as int + 1).last() == bars@[i as int]);
            }
            out.push(bars[i]);
            i += 1;
        }
        out
    }

    /// The benchmark bar at the current instant, or `None` past the end.
    pub fn get_current_benchmark_bar(&self) -> (r: Option<Bar>)
        ensures
            r == if (self.current_index as int) < self.benchmark_bars@.len() {
                Some(self.benchmark_bars@[self.current_index as int])
            } else {
                None::<Bar>
            },
    {
        if self.current_index < self.benchmark_bars.len() {
            Some(self.benchmark_bars[self.current_index])
        } else {
            None
        }
    }

    /// The first benchmark bar, or `None` when no benchmark is stored.
    pub fn get_initial_benchmark_bar(&self) -> (r: Option<Bar>)
        ensures
            r == if self.benchmark_bars@.len() > 0 {
                Some(self.benchmark_bars@[0])
            } else {
                None::<Bar>
            },
    {
        if self.benchmark_bars.len() > 0 {
            Some(self.benchmark_bars[0])
        } else {
            None
        }
    }

    /// Step to the next instant on the timeline, advancing every cursor to
    /// the latest bar at or before the new instant.  Past the end this does
    /// nothing.
    pub fn next(&mut self)
        requires
            old(self).wf(),
        ensures
            final(self).wf(),
            final(self).benchmark_timeline == old(self).benchmark_timeline,
            final(self).benchmark_bars == old(self).benchmark_bars,
            final(self).symbols == old(self).symbols,
            final(self).series == old(self).series,
            final(self).current_index == if (old(self).current_index as int) < old(
                self).benchmark_timeline@.len() {
                old(self).current_index + 1
            } else {
                old(self).current_index as int
            },
    {
        if self.current_index >= self.benchmark_timeline.len() {
            return;
        }
        let ghost t_old = self.current_time();
        self.current_index = self.current_index + 1;
        if self.current_index == self.benchmark_timeline.len() {
            return;
        }
        let t = self.benchmark_timeline[self.current_index];
        proof {
            assert(t_old < t);
        }
        let n = self.symbols.len();
        let mut k: usize = 0;
        while k < n
            invariant
                self.wf_data(),
                self.benchmark_timeline == old(self).benchmark_timeline,
                self.benchmark_bars == old(self).benchmark_bars,
                self.symbols == old(self).symbols,
                self.series == old(self).series,
                self.current_index == old(self).current_index + 1,
                n == self.symbols@.len(),
                k <= n,
                (self.current_index as int) < self.benchmark_timeline@.len(),
                t == self.current_time(),
                forall|i: int|
                    0 <= i < k ==> cursor_ok(
                        (#[trigger] self.series@[i])@, self.cursors@[i], t),
                forall|i: int|
                    k <= i < n ==> cursor_ok(
                        (#[trigger] self.series@[i])@, self.cursors@[i], t_old),
                t_old <= t,
            decreases n - k,
        {
            let new_cursor: Option<usize> = match self.cursors[k] {
                Some(c0) => {
                    let bars = &self.series[k];
                    proof {
                        assert(cursor_ok(
                            (self.series@[k as int])@, self.cursors@[k as int], t_old));
                        lemma_count_le_bounds(bars@, t_old);
                        lemma_count_le_sorted(bars@, t_old);
                        lemma_count_le_sorted(bars@, t);
                        assert(bars@[c0 as int].datetime <= t_old);
                    }
                    let mut c = c0;
                    let nb = bars.len();
                    while c + 1 < nb && bars[c + 1].datetime <= t
                        invariant
                            nb == bars@.len(),
                            c0 <= c < nb,
                            sorted_by_datetime(bars@),
                            bars@[c as int].datetime <= t,
                        decreases nb - c,
                    {
                        c += 1;
                    }
                    proof {
                        assert forall|i: int| 0 <= i <= c as int implies (
                            #[trigger] bars@[i]).datetime <= t by {
                            assert(bars@[i].datetime <= bars@[c as int].datetime);
                        }
                        assert forall|i: int| (c as int) < i < bars@.len() implies (
                            #[trigger] bars@[i]).datetime > t by {
                            assert(bars@[c as int + 1].datetime <= bars@[i].datetime);
                        }
                        lemma_count_le_char(bars@, t, c as int + 1);
                    }
                    Some(c)
                },
                None => {
                    proof {
                        lemma_count_le_sorted((self.series@[k as int])@, t_old);
                    }
                    find_bar_index(&self.series[k], t)
                },
            };
            self.cursors.set(k, new_cursor);
            k += 1;
        }
    }

    /// Return to the start of the timeline and re-seed every cursor.  The
    /// state afterwards depends only on the stored data, not on how far the
    /// feed had advanced.
    pub fn reset(&mut self)
        requires
            old(self).wf_data(),
        ensures
            final(self).wf(),
            final(self).benchmark_timeline == old(self).benchmark_timeline,
            final(self).benchmark_bars == old(self).benchmark_bars,
            final(self).symbols == old(self).symbols,
            final(self).series == old(self).series,
            final(self).current_index == 0,
    {
        self.current_index = 0;
        self.update_all_symbol_indices();
    }
}

} // verus!
