//! The backtest engine: configuration, the per-bar driver loop, and the
//! strategy surface.

use vstd::prelude::*;
use crate::datafeed::{DataFeed, distinct_datetimes, spec_current_pairs, spec_history};
use crate::execution_engine::{
    ExecutionEngine, batch_applied, buy_orders, closes_of, sell_orders, spec_fill_amount,
    sum_flows,
};
use crate::indicator_engine::{
    IndicatorDef, IndicatorEngine, has_indicator, indicator_index, spec_aligned_at,
    spec_value_window, values_lookup,
};
use crate::metrics_recorder::MetricsRecorder;
use crate::numutil::{clamp_i64, mul_u64, sat_to_i64, sat_u128_to_i128};
use crate::timeparse::{day_of, format_datetime, rfc3339_of};
use crate::types::{
    Bar, EquityPoint, Fill, Order, OrderSide, PerformanceStats, PortfolioState, QuantityType,
    recorded_today, spec_equity,
};

verus! {

/// Backtest configuration.  Money fields are fixed-point scaled by `SCALE`;
/// `commission_rate` and `stamp_tax_rate` are parts per million;
/// `slippage_bps` is basis points.  `start`, `end` and `period` are
/// informational: the benchmark data determines the time bounds.
#[derive(Debug)]
pub struct BacktestConfig {
    pub start: Option<String>,
    pub end: Option<String>,
    /// Initial cash.
    pub cash: u64,
    pub commission_rate: u64,
    pub min_commission: u64,
    pub slippage_bps: u64,
    pub stamp_tax_rate: u64,
    /// Symbols that settle same-day and so escape the availability rule.
    pub t0_symbols: Vec<String>,
    pub period: Option<String>,
}

impl Default for BacktestConfig {
    /// The stock defaults: 100,000 in cash, 0.05% commission with a floor of
    /// 5, one basis point of slippage, 0.1% stamp tax, no same-day symbols.
    fn default() -> (r: BacktestConfig)
        ensures
            r.start is None,
            r.end is None,
            r.cash == 100_000_000_000u64,
            r.commission_rate == 500u64,
            r.min_commission == 5_000_000u64,
            r.slippage_bps == 1u64,
            r.stamp_tax_rate == 1_000u64,
            r.t0_symbols@.len() == 0,
            r.period is None,
    {
        BacktestConfig {
            start: None,
            end: None,
            cash: 100_000_000_000,
            commission_rate: 500,
            min_commission: 5_000_000,
            slippage_bps: 1,
            stamp_tax_rate: 1_000,
            t0_symbols: Vec::new(),
            period: None,
        }
    }
}

/// What a strategy asks the engine to do: one order, to be stamped with the
/// current instant and matched at the next bar.
#[derive(Debug)]
pub struct OrderRequest {
    pub symbol: String,
    pub side: OrderSide,
    pub quantity_type: QuantityType,
    pub quantity: u64,
}

/// The strategy surface: callbacks the driver invokes around each bar.  The
/// engine is handed in read-only; orders and indicator registrations flow
/// back through the return values.
pub trait Strategy {
    /// Runs once before the loop; the returned definitions are registered.
    fn on_start(&mut self, engine: &BacktestEngine) -> Vec<(String, IndicatorDef)>;

    /// Runs once per bar; the returned orders are queued for the next bar.
    fn on_bar(&mut self, engine: &BacktestEngine) -> Vec<OrderRequest>;

    /// Runs once per fill produced at this bar.
    fn on_trade(&mut self, fill: &Fill, engine: &BacktestEngine);

    /// Runs once after the loop.
    fn on_stop(&mut self, engine: &BacktestEngine);
}

/// The backtest engine, wiring the components together.
pub struct BacktestEngine {
    pub config: BacktestConfig,
    pub datafeed: DataFeed,
    pub indicator_engine: IndicatorEngine,
    pub execution_engine: ExecutionEngine,
    pub portfolio: PortfolioState,
    pub metrics: MetricsRecorder,
}

impl BacktestEngine {
    /// Everything the engine maintains across its operations: well-formed
    /// components, the execution cost model taken from the configuration,
    /// the recorder seeing exactly the portfolio's fills — and conservation
    /// of cash: the account holds the initial cash minus exactly what the
    /// fills took out.
    pub open spec fn wf(self) -> bool {
        &&& self.datafeed.wf()
        &&& self.portfolio.wf()
        &&& self.indicator_engine.wf()
        &&& self.execution_engine.commission_rate == self.config.commission_rate
        &&& self.execution_engine.min_commission == self.config.min_commission
        &&& self.execution_engine.slippage_bps == self.config.slippage_bps
        &&& self.execution_engine.stamp_tax_rate == self.config.stamp_tax_rate
        &&& self.metrics.fills@ == self.portfolio.fills@
        &&& self.portfolio.t0_symbols@ == self.config.t0_symbols@
        &&& self.portfolio.cash == self.config.cash - sum_flows(self.portfolio.fills@)
    }

    /// A fresh engine for `config`: full cash, nothing loaded, nothing
    /// recorded.
    pub fn new(config: BacktestConfig) -> (r: BacktestEngine)
        ensures
            r.wf(),
            r.config.cash == config.cash,
            r.portfolio.cash == config.cash as int,
            r.portfolio.positions@.len() == 0,
            r.portfolio.fills@.len() == 0,
            r.metrics.equity_curve@.len() == 0,
            r.metrics.benchmark_curve@.len() == 0,
            r.datafeed.benchmark_timeline@.len() == 0,
            r.execution_engine.orders@.len() == 0,
            r.indicator_engine.indicators@.len() == 0,
    {
        let execution_engine = ExecutionEngine::new(
            config.commission_rate,
            config.min_commission,
            config.slippage_bps,
            config.stamp_tax_rate,
        );
        let mut t0 = Vec::new();
        let mut k: usize = 0;
        while k < config.t0_symbols.len()
            invariant
                k <= config.t0_symbols@.len(),
                t0@.len() == k,
                forall|i: int| 0 <= i < k ==> #[trigger] t0@[i] == config.t0_symbols@[i],
            decreases config.t0_symbols@.len() - k,
        {
            t0.push(config.t0_symbols[k].clone());
            k += 1;
        }
        proof {
            assert(t0@ =~= config.t0_symbols@);
        }
        let portfolio = PortfolioState::new(config.cash, t0);
        let r = BacktestEngine {
            config,
            datafeed: DataFeed::new(),
            indicator_engine: IndicatorEngine::new(),
            execution_engine,
            portfolio,
            metrics: MetricsRecorder::new(),
        };
        proof {
            assert(r.metrics.fills@ =~= r.portfolio.fills@);
            assert(sum_flows(r.portfolio.fills@) == 0);
        }
        r
    }

    /// Store the bar series for `symbol`: sorted, replacing any earlier
    /// series of that symbol and touching no other.
    pub fn add_market_data(&mut self, symbol: String, bars: Vec<Bar>)
        requires
            old(self).wf(),
            distinct_datetimes(bars@),
        ensures
            final(self).wf(),
            final(self).config == old(self).config,
            final(self).portfolio == old(self).portfolio,
            final(self).metrics == old(self).metrics,
            final(self).execution_engine == old(self).execution_engine,
            final(self).indicator_engine == old(self).indicator_engine,
            final(self).datafeed.benchmark_timeline == old(self).datafeed.benchmark_timeline,
            final(self).datafeed.benchmark_bars == old(self).datafeed.benchmark_bars,
            final(self).datafeed.current_index == old(self).datafeed.current_index,
            crate::datafeed::has_symbol(final(self).datafeed.symbols@, symbol@),
            ({
                let k = crate::datafeed::symbol_index(final(self).datafeed.symbols@, symbol@);
                (final(self).datafeed.series@[k])@.to_multiset() == bars@.to_multiset()
                    && (final(self).datafeed.series@[k])@.len() == bars@.len()
                    && crate::datafeed::strictly_sorted_by_datetime(
                    (final(self).datafeed.series@[k])@)
            }),
            forall|s: Seq<char>|
                s != symbol@ ==> #[trigger] crate::datafeed::has_symbol(
                    final(self).datafeed.symbols@, s) == crate::datafeed::has_symbol(
                    old(self).datafeed.symbols@, s),
            forall|s: Seq<char>|
                s != symbol@ && crate::datafeed::has_symbol(old(self).datafeed.symbols@, s) ==> (
                final(self).datafeed.series@[#[trigger] crate::datafeed::symbol_index(
                    final(self).datafeed.symbols@, s)])@ == (old(self).datafeed.series@[
                crate::datafeed::symbol_index(old(self).datafeed.symbols@, s)])@,
    {
        self.datafeed.add_market_data(symbol, bars);
    }

    /// Store the benchmark series: sorted, its datetimes becoming the
    /// canonical timeline.
    pub fn set_benchmark(&mut self, benchmark_bars: Vec<Bar>)
        requires
            old(self).wf(),
            distinct_datetimes(benchmark_bars@),
        ensures
            final(self).wf(),
            final(self).config == old(self).config,
            final(self).portfolio == old(self).portfolio,
            final(self).metrics == old(self).metrics,
            final(self).execution_engine == old(self).execution_engine,
            final(self).indicator_engine == old(self).indicator_engine,
            final(self).datafeed.symbols == old(self).datafeed.symbols,
            final(self).datafeed.series == old(self).datafeed.series,
            final(self).datafeed.benchmark_bars@.to_multiset()
                == benchmark_bars@.to_multiset(),
            final(self).datafeed.benchmark_bars@.len() == benchmark_bars@.len(),
            crate::datafeed::strictly_sorted_by_datetime(final(self).datafeed.benchmark_bars@),
            final(self).datafeed.benchmark_timeline@ == crate::datafeed::datetimes_of(
                final(self).datafeed.benchmark_bars@),
    {
        self.datafeed.set_benchmark(benchmark_bars);
    }

    /// Register `def` under `name`, replacing any earlier definition of that
    /// name.
    pub fn register_indicator(&mut self, name: String, def: IndicatorDef)
        requires
            old(self).wf(),
        ensures
            final(self).wf(),
            final(self).config == old(self).config,
            final(self).portfolio == old(self).portfolio,
            final(self).metrics == old(self).metrics,
            final(self).datafeed == old(self).datafeed,
            final(self).execution_engine == old(self).execution_engine,
            final(self).indicator_engine.values == old(self).indicator_engine.values,
            final(self).indicator_engine.current_index == old(
                self).indicator_engine.current_index,
            final(self).indicator_engine.indicators@ == if has_indicator(
                old(self).indicator_engine.indicators@, name@) {
                old(self).indicator_engine.indicators@.update(
                    indicator_index(old(self).indicator_engine.indicators@, name@),
                    ((name, def)),
                )
            } else {
                old(self).indicator_engine.indicators@.push(((name, def)))
            },
    {
        self.indicator_engine.register_indicator(name, def);
    }

    /// Precompute every registered indicator over every symbol: one aligned
    /// series per indicator and symbol, each value a function of the bars at
    /// or before its instant alone.
    pub fn compute_all_indicators(&mut self)
        requires
            old(self).wf(),
        ensures
            final(self).wf(),
            final(self).config == old(self).config,
            final(self).portfolio == old(self).portfolio,
            final(self).metrics == old(self).metrics,
            final(self).datafeed == old(self).datafeed,
            final(self).execution_engine == old(self).execution_engine,
            final(self).indicator_engine.indicators == old(self).indicator_engine.indicators,
            final(self).indicator_engine.current_index == old(
                self).indicator_engine.current_index,
            final(self).indicator_engine.values@.len() == old(
                self).indicator_engine.indicators@.len() * old(self).datafeed.symbols@.len(),
            forall|a: int, b: int|
                #![trigger final(self).indicator_engine.values@[a * old(self).datafeed.symbols@.len() + b]]
                0 <= a < old(self).indicator_engine.indicators@.len() && 0 <= b < old(
                    self).datafeed.symbols@.len() ==> {
                    let e = final(self).indicator_engine.values@[a * old(
                        self).datafeed.symbols@.len() + b];
                    e.0@ == old(self).indicator_engine.indicators@[a].0@ && e.1@ == old(
                        self).datafeed.symbols@[b]@ && e.2@.len() == old(
                        self).datafeed.benchmark_timeline@.len() && (forall|i: int|
                        0 <= i < e.2@.len() ==> #[trigger] e.2@[i] == spec_aligned_at(
                            old(self).indicator_engine.indicators@[a].1,
                            (old(self).datafeed.series@[b])@,
                            old(self).datafeed.benchmark_timeline@[i],
                        ))
                },
    {
        let feed = &self.datafeed;
        self.indicator_engine.compute_all_indicators(feed);
    }

    /// Return to the start of the timeline.  The resulting component state
    /// depends only on the stored data, not on how far a run had advanced:
    /// rerunning from here retraces the same steps.
    pub fn reset(&mut self)
        requires
            old(self).wf(),
        ensures
            final(self).wf(),
            final(self).config == old(self).config,
            final(self).portfolio == old(self).portfolio,
            final(self).metrics == old(self).metrics,
            final(self).execution_engine == old(self).execution_engine,
            final(self).datafeed.benchmark_timeline == old(self).datafeed.benchmark_timeline,
            final(self).datafeed.benchmark_bars == old(self).datafeed.benchmark_bars,
            final(self).datafeed.symbols == old(self).datafeed.symbols,
            final(self).datafeed.series == old(self).datafeed.series,
            final(self).datafeed.current_index == 0,
            final(self).indicator_engine.indicators == old(self).indicator_engine.indicators,
            final(self).indicator_engine.values == old(self).indicator_engine.values,
            final(self).indicator_engine.current_index == 0,
    {
        self.datafeed.reset();
        self.indicator_engine.update_index(0);
    }

    /// The indicator values for `name` on `symbol`: the window of the last
    /// `count` values when a count is given, the single current value
    /// otherwise.
    pub fn get_indicator_value(&self, name: &str, symbol: &str, count: Option<usize>) -> (r:
        Option<Vec<Option<u64>>>)
        ensures
            match count {
                Some(n) => match values_lookup(self.indicator_engine.values@, name@, symbol@) {
                    Some(series) => {
                        let w = spec_value_window(
                            series, self.indicator_engine.current_index as int, n as int);
                        (r is Some <==> w is Some) && (r is Some ==> r.unwrap()@ == w.unwrap())
                    },
                    None => r is None,
                },
                None => match values_lookup(self.indicator_engine.values@, name@, symbol@) {
                    Some(series) => if (self.indicator_engine.current_index as int)
                        < series.len() && series[self.indicator_engine.current_index as int]
                        is Some {
                        r is Some && r.unwrap()@ =~= seq![series[
                            self.indicator_engine.current_index as int]]
                    } else {
                        r is None
                    },
                    None => r is None,
                },
            },
    {
        match count {
            Some(n) => self.indicator_engine.get_indicator_value_count(name, symbol, n),
            None => match self.indicator_engine.get_indicator_value(name, symbol) {
                Some(v) => {
                    let mut one: Vec<Option<u64>> = Vec::new();
                    one.push(Some(v));
                    Some(one)
                },
                None => None,
            },
        }
    }

    /// The current values of several indicators on one symbol, keyed by the
    /// indicator names given, in their order.
    pub fn get_indicator_values(&self, symbol: &str, names: &Vec<String>) -> (r: Vec<(
        String,
        Option<u64>,
    )>)
        ensures
            r@.len() == names@.len(),
            forall|i: int|
                0 <= i < r@.len() ==> (#[trigger] r@[i]).0 == names@[i] && r@[i].1 == (
                match values_lookup(self.indicator_engine.values@, names@[i]@, symbol@) {
                    Some(series) => if (self.indicator_engine.current_index as int)
                        < series.len() {
                        series[self.indicator_engine.current_index as int]
                    } else {
                        None
                    },
                    None => None,
                }),
    {
        let mut out: Vec<(String, Option<u64>)> = Vec::new();
        let mut k: usize = 0;
        while k < names.len()
            invariant
                k <= names@.len(),
                out@.len() == k,
                forall|i: int|
                    0 <= i < k ==> (#[trigger] out@[i]).0 == names@[i] && out@[i].1 == (
                    match values_lookup(self.indicator_engine.values@, names@[i]@, symbol@) {
                        Some(series) => if (self.indicator_engine.current_index as int)
                            < series.len() {
                            series[self.indicator_engine.current_index as int]
                        } else {
                            None
                        },
                        None => None,
                    }),
            decreases names@.len() - k,
        {
            let v = self.indicator_engine.get_indicator_value(names[k].as_str(), symbol);
            out.push((names[k].clone(), v));
            k += 1;
        }
        out
    }

    /// The `count` most recent bars of `symbol`, without look-ahead.
    pub fn get_bars(&self, symbol: &str, count: usize) -> (r: Vec<Bar>)
        requires
            self.wf(),
        ensures
            r@ == spec_history(self.datafeed, symbol@, count as int),
            forall|i: int|
                0 <= i < r@.len() ==> (#[trigger] r@[i]).datetime
                    <= self.datafeed.current_time(),
    {
        self.datafeed.get_bars(symbol, count)
    }

    /// Queue one order for the next bar.
    pub fn add_order(&mut self, order: Order)
        requires
            old(self).wf(),
        ensures
            final(self).wf(),
            final(self).execution_engine.orders@ == old(self).execution_engine.orders@.push(
                order),
            final(self).config == old(self).config,
            final(self).portfolio == old(self).portfolio,
            final(self).metrics == old(self).metrics,
            final(self).datafeed == old(self).datafeed,
            final(self).indicator_engine == old(self).indicator_engine,
    {
        self.execution_engine.add_order(order);
    }

    /// Match every queued order against the current bars — sells before buys
    /// — record the fills, and hand them back.  Cash moves by exactly the
    /// summed flows of the fills.
    pub fn execute_orders(&mut self) -> (fills: Vec<Fill>)
        requires
            old(self).wf(),
        ensures
            final(self).wf(),
            final(self).config == old(self).config,
            final(self).datafeed == old(self).datafeed,
            final(self).indicator_engine == old(self).indicator_engine,
            final(self).execution_engine.orders@.len() == 0,
            final(self).metrics.equity_curve == old(self).metrics.equity_curve,
            final(self).metrics.benchmark_curve == old(self).metrics.benchmark_curve,
            final(self).portfolio.fills@ == old(self).portfolio.fills@ + fills@,
            final(self).portfolio.cash == old(self).portfolio.cash - sum_flows(fills@),
            old(self).portfolio.cash >= 0 && (forall|i: int|
                0 <= i < fills@.len() && (#[trigger] fills@[i]).side == OrderSide::Sell
                    ==> fills@[i].commission <= spec_fill_amount(fills@[i])) ==> final(
                self).portfolio.cash >= 0,
            forall|i: int, j: int|
                0 <= i < j < fills@.len() && (#[trigger] fills@[i]).side == OrderSide::Buy ==> (
                #[trigger] fills@[j]).side == OrderSide::Buy,
            // The fills and the portfolio change are exactly the per-order
            // outcomes of the queued orders against the current bars, sells
            // first, then buys, each group in queue order; the fills are then
            // appended to the portfolio's and the recorder's logs.
            exists|p_batch: PortfolioState|
                {
                    &&& #[trigger] batch_applied(
                        final(self).execution_engine,
                        sell_orders(old(self).execution_engine.orders@) + buy_orders(
                            old(self).execution_engine.orders@),
                        spec_current_pairs(old(self).datafeed),
                        old(self).portfolio,
                        fills@,
                        p_batch,
                    )
                    &&& final(self).portfolio.cash == p_batch.cash
                    &&& final(self).portfolio.positions == p_batch.positions
                    &&& final(self).portfolio.buy_records == p_batch.buy_records
                    &&& final(self).portfolio.t0_symbols == p_batch.t0_symbols
                    &&& final(self).portfolio.fills@ == p_batch.fills@ + fills@
                },
    {
        let current_bars = self.datafeed.get_current_bars();
        let fills = self.execution_engine.execute_all_orders(&current_bars, &mut self.portfolio);
        let ghost exec1 = self.execution_engine;
        let ghost port1 = self.portfolio;
        let mut k: usize = 0;
        let ghost fills0 = self.portfolio.fills@;
        while k < fills.len()
            invariant
                k <= fills@.len(),
                self.portfolio.wf(),
                self.portfolio.fills@ == fills0 + fills@.take(k as int),
                self.metrics.fills@ == self.portfolio.fills@,
                self.portfolio.cash == old(self).portfolio.cash - sum_flows(fills@),
                self.portfolio.t0_symbols == old(self).portfolio.t0_symbols,
                self.portfolio.positions == port1.positions,
                self.portfolio.buy_records == port1.buy_records,
                self.portfolio.cash == port1.cash,
                self.config == old(self).config,
                self.datafeed == old(self).datafeed,
                self.indicator_engine == old(self).indicator_engine,
                self.execution_engine == exec1,
                self.metrics.equity_curve == old(self).metrics.equity_curve,
                self.metrics.benchmark_curve == old(self).metrics.benchmark_curve,
            decreases fills@.len() - k,
        {
            let f1 = fills[k].duplicate();
            let f2 = fills[k].duplicate();
            self.portfolio.fills.push(f1);
            self.metrics.record_fill(f2);
            proof {
                assert(self.portfolio.fills@ =~= fills0 + fills@.take(k as int + 1));
            }
            k += 1;
        }
        proof {
            assert(fills@.take(fills@.len() as int) =~= fills@);
            lemma_sum_flows_concat(fills0, fills@);
            assert(batch_applied(
                self.execution_engine,
                sell_orders(old(self).execution_engine.orders@) + buy_orders(
                    old(self).execution_engine.orders@),
                spec_current_pairs(old(self).datafeed),
                old(self).portfolio,
                fills@,
                port1,
            ));
            assert(self.portfolio.fills@ == port1.fills@ + fills@);
        }
        fills
    }

    /// Record the equity at the current instant: the portfolio valued at the
    /// current closes, saturated into range, and the benchmark scaled to the
    /// initial cash.  Past the end of the timeline nothing is recorded.
    pub fn record_equity(&mut self)
        requires
            old(self).wf(),
        ensures
            final(self).wf(),
            final(self).config == old(self).config,
            final(self).datafeed == old(self).datafeed,
            final(self).indicator_engine == old(self).indicator_engine,
            final(self).execution_engine == old(self).execution_engine,
            final(self).portfolio == old(self).portfolio,
            (old(self).datafeed.current_index as int)
                >= old(self).datafeed.benchmark_timeline@.len() ==> final(self).metrics == old(
                self).metrics,
            (old(self).datafeed.current_index as int) < old(
                self).datafeed.benchmark_timeline@.len() ==> {
                let t = old(self).datafeed.current_time();
                let eq = clamp_i64(spec_equity(old(self).portfolio, closes_of(
                    spec_current_pairs(old(self).datafeed))));
                final(self).metrics.equity_curve@ == old(self).metrics.equity_curve@.push(
                    (EquityPoint { datetime: t, equity: eq as i64 }))
                    && final(self).metrics.benchmark_curve@ == old(
                    self).metrics.benchmark_curve@.push(
                    (EquityPoint {
                        datetime: t,
                        equity: spec_benchmark_equity(
                            old(self).config.cash,
                            old(self).datafeed.benchmark_bars@[
                                old(self).datafeed.current_index as int].close,
                            old(self).datafeed.benchmark_bars@[0].close,
                        ) as i64,
                    })) && final(self).metrics.fills == old(self).metrics.fills
            },
    {
        let t = match self.datafeed.get_current_datetime() {
            Some(t) => t,
            None => {
                return;
            },
        };
        let current_bars = self.datafeed.get_current_bars();
        let prices = crate::execution_engine::closes_vec(&current_bars);
        proof {
            assert forall|a: int, b: int|
                0 <= a < b < prices@.len() implies (#[trigger] prices@[a]).0@ != (
                #[trigger] prices@[b]).0@ by {
                assert(current_bars@[a].0@ != current_bars@[b].0@);
            }
        }
        let equity_wide = self.portfolio.calculate_equity(&prices);
        let equity = sat_to_i64(equity_wide);
        self.metrics.record_equity(t, equity);
        let bench = match self.datafeed.get_current_benchmark_bar() {
            Some(b) => b,
            None => {
                proof {
                    assert(false);
                }
                return;
            },
        };
        let first = match self.datafeed.get_initial_benchmark_bar() {
            Some(b) => b,
            None => {
                proof {
                    assert(false);
                }
                return;
            },
        };
        let bench_equity: i64 = if first.close > 0 {
            let scaled: u128 = mul_u64(self.config.cash, bench.close) / (first.close as u128);
            sat_to_i64(sat_u128_to_i128(scaled))
        } else {
            0
        };
        self.metrics.record_benchmark(t, bench_equity);
    }

    /// Step to the next bar: discard buy records of earlier dates, advance
    /// the feed, and move the indicator cursor along.  Past the end nothing
    /// changes but the sweep.
    pub fn next(&mut self)
        requires
            old(self).wf(),
        ensures
            final(self).wf(),
            final(self).config == old(self).config,
            final(self).metrics == old(self).metrics,
            final(self).execution_engine == old(self).execution_engine,
            final(self).datafeed.benchmark_timeline == old(self).datafeed.benchmark_timeline,
            final(self).datafeed.benchmark_bars == old(self).datafeed.benchmark_bars,
            final(self).datafeed.symbols == old(self).datafeed.symbols,
            final(self).datafeed.series == old(self).datafeed.series,
            final(self).datafeed.current_index == if (old(self).datafeed.current_index as int)
                < old(self).datafeed.benchmark_timeline@.len() {
                old(self).datafeed.current_index + 1
            } else {
                old(self).datafeed.current_index as int
            },
            final(self).indicator_engine.current_index == final(self).datafeed.current_index,
            final(self).indicator_engine.indicators == old(self).indicator_engine.indicators,
            final(self).indicator_engine.values == old(self).indicator_engine.values,
            final(self).portfolio.cash == old(self).portfolio.cash,
            final(self).portfolio.positions == old(self).portfolio.positions,
            final(self).portfolio.fills == old(self).portfolio.fills,
            final(self).portfolio.t0_symbols == old(self).portfolio.t0_symbols,
            // The availability sweep: records of the date being left are
            // retained, records of any other date are discarded.
            (old(self).datafeed.current_index as int) < old(
                self).datafeed.benchmark_timeline@.len() ==> (forall|s: Seq<char>|
                #[trigger] recorded_today(
                    final(self).portfolio, s, crate::timeparse::spec_day_of(
                        old(self).datafeed.current_time()) as i64) == recorded_today(
                    old(self).portfolio, s, crate::timeparse::spec_day_of(
                        old(self).datafeed.current_time()) as i64)) && (forall|
                s: Seq<char>, d: i64|
                d != crate::timeparse::spec_day_of(old(self).datafeed.current_time()) as i64
                    ==> #[trigger] recorded_today(final(self).portfolio, s, d) == 0),
            (old(self).datafeed.current_index as int) >= old(
                self).datafeed.benchmark_timeline@.len() ==> final(self).portfolio == old(
                self).portfolio,
    {
        match self.datafeed.get_current_datetime() {
            Some(t) => {
                let d = day_of(t);
                self.portfolio.update_t1_availability(d);
            },
            None => {},
        }
        self.datafeed.next();
        let idx = self.datafeed.current_index();
        self.indicator_engine.update_index(idx);
    }

    /// Whether a bar remains to be driven.
    pub fn has_next(&self) -> (r: bool)
        ensures
            r == ((self.datafeed.current_index as int)
                < self.datafeed.benchmark_timeline@.len()),
    {
        self.datafeed.has_next()
    }

    /// The summary statistics of the run so far; all-zero statistics while
    /// nothing has been recorded.
    pub fn get_stats(&self) -> (r: PerformanceStats)
        ensures
            self.metrics.equity_curve@.len() == 0 ==> r == (PerformanceStats {
                total_return: 0,
                max_drawdown: 0,
                max_drawdown_start: None,
                max_drawdown_end: None,
                sharpe_ratio: 0,
                win_rate: 0,
                profit_loss_ratio: Some(0),
                open_count: 0,
                close_count: 0,
                benchmark_return: None,
                benchmark_max_drawdown: None,
                benchmark_max_drawdown_start: None,
                benchmark_max_drawdown_end: None,
            }),
            self.metrics.equity_curve@.len() > 0 ==> r.benchmark_return == (
            if self.metrics.benchmark_curve@.len() == 0 {
                None::<i64>
            } else {
                Some(crate::metrics_recorder::spec_total_return(
                    self.metrics.benchmark_curve@) as i64)
            }),
            self.metrics.equity_curve@.len() > 0 ==> r.total_return as int
                == crate::metrics_recorder::spec_total_return(self.metrics.equity_curve@) && (
            r.max_drawdown as int,
            r.max_drawdown_start,
            r.max_drawdown_end,
            ) == crate::metrics_recorder::spec_max_drawdown(self.metrics.equity_curve@)
                && r.sharpe_ratio as int == crate::metrics_recorder::spec_sharpe(
                self.metrics.equity_curve@) && (r.win_rate as int, r.profit_loss_ratio)
                == crate::metrics_recorder::spec_trade_stats(self.metrics.fills@)
                && r.open_count as int == crate::metrics_recorder::count_side(
                self.metrics.fills@, OrderSide::Buy) && r.close_count as int
                == crate::metrics_recorder::count_side(self.metrics.fills@, OrderSide::Sell),
    {
        self.metrics.calculate_stats()
    }

    /// The equity curve, each instant rendered as an RFC 3339 string.
    pub fn get_equity_curve(&self) -> (r: Vec<(String, i64)>)
        ensures
            r@.len() == self.metrics.equity_curve@.len(),
            forall|i: int|
                0 <= i < r@.len() ==> (#[trigger] r@[i]).1
                    == self.metrics.equity_curve@[i].equity && (rfc3339_of(
                    self.metrics.equity_curve@[i].datetime) is Some ==> r@[i].0@ == rfc3339_of(
                    self.metrics.equity_curve@[i].datetime).unwrap()),
    {
        let curve = self.metrics.get_equity_curve();
        let mut out: Vec<(String, i64)> = Vec::new();
        let mut k: usize = 0;
        while k < curve.len()
            invariant
                k <= curve@.len(),
                curve@ == self.metrics.equity_curve@,
                out@.len() == k,
                forall|i: int|
                    0 <= i < k ==> (#[trigger] out@[i]).1 == curve@[i].equity && (rfc3339_of(
                        curve@[i].datetime) is Some ==> out@[i].0@ == rfc3339_of(
                        curve@[i].datetime).unwrap()),
            decreases curve@.len() - k,
        {
            let p = curve[k];
            out.push((format_datetime(p.datetime), p.equity));
            k += 1;
        }
        out
    }

    /// The fills of the run so far.
    pub fn get_fills(&self) -> (r: &Vec<Fill>)
        ensures
            r == &self.portfolio.fills,
    {
        &self.portfolio.fills
    }
}

impl BacktestEngine {
    /// Run a whole backtest: `on_start` and indicator precomputation, then
    /// per bar — oldest first — order matching, `on_bar`, `on_trade` per
    /// fill, equity recording, availability sweep and advance; `on_stop` at
    /// the end.  One equity point and one benchmark point are recorded per
    /// driven bar, dated by the timeline, so their datetimes strictly
    /// increase.
    pub fn run_backtest<S: Strategy>(&mut self, strategy: &mut S) -> (r: (
        PerformanceStats,
        Vec<(String, i64)>,
    ))
        requires
            old(self).wf(),
        ensures
            final(self).wf(),
            final(self).datafeed.benchmark_timeline == old(self).datafeed.benchmark_timeline,
            final(self).metrics.equity_curve@.len() == old(self).metrics.equity_curve@.len()
                + final(self).datafeed.benchmark_timeline@.len(),
            final(self).metrics.benchmark_curve@.len() == old(
                self).metrics.benchmark_curve@.len() + final(
                self).datafeed.benchmark_timeline@.len(),
            forall|i: int|
                0 <= i < final(self).datafeed.benchmark_timeline@.len()
                    ==> #[trigger] final(self).metrics.equity_curve@[old(
                    self).metrics.equity_curve@.len() + i].datetime == final(
                    self).datafeed.benchmark_timeline@[i] && final(self).metrics.benchmark_curve@[
                    old(self).metrics.benchmark_curve@.len() + i].datetime == final(
                    self).datafeed.benchmark_timeline@[i],
            forall|i: int, j: int|
                0 <= i < j < final(self).datafeed.benchmark_timeline@.len() ==> (
                #[trigger] final(self).metrics.equity_curve@[old(
                    self).metrics.equity_curve@.len() + i]).datetime < (#[trigger] final(
                    self).metrics.equity_curve@[old(self).metrics.equity_curve@.len()
                    + j]).datetime,
            // The returned statistics are the spec statistics of what was
            // recorded, and the returned curve renders it point for point.
            final(self).metrics.equity_curve@.len() > 0 ==> r.0.total_return as int
                == crate::metrics_recorder::spec_total_return(
                final(self).metrics.equity_curve@) && (r.0.max_drawdown as int,
            r.0.max_drawdown_start, r.0.max_drawdown_end)
                == crate::metrics_recorder::spec_max_drawdown(
                final(self).metrics.equity_curve@) && r.0.sharpe_ratio as int
                == crate::metrics_recorder::spec_sharpe(final(self).metrics.equity_curve@) && (
            r.0.win_rate as int, r.0.profit_loss_ratio)
                == crate::metrics_recorder::spec_trade_stats(final(self).metrics.fills@)
                && r.0.open_count as int == crate::metrics_recorder::count_side(
                final(self).metrics.fills@, OrderSide::Buy) && r.0.close_count as int
                == crate::metrics_recorder::count_side(
                final(self).metrics.fills@, OrderSide::Sell),
            r.1@.len() == final(self).metrics.equity_curve@.len(),
            forall|i: int|
                0 <= i < r.1@.len() ==> (#[trigger] r.1@[i]).1 == final(
                    self).metrics.equity_curve@[i].equity && (rfc3339_of(
                    final(self).metrics.equity_curve@[i].datetime) is Some ==> r.1@[i].0@
                    == rfc3339_of(final(self).metrics.equity_curve@[i].datetime).unwrap()),
    {
        let mut regs = strategy.on_start(&*self);
        while regs.len() > 0
            invariant
                self.wf(),
                self.datafeed == old(self).datafeed,
                self.metrics == old(self).metrics,
                self.portfolio == old(self).portfolio,
                self.config == old(self).config,
                self.execution_engine.commission_rate == self.config.commission_rate,
                self.execution_engine.min_commission == self.config.min_commission,
                self.execution_engine.slippage_bps == self.config.slippage_bps,
                self.execution_engine.stamp_tax_rate == self.config.stamp_tax_rate,
            decreases regs@.len(),
        {
            let (name, def) = regs.remove(0);
            self.register_indicator(name, def);
        }
        if self.indicator_engine.has_indicators() {
            self.compute_all_indicators();
        }
        self.reset();
        let ghost tl = self.datafeed.benchmark_timeline@;
        let ghost base_e = self.metrics.equity_curve@.len() as int;
        let ghost base_b = self.metrics.benchmark_curve@.len() as int;
        proof {
            assert(tl == old(self).datafeed.benchmark_timeline@);
            assert(base_e == old(self).metrics.equity_curve@.len());
            assert(base_b == old(self).metrics.benchmark_curve@.len());
            assert forall|a: int, b: int| 0 <= a < b < tl.len() implies #[trigger] tl[a]
                < #[trigger] tl[b] by {
                assert(self.datafeed.benchmark_bars@[a].datetime
                    < self.datafeed.benchmark_bars@[b].datetime);
            }
        }
        while self.has_next()
            invariant
                0 <= base_e,
                0 <= base_b,
                self.wf(),
                self.datafeed.benchmark_timeline@ == tl,
                self.datafeed.benchmark_timeline == old(self).datafeed.benchmark_timeline,
                (self.datafeed.current_index as int) <= tl.len(),
                self.indicator_engine.current_index == self.datafeed.current_index
                    || self.datafeed.current_index == 0,
                self.metrics.equity_curve@.len() == base_e + self.datafeed.current_index,
                self.metrics.benchmark_curve@.len() == base_b + self.datafeed.current_index,
                forall|i: int|
                    0 <= i < self.datafeed.current_index as int
                        ==> #[trigger] self.metrics.equity_curve@[base_e + i].datetime == tl[i]
                        && self.metrics.benchmark_curve@[base_b + i].datetime == tl[i],
            decreases tl.len() - self.datafeed.current_index,
        {
            let fills = self.execute_orders();
            let mut reqs = strategy.on_bar(&*self);
            let t = match self.datafeed.get_current_datetime() {
                Some(t) => t,
                None => 0,
            };
            let ghost feed_snap = self.datafeed;
            while reqs.len() > 0
                invariant
                    self.wf(),
                    self.datafeed == feed_snap,
                    self.datafeed.benchmark_timeline@ == tl,
                    self.datafeed.benchmark_timeline == old(self).datafeed.benchmark_timeline,
                    (self.datafeed.current_index as int) < tl.len(),
                    self.indicator_engine.current_index == self.datafeed.current_index
                        || self.datafeed.current_index == 0,
                    self.metrics.equity_curve@.len() == base_e + self.datafeed.current_index,
                    self.metrics.benchmark_curve@.len() == base_b
                        + self.datafeed.current_index,
                    forall|i: int|
                        0 <= i < self.datafeed.current_index as int
                            ==> #[trigger] self.metrics.equity_curve@[base_e + i].datetime
                            == tl[i] && self.metrics.benchmark_curve@[base_b + i].datetime
                            == tl[i],
                decreases reqs@.len(),
            {
                let req = reqs.remove(0);
                self.add_order(
                    Order {
                        symbol: req.symbol,
                        side: req.side,
                        quantity_type: req.quantity_type,
                        quantity: req.quantity,
                        timestamp: t,
                    },
                );
            }
            let ghost snap = *self;
            let mut k: usize = 0;
            while k < fills.len()
                invariant
                    *self == snap,
                decreases fills@.len() - k,
            {
                strategy.on_trade(&fills[k], &*self);
                k += 1;
            }
            let ghost cur0 = self.datafeed.current_index as int;
            let ghost eq0 = self.metrics.equity_curve@;
            let ghost bc0 = self.metrics.benchmark_curve@;
            self.record_equity();
            self.next();
            proof {
                assert forall|i: int|
                    0 <= i < self.datafeed.current_index as int
                        implies #[trigger] self.metrics.equity_curve@[base_e + i].datetime
                        == tl[i] && self.metrics.benchmark_curve@[base_b + i].datetime
                        == tl[i] by {
                    if i < cur0 {
                        assert(self.metrics.equity_curve@[base_e + i] == eq0[base_e + i]);
                        assert(self.metrics.benchmark_curve@[base_b + i] == bc0[base_b + i]);
                    }
                }
            }
        }
        strategy.on_stop(&*self);
        let stats = self.get_stats();
        let curve = self.get_equity_curve();
        (stats, curve)
    }
}

/// The benchmark equity at a close: the initial cash scaled by the close
/// over the first close, clamped into range; zero when the first close is
/// zero.
pub open spec fn spec_benchmark_equity(cash: u64, close: u64, first_close: u64) -> int {
    if first_close > 0 {
        clamp_i64(crate::numutil::clamp_i128(cash as int * close as int / first_close as int))
    } else {
        0
    }
}

/// Conservation of cash: a well-formed engine's account holds exactly the
/// initial cash minus what its fills took out — each buy's amount plus
/// commission, less each sell's amount net of commission.
pub proof fn lemma_cash_conservation(engine: BacktestEngine)
    requires
        engine.wf(),
    ensures
        engine.portfolio.cash == engine.config.cash - sum_flows(engine.portfolio.fills@),
        engine.metrics.fills@ == engine.portfolio.fills@,
{
}

/// Non-negativity: a well-formed engine stores no empty or negative
/// position — every stored position carries a positive quantity of lots.
pub proof fn lemma_positions_positive(engine: BacktestEngine)
    requires
        engine.wf(),
    ensures
        forall|i: int|
            0 <= i < engine.portfolio.positions@.len() ==> (
            #[trigger] engine.portfolio.positions@[i]).quantity > 0,
{
}

/// Concatenation sums the flows of both parts.
pub proof fn lemma_sum_flows_concat(a: Seq<Fill>, b: Seq<Fill>)
    ensures
        sum_flows(a + b) == sum_flows(a) + sum_flows(b),
    decreases b.len(),
{
    if b.len() == 0 {
        assert(a + b =~= a);
    } else {
        lemma_sum_flows_concat(a, b.drop_last());
        assert((a + b).drop_last() =~= a + b.drop_last());
        assert((a + b).last() == b.last());
    }
}

} // verus!
