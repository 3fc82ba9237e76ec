use backtest_engine::engine::{
    BacktestConfig, BacktestEngine, OrderRequest, Strategy,
};
use backtest_engine::indicator_engine::IndicatorDef;
use backtest_engine::timeparse::{day_of, format_datetime, parse_datetime};
use backtest_engine::types::{Bar, Fill, OrderSide, QuantityType};

const DAY: i64 = 86_400;

fn bar(t: i64, close: u64) -> Bar {
    Bar { datetime: t, open: close, high: close, low: close, close, volume: 1_000_000 }
}

/// Holds still: no registrations, no orders.
struct IdleStrategy;

impl Strategy for IdleStrategy {
    fn on_start(&mut self, _engine: &BacktestEngine) -> Vec<(String, IndicatorDef)> {
        Vec::new()
    }
    fn on_bar(&mut self, _engine: &BacktestEngine) -> Vec<OrderRequest> {
        Vec::new()
    }
    fn on_trade(&mut self, _fill: &Fill, _engine: &BacktestEngine) {}
    fn on_stop(&mut self, _engine: &BacktestEngine) {}
}

/// Buys a fixed count at the first bar and sells it at the second.
struct RoundTripStrategy {
    bars_seen: usize,
    trades_seen: usize,
}

impl Strategy for RoundTripStrategy {
    fn on_start(&mut self, _engine: &BacktestEngine) -> Vec<(String, IndicatorDef)> {
        Vec::new()
    }
    fn on_bar(&mut self, _engine: &BacktestEngine) -> Vec<OrderRequest> {
        self.bars_seen += 1;
        let side = match self.bars_seen {
            1 => Some(OrderSide::Buy),
            2 => Some(OrderSide::Sell),
            _ => None,
        };
        match side {
            Some(side) => vec![OrderRequest {
                symbol: String::from("X"),
                side,
                quantity_type: QuantityType::Count,
                quantity: 10,
            }],
            None => Vec::new(),
        }
    }
    fn on_trade(&mut self, _fill: &Fill, _engine: &BacktestEngine) {
        self.trades_seen += 1;
    }
    fn on_stop(&mut self, _engine: &BacktestEngine) {}
}

/// One benchmark bar and no orders: one equity point at the initial cash,
/// zero return and drawdown, no trades.
#[test]
fn an_idle_run_records_one_flat_point_per_bar() {
    let mut engine = BacktestEngine::new(BacktestConfig::default());
    engine.set_benchmark(vec![bar(1 * DAY, 100_000_000)]);
    let (stats, curve) = engine.run_backtest(&mut IdleStrategy);
    assert_eq!(curve.len(), 1);
    assert_eq!(curve[0].1, 100_000_000_000);
    assert_eq!(stats.total_return, 0);
    assert_eq!(stats.max_drawdown, 0);
    assert_eq!(stats.open_count, 0);
    assert_eq!(stats.close_count, 0);
}

/// Orders queued during a bar match at the next bar; the run records one
/// equity point per bar with strictly increasing datetimes.
#[test]
fn a_driven_round_trip_matches_next_bar() {
    let mut config = BacktestConfig::default();
    config.t0_symbols = vec![String::from("X")];
    let mut engine = BacktestEngine::new(config);
    let bars = vec![bar(1 * DAY, 10_000_000), bar(2 * DAY, 11_000_000), bar(3 * DAY, 11_000_000)];
    engine.set_benchmark(bars.clone());
    engine.add_market_data(String::from("X"), bars);
    let mut strategy = RoundTripStrategy { bars_seen: 0, trades_seen: 0 };
    let (stats, curve) = engine.run_backtest(&mut strategy);

    assert_eq!(curve.len(), 3);
    assert_eq!(strategy.trades_seen, 2);
    let fills = engine.get_fills();
    assert_eq!(fills.len(), 2);
    // The buy queued at bar one matched at bar two, the sell at bar three.
    assert_eq!(fills[0].side, OrderSide::Buy);
    assert_eq!(fills[0].price, 11_001_100);
    assert_eq!(fills[1].side, OrderSide::Sell);
    assert_eq!(fills[1].price, 10_998_900);
    assert_eq!(stats.open_count, 1);
    assert_eq!(stats.close_count, 1);
    // Equity point datetimes strictly increase along the timeline.
    let points = engine.metrics.get_equity_curve();
    assert!(points.windows(2).all(|w| w[0].datetime < w[1].datetime));
    assert_eq!(engine.metrics.get_benchmark_curve().len(), 3);
}

/// Resetting and looping again retraces exactly the same curve and indicator
/// reads: the replay is a function of the stored data alone.
#[test]
fn reruns_are_deterministic() {
    struct Probe {
        reads: Vec<Option<u64>>,
    }
    impl Strategy for Probe {
        fn on_start(&mut self, _engine: &BacktestEngine) -> Vec<(String, IndicatorDef)> {
            vec![(
                String::from("m"),
                IndicatorDef::Builtin {
                    name: String::from("sma"),
                    params: vec![(String::from("period"), String::from("2"))],
                    lookback_period: 2,
                },
            )]
        }
        fn on_bar(&mut self, engine: &BacktestEngine) -> Vec<OrderRequest> {
            let v = engine.get_indicator_value("m", "X", None);
            self.reads.push(v.map(|w| w[0]).flatten());
            Vec::new()
        }
        fn on_trade(&mut self, _fill: &Fill, _engine: &BacktestEngine) {}
        fn on_stop(&mut self, _engine: &BacktestEngine) {}
    }

    let mut engine = BacktestEngine::new(BacktestConfig::default());
    let bars = vec![bar(1 * DAY, 10_000_000), bar(2 * DAY, 12_000_000), bar(3 * DAY, 9_000_000)];
    engine.set_benchmark(bars.clone());
    engine.add_market_data(String::from("X"), bars);

    let mut first = Probe { reads: Vec::new() };
    let (_, curve1) = engine.run_backtest(&mut first);
    let mut second = Probe { reads: Vec::new() };
    let (_, curve2) = engine.run_backtest(&mut second);
    // The recorder accumulates: the second pass appended an identical copy.
    assert_eq!(curve2.len(), 2 * curve1.len());
    assert_eq!(&curve2[..curve1.len()], &curve1[..]);
    assert_eq!(&curve2[curve1.len()..], &curve1[..]);
    assert_eq!(first.reads, second.reads);
}

/// The benchmark curve scales the initial cash by the benchmark's closes.
#[test]
fn benchmark_curve_scales_initial_cash() {
    let mut engine = BacktestEngine::new(BacktestConfig::default());
    engine.set_benchmark(vec![bar(1 * DAY, 100_000_000), bar(2 * DAY, 150_000_000)]);
    let (stats, _) = engine.run_backtest(&mut IdleStrategy);
    let bench = engine.metrics.get_benchmark_curve();
    assert_eq!(bench.len(), 2);
    assert_eq!(bench[0].equity, 100_000_000_000);
    assert_eq!(bench[1].equity, 150_000_000_000);
    assert_eq!(stats.benchmark_return, Some(500_000));
}

#[test]
fn datetime_strings_parse_and_format() {
    assert_eq!(parse_datetime("2020-01-01T00:00:00+00:00"), Some(1_577_836_800));
    assert_eq!(parse_datetime("2020-01-01 00:00:00"), Some(1_577_836_800));
    assert_eq!(parse_datetime("2020-01-01T01:00:00+01:00"), Some(1_577_836_800));
    assert_eq!(parse_datetime("not a datetime"), None);
    assert_eq!(format_datetime(0), "1970-01-01T00:00:00+00:00");
    assert_eq!(parse_datetime(&format_datetime(1_577_836_800)), Some(1_577_836_800));
}

#[test]
fn calendar_dates_floor_toward_earlier_days() {
    assert_eq!(day_of(0), 0);
    assert_eq!(day_of(86_399), 0);
    assert_eq!(day_of(86_400), 1);
    assert_eq!(day_of(-1), -1);
    assert_eq!(day_of(-86_400), -1);
    assert_eq!(day_of(-86_401), -2);
}

/// A registered moving average is queryable during the run and never uses
/// bars after the current instant.
#[test]
fn indicators_are_available_during_the_run() {
    struct SmaProbe {
        values: Vec<Option<u64>>,
    }
    impl Strategy for SmaProbe {
        fn on_start(&mut self, _engine: &BacktestEngine) -> Vec<(String, IndicatorDef)> {
            vec![(
                String::from("m"),
                IndicatorDef::Builtin {
                    name: String::from("sma"),
                    params: vec![(String::from("period"), String::from("2"))],
                    lookback_period: 2,
                },
            )]
        }
        fn on_bar(&mut self, engine: &BacktestEngine) -> Vec<OrderRequest> {
            let v = engine.get_indicator_value("m", "X", None);
            self.values.push(v.map(|w| w[0]).flatten());
            Vec::new()
        }
        fn on_trade(&mut self, _fill: &Fill, _engine: &BacktestEngine) {}
        fn on_stop(&mut self, _engine: &BacktestEngine) {}
    }

    let mut engine = BacktestEngine::new(BacktestConfig::default());
    let bars = vec![bar(1 * DAY, 10_000_000), bar(2 * DAY, 20_000_000), bar(3 * DAY, 30_000_000)];
    engine.set_benchmark(bars.clone());
    engine.add_market_data(String::from("X"), bars);
    let mut probe = SmaProbe { values: Vec::new() };
    engine.run_backtest(&mut probe);
    assert_eq!(probe.values, vec![None, Some(15_000_000), Some(25_000_000)]);
}
