use backtest_engine::metrics_recorder::MetricsRecorder;
use backtest_engine::types::{Fill, OrderSide};

const DAY: i64 = 86_400;

fn fill(symbol: &str, side: OrderSide, quantity: u64, price: u64, t: i64) -> Fill {
    Fill {
        symbol: String::from(symbol),
        side,
        quantity,
        price,
        commission: 0,
        timestamp: t,
    }
}

#[test]
fn empty_curve_yields_neutral_stats() {
    let m = MetricsRecorder::new();
    let s = m.calculate_stats();
    assert_eq!(s.total_return, 0);
    assert_eq!(s.max_drawdown, 0);
    assert_eq!(s.max_drawdown_start, None);
    assert_eq!(s.sharpe_ratio, 0);
    assert_eq!(s.open_count, 0);
    assert_eq!(s.benchmark_return, None);
}

/// The drawdown period is anchored at the global peak, not an earlier one.
#[test]
fn drawdown_period_tracks_the_global_peak() {
    let mut m = MetricsRecorder::new();
    let equities: [i64; 5] = [100, 120, 90, 130, 80];
    for (i, e) in equities.iter().enumerate() {
        m.record_equity((i as i64 + 1) * DAY, e * 1_000_000);
    }
    let s = m.calculate_stats();
    // 50 / 130, scaled by one million and floored.
    assert_eq!(s.max_drawdown, 384_615);
    assert_eq!(s.max_drawdown_start, Some(4 * DAY));
    assert_eq!(s.max_drawdown_end, Some(5 * DAY));
    // (80 - 100) / 100.
    assert_eq!(s.total_return, -200_000);
}

#[test]
fn flat_and_monotone_curves_have_zero_sharpe() {
    let mut m = MetricsRecorder::new();
    m.record_equity(1 * DAY, 100_000_000);
    m.record_equity(2 * DAY, 100_000_000);
    assert_eq!(m.calculate_stats().sharpe_ratio, 0);

    let mut m2 = MetricsRecorder::new();
    // Two identical 10% steps: zero standard deviation.
    m2.record_equity(1 * DAY, 100_000_000);
    m2.record_equity(2 * DAY, 110_000_000);
    m2.record_equity(3 * DAY, 121_000_000);
    assert_eq!(m2.calculate_stats().sharpe_ratio, 0);
}

#[test]
fn sharpe_of_two_uneven_steps() {
    let mut m = MetricsRecorder::new();
    // Returns 20% and 5%: mean 125000, deviations 75000, so the ratio is
    // (125000 / 75000) * sqrt(252), scaled by one million and floored.
    m.record_equity(1 * DAY, 100_000_000);
    m.record_equity(2 * DAY, 120_000_000);
    m.record_equity(3 * DAY, 126_000_000);
    assert_eq!(m.calculate_stats().sharpe_ratio, 26_457_511);
}

/// Round trips are matched oldest buy first; gross profit decides the side.
#[test]
fn trade_stats_match_lots_first_in_first_out() {
    let mut m = MetricsRecorder::new();
    m.record_equity(1 * DAY, 100_000_000);
    // Buy 10 at 10, buy 10 at 20, sell 15 at 12: the sell consumes the ten
    // lots at 10 and five at 20: cost 20000, revenue 18000 - a loss.
    m.record_fill(fill("A", OrderSide::Buy, 10, 10_000_000, 1 * DAY));
    m.record_fill(fill("A", OrderSide::Buy, 10, 20_000_000, 1 * DAY));
    m.record_fill(fill("A", OrderSide::Sell, 15, 12_000_000, 2 * DAY));
    // Sell the remaining 5 (carried at 20) at 30: a win.
    m.record_fill(fill("A", OrderSide::Sell, 5, 30_000_000, 3 * DAY));
    let s = m.calculate_stats();
    assert_eq!(s.open_count, 2);
    assert_eq!(s.close_count, 2);
    assert_eq!(s.win_rate, 500_000);
    // Profit 5000, loss 2000, one of each: ratio 2.5.
    assert_eq!(s.profit_loss_ratio, Some(2_500_000));
}

#[test]
fn all_wins_have_unbounded_profit_loss_ratio() {
    let mut m = MetricsRecorder::new();
    m.record_equity(1 * DAY, 100_000_000);
    m.record_fill(fill("A", OrderSide::Buy, 1, 10_000_000, 1 * DAY));
    m.record_fill(fill("A", OrderSide::Sell, 1, 20_000_000, 2 * DAY));
    let s = m.calculate_stats();
    assert_eq!(s.win_rate, 1_000_000);
    assert_eq!(s.profit_loss_ratio, None);
}

#[test]
fn a_sell_with_no_open_lots_books_nothing() {
    let mut m = MetricsRecorder::new();
    m.record_equity(1 * DAY, 100_000_000);
    m.record_fill(fill("A", OrderSide::Sell, 5, 10_000_000, 1 * DAY));
    let s = m.calculate_stats();
    assert_eq!(s.win_rate, 0);
    assert_eq!(s.profit_loss_ratio, Some(0));
    assert_eq!(s.close_count, 1);
}

#[test]
fn benchmark_stats_mirror_the_benchmark_curve() {
    let mut m = MetricsRecorder::new();
    m.record_equity(1 * DAY, 100_000_000);
    m.record_equity(2 * DAY, 110_000_000);
    m.record_benchmark(1 * DAY, 100_000_000);
    m.record_benchmark(2 * DAY, 90_000_000);
    let s = m.calculate_stats();
    assert_eq!(s.total_return, 100_000);
    assert_eq!(s.benchmark_return, Some(-100_000));
    assert_eq!(s.benchmark_max_drawdown, Some(100_000));
    assert_eq!(s.benchmark_max_drawdown_start, Some(1 * DAY));
    assert_eq!(s.benchmark_max_drawdown_end, Some(2 * DAY));
}
