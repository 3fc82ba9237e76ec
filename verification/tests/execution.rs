use backtest_engine::engine::{BacktestConfig, BacktestEngine};
use backtest_engine::types::{Bar, Order, OrderSide, QuantityType};

const DAY: i64 = 86_400;

fn bar(t: i64, close: u64) -> Bar {
    Bar { datetime: t, open: close, high: close, low: close, close, volume: 1_000_000 }
}

fn order(symbol: &str, side: OrderSide, qt: QuantityType, quantity: u64, t: i64) -> Order {
    Order { symbol: String::from(symbol), side, quantity_type: qt, quantity, timestamp: t }
}

fn engine_one_symbol(config: BacktestConfig, closes: &[u64]) -> BacktestEngine {
    let mut engine = BacktestEngine::new(config);
    let bars: Vec<Bar> =
        closes.iter().enumerate().map(|(i, &c)| bar((i as i64 + 1) * DAY, c)).collect();
    engine.set_benchmark(bars.clone());
    engine.add_market_data(String::from("X"), bars);
    engine.reset();
    engine
}

/// A single round trip on an exempt symbol, at the default cost model: the
/// exact prices, commissions and cash of each leg.
#[test]
fn round_trip_costs_are_exact() {
    let mut config = BacktestConfig::default();
    config.t0_symbols = vec![String::from("X")];
    let mut engine = engine_one_symbol(config, &[10_000_000, 11_000_000]);

    // Day 1: buy 10 lots at close 10 with one basis point of slippage.
    engine.add_order(order("X", OrderSide::Buy, QuantityType::Count, 10, 1 * DAY));
    let fills = engine.execute_orders();
    assert_eq!(fills.len(), 1);
    assert_eq!(fills[0].price, 10_001_000);
    assert_eq!(fills[0].quantity, 10);
    assert_eq!(fills[0].commission, 5_000_500);
    assert_eq!(engine.portfolio.cash, 89_993_999_500i128);
    engine.record_equity();
    engine.next();

    // Day 2: sell the 10 lots at close 11.
    engine.add_order(order("X", OrderSide::Sell, QuantityType::Count, 10, 2 * DAY));
    let fills = engine.execute_orders();
    assert_eq!(fills.len(), 1);
    assert_eq!(fills[0].price, 10_998_900);
    assert_eq!(fills[0].commission, 16_498_350);
    assert_eq!(engine.portfolio.cash, 100_976_401_150i128);
    engine.record_equity();

    let stats = engine.get_stats();
    assert_eq!(stats.open_count, 1);
    assert_eq!(stats.close_count, 1);
    assert_eq!(stats.win_rate, 1_000_000);
}

/// Without the exemption, lots bought today cannot be sold today; a sell
/// dated the next day goes through.
#[test]
fn settlement_delay_blocks_same_day_sales() {
    let mut engine = engine_one_symbol(
        BacktestConfig::default(),
        &[10_000_000, 10_000_000, 10_000_000],
    );

    engine.add_order(order("Y", OrderSide::Buy, QuantityType::Count, 5, 1 * DAY));
    engine.add_market_data(
        String::from("Y"),
        vec![bar(1 * DAY, 10_000_000), bar(2 * DAY, 10_000_000), bar(3 * DAY, 10_000_000)],
    );
    let fills = engine.execute_orders();
    assert_eq!(fills.len(), 1);

    // A sell timestamped with the buy's date is rejected outright.
    engine.add_order(order("Y", OrderSide::Sell, QuantityType::Count, 5, 1 * DAY));
    engine.next();
    let fills = engine.execute_orders();
    assert_eq!(fills.len(), 0);

    // A sell timestamped the following day succeeds.
    engine.add_order(order("Y", OrderSide::Sell, QuantityType::Count, 5, 2 * DAY));
    engine.next();
    let fills = engine.execute_orders();
    assert_eq!(fills.len(), 1);
    assert_eq!(fills[0].side, OrderSide::Sell);
}

/// A weight order buys whole lots toward a fraction of current equity.
#[test]
fn weight_orders_target_a_fraction_of_equity() {
    let mut config = BacktestConfig::default();
    config.slippage_bps = 0;
    let mut engine = engine_one_symbol(config, &[20_000_000]);
    engine.add_order(order("X", OrderSide::Buy, QuantityType::Weight, 500_000, 1 * DAY));
    let fills = engine.execute_orders();
    assert_eq!(fills.len(), 1);
    assert_eq!(fills[0].quantity, 25);
    assert_eq!(fills[0].price, 20_000_000);
    assert_eq!(fills[0].commission, 25_000_000);
    assert_eq!(engine.portfolio.cash, 49_975_000_000i128);
}

/// A cash order buys as many whole lots as the amount covers.
#[test]
fn cash_orders_buy_whole_lots() {
    let mut config = BacktestConfig::default();
    config.slippage_bps = 0;
    let mut engine = engine_one_symbol(config, &[10_000_000]);
    // 2,500 in cash at price 10 covers 2.5 lots; 2 whole lots fill.
    engine.add_order(order("X", OrderSide::Buy, QuantityType::Cash, 2_500_000_000, 1 * DAY));
    let fills = engine.execute_orders();
    assert_eq!(fills.len(), 1);
    assert_eq!(fills[0].quantity, 2);
}

/// A buy the cash cannot cover is skipped without a fill.
#[test]
fn insufficient_cash_skips_the_order() {
    let mut config = BacktestConfig::default();
    config.cash = 1_000_000_000;
    let mut engine = engine_one_symbol(config, &[10_000_000]);
    engine.add_order(order("X", OrderSide::Buy, QuantityType::Count, 5, 1 * DAY));
    let fills = engine.execute_orders();
    assert_eq!(fills.len(), 0);
    assert_eq!(engine.portfolio.cash, 1_000_000_000i128);
    assert_eq!(engine.get_fills().len(), 0);
}

/// An order for a symbol without a current bar is skipped silently.
#[test]
fn missing_bar_skips_the_order() {
    let mut engine = engine_one_symbol(BacktestConfig::default(), &[10_000_000]);
    engine.add_order(order("Z", OrderSide::Buy, QuantityType::Count, 1, 1 * DAY));
    assert_eq!(engine.execute_orders().len(), 0);
}

/// Sells match before buys whatever the submission interleaving: queues with
/// the same per-side order produce the same fills.
#[test]
fn interleaving_across_sides_does_not_matter() {
    let run = |sell_first: bool| {
        let mut engine = engine_one_symbol(
            {
                let mut c = BacktestConfig::default();
                c.t0_symbols = vec![String::from("X")];
                c.slippage_bps = 0;
                c
            },
            &[10_000_000, 10_000_000],
        );
        engine.add_order(order("X", OrderSide::Buy, QuantityType::Count, 3, 1 * DAY));
        engine.execute_orders();
        engine.next();
        // One sell and one buy for the second bar, queued both ways around.
        if sell_first {
            engine.add_order(order("X", OrderSide::Sell, QuantityType::Count, 2, 2 * DAY));
            engine.add_order(order("X", OrderSide::Buy, QuantityType::Count, 1, 2 * DAY));
        } else {
            engine.add_order(order("X", OrderSide::Buy, QuantityType::Count, 1, 2 * DAY));
            engine.add_order(order("X", OrderSide::Sell, QuantityType::Count, 2, 2 * DAY));
        }
        let fills = engine.execute_orders();
        let summary: Vec<(OrderSide, u64, u64)> =
            fills.iter().map(|f| (f.side, f.quantity, f.price)).collect();
        (summary, engine.portfolio.cash)
    };

    let (fills_a, cash_a) = run(true);
    let (fills_b, cash_b) = run(false);
    assert_eq!(fills_a, fills_b);
    assert_eq!(cash_a, cash_b);
    assert_eq!(fills_a[0].0, OrderSide::Sell);
    assert_eq!(fills_a[1].0, OrderSide::Buy);
}

/// Cash moves by exactly the summed flows of the fills.
#[test]
fn cash_is_conserved_across_fills() {
    let mut config = BacktestConfig::default();
    config.t0_symbols = vec![String::from("X")];
    let initial = config.cash as i128;
    let mut engine = engine_one_symbol(config, &[10_000_000, 11_000_000, 9_000_000]);
    engine.add_order(order("X", OrderSide::Buy, QuantityType::Count, 7, 1 * DAY));
    engine.execute_orders();
    engine.next();
    engine.add_order(order("X", OrderSide::Sell, QuantityType::Count, 4, 2 * DAY));
    engine.add_order(order("X", OrderSide::Buy, QuantityType::Count, 2, 2 * DAY));
    engine.execute_orders();
    engine.next();
    engine.add_order(order("X", OrderSide::Sell, QuantityType::Count, 5, 3 * DAY));
    engine.execute_orders();

    let mut expected = initial;
    for f in engine.get_fills() {
        let amount = (f.quantity as i128) * (f.price as i128) * 100;
        match f.side {
            OrderSide::Buy => expected -= amount + f.commission as i128,
            OrderSide::Sell => expected += amount - f.commission as i128,
        }
    }
    assert_eq!(engine.portfolio.cash, expected);
    assert!(engine.portfolio.positions.iter().all(|p| p.quantity > 0));
    assert!(engine.portfolio.cash >= 0);
}
