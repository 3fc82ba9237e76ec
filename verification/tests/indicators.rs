use backtest_engine::datafeed::DataFeed;
use backtest_engine::indicator_engine::{parse_u64, IndicatorDef, IndicatorEngine};
use backtest_engine::types::Bar;

const DAY: i64 = 86_400;

fn bar(t: i64, close: u64) -> Bar {
    Bar { datetime: t, open: close + 1, high: close + 2, low: close - 1, close, volume: 7 }
}

fn sma(period: &str) -> IndicatorDef {
    IndicatorDef::Builtin {
        name: String::from("sma"),
        params: vec![(String::from("period"), String::from(period))],
        lookback_period: 5,
    }
}

fn feed_with_closes(closes: &[u64]) -> DataFeed {
    let mut feed = DataFeed::new();
    let bars: Vec<Bar> =
        closes.iter().enumerate().map(|(i, &c)| bar((i as i64 + 1) * DAY, c)).collect();
    feed.set_benchmark(bars.clone());
    feed.add_market_data(String::from("X"), bars);
    feed.reset();
    feed
}

#[test]
fn decimal_reads() {
    assert_eq!(parse_u64("0"), Some(0));
    assert_eq!(parse_u64("123"), Some(123));
    assert_eq!(parse_u64("18446744073709551615"), Some(u64::MAX));
    assert_eq!(parse_u64("18446744073709551616"), None);
    assert_eq!(parse_u64(""), None);
    assert_eq!(parse_u64("12a"), None);
    assert_eq!(parse_u64("-3"), None);
}

/// The moving average is absent until `period` bars accumulated, then the
/// mean of the trailing window.
#[test]
fn moving_average_aligns_to_the_timeline() {
    let feed = feed_with_closes(&[10_000_000, 20_000_000, 60_000_000]);
    let mut ind = IndicatorEngine::new();
    ind.register_indicator(String::from("ma2"), sma("2"));
    ind.compute_all_indicators(&feed);

    ind.update_index(0);
    assert_eq!(ind.get_indicator_value("ma2", "X"), None);
    ind.update_index(1);
    assert_eq!(ind.get_indicator_value("ma2", "X"), Some(15_000_000));
    ind.update_index(2);
    assert_eq!(ind.get_indicator_value("ma2", "X"), Some(40_000_000));
    assert_eq!(ind.get_indicator_value("ma2", "Z"), None);
    assert_eq!(ind.get_indicator_value("nope", "X"), None);
}

/// A symbol whose bars lag the timeline gets values only once enough of its
/// own bars lie at or before the instant.
#[test]
fn late_symbols_stay_absent_until_covered() {
    let mut feed = feed_with_closes(&[1_000_000, 2_000_000, 3_000_000]);
    feed.add_market_data(
        String::from("L"),
        vec![bar(2 * DAY, 10_000_000), bar(3 * DAY, 30_000_000)],
    );
    feed.reset();
    let mut ind = IndicatorEngine::new();
    ind.register_indicator(String::from("m"), sma("2"));
    ind.compute_all_indicators(&feed);
    ind.update_index(0);
    assert_eq!(ind.get_indicator_value("m", "L"), None);
    ind.update_index(1);
    assert_eq!(ind.get_indicator_value("m", "L"), None);
    ind.update_index(2);
    assert_eq!(ind.get_indicator_value("m", "L"), Some(20_000_000));
}

/// A window of more than one filters the absent values out; a window of one
/// hands the raw entry back.
#[test]
fn windows_filter_absent_values() {
    let feed = feed_with_closes(&[10_000_000, 20_000_000, 60_000_000]);
    let mut ind = IndicatorEngine::new();
    ind.register_indicator(String::from("ma2"), sma("2"));
    ind.compute_all_indicators(&feed);
    ind.update_index(2);
    let w = ind.get_indicator_value_count("ma2", "X", 3).unwrap();
    assert_eq!(w, vec![Some(15_000_000), Some(40_000_000)]);
    let one = ind.get_indicator_value_count("ma2", "X", 1).unwrap();
    assert_eq!(one, vec![Some(40_000_000)]);
    ind.update_index(0);
    assert_eq!(ind.get_indicator_value_count("ma2", "X", 3), None);
    let raw = ind.get_indicator_value_count("ma2", "X", 1).unwrap();
    assert_eq!(raw, vec![None]);
}

/// An unknown field or an unknown built-in name yields an all-absent series.
#[test]
fn unknown_fields_and_names_yield_nothing() {
    let feed = feed_with_closes(&[10_000_000, 20_000_000]);
    let mut ind = IndicatorEngine::new();
    ind.register_indicator(
        String::from("bad"),
        IndicatorDef::Builtin {
            name: String::from("sma"),
            params: vec![
                (String::from("period"), String::from("1")),
                (String::from("field"), String::from("price")),
            ],
            lookback_period: 1,
        },
    );
    ind.register_indicator(
        String::from("rsi"),
        IndicatorDef::Builtin {
            name: String::from("rsi"),
            params: vec![],
            lookback_period: 2,
        },
    );
    ind.compute_all_indicators(&feed);
    ind.update_index(1);
    assert_eq!(ind.get_indicator_value("bad", "X"), None);
    assert_eq!(ind.get_indicator_value("rsi", "X"), None);
}

/// An unreadable period falls back to the lookback period; a chosen field is
/// honoured.
#[test]
fn parameter_defaults_apply() {
    let feed = feed_with_closes(&[10_000_000, 20_000_000]);
    let mut ind = IndicatorEngine::new();
    ind.register_indicator(
        String::from("mo"),
        IndicatorDef::Builtin {
            name: String::from("sma"),
            params: vec![
                (String::from("period"), String::from("x")),
                (String::from("field"), String::from("open")),
            ],
            lookback_period: 1,
        },
    );
    ind.compute_all_indicators(&feed);
    ind.update_index(0);
    // Period falls back to the lookback of 1; the open is close + 1.
    assert_eq!(ind.get_indicator_value("mo", "X"), Some(10_000_001));
}

/// Values written in from outside are read back at their position.
#[test]
fn written_values_are_read_back() {
    let feed = feed_with_closes(&[10_000_000, 20_000_000]);
    let mut ind = IndicatorEngine::new();
    ind.register_indicator(
        String::from("ext"),
        IndicatorDef::External { name: String::from("ext"), lookback_period: 1 },
    );
    ind.compute_all_indicators(&feed);
    ind.update_index(1);
    assert_eq!(ind.get_indicator_value("ext", "X"), None);
    ind.set_indicator_value("ext", "X", 1, 42);
    assert_eq!(ind.get_indicator_value("ext", "X"), Some(42));
}

/// Re-registering a name replaces the earlier definition.
#[test]
fn registration_replaces_by_name() {
    let feed = feed_with_closes(&[10_000_000, 20_000_000]);
    let mut ind = IndicatorEngine::new();
    assert!(!ind.has_indicators());
    ind.register_indicator(String::from("m"), sma("2"));
    ind.register_indicator(String::from("m"), sma("1"));
    assert!(ind.has_indicators());
    ind.compute_all_indicators(&feed);
    ind.update_index(0);
    assert_eq!(ind.get_indicator_value("m", "X"), Some(10_000_000));
}
