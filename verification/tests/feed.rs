use backtest_engine::datafeed::DataFeed;
use backtest_engine::types::Bar;

const DAY: i64 = 86_400;

fn bar(t: i64, close: u64) -> Bar {
    Bar { datetime: t, open: close, high: close, low: close, close, volume: 1_000_000 }
}

fn feed_two_symbols() -> DataFeed {
    let mut feed = DataFeed::new();
    feed.set_benchmark(vec![bar(1 * DAY, 100), bar(2 * DAY, 101), bar(3 * DAY, 102)]);
    feed.add_market_data(
        String::from("X"),
        vec![bar(1 * DAY, 10), bar(2 * DAY, 11), bar(3 * DAY, 12)],
    );
    // Y starts late and has a gap at day 3.
    feed.add_market_data(String::from("Y"), vec![bar(2 * DAY, 20)]);
    feed.reset();
    feed
}

#[test]
fn unsorted_input_is_stored_sorted() {
    let mut feed = DataFeed::new();
    feed.set_benchmark(vec![bar(3 * DAY, 3), bar(1 * DAY, 1), bar(2 * DAY, 2)]);
    feed.add_market_data(
        String::from("X"),
        vec![bar(2 * DAY, 22), bar(1 * DAY, 11)],
    );
    assert_eq!(*feed.benchmark_timeline(), vec![1 * DAY, 2 * DAY, 3 * DAY]);
    let xs = feed.get_all_bars_for_symbol("X");
    assert_eq!(xs.len(), 2);
    assert_eq!(xs[0].close, 11);
    assert_eq!(xs[1].close, 22);
}

#[test]
fn cursors_follow_the_timeline() {
    let mut feed = feed_two_symbols();
    assert_eq!(feed.current_index(), 0);
    assert!(feed.has_next());
    assert_eq!(feed.get_current_datetime(), Some(1 * DAY));
    assert_eq!(feed.get_current_bar("X").map(|b| b.close), Some(10));
    // Y has no bar at or before day 1.
    assert!(feed.get_current_bar("Y").is_none());
    assert!(!feed.is_tradable("Y"));

    feed.next();
    assert_eq!(feed.get_current_bar("X").map(|b| b.close), Some(11));
    assert_eq!(feed.get_current_bar("Y").map(|b| b.close), Some(20));

    feed.next();
    // Y has a gap at day 3: its latest bar is still day 2's.
    assert_eq!(feed.get_current_bar("X").map(|b| b.close), Some(12));
    assert_eq!(feed.get_current_bar("Y").map(|b| b.close), Some(20));

    feed.next();
    assert!(!feed.has_next());
    assert!(feed.get_current_datetime().is_none());
    assert!(feed.get_current_bar("X").is_none());
}

#[test]
fn current_bars_lists_only_tradable_symbols() {
    let feed = feed_two_symbols();
    let bars = feed.get_current_bars();
    assert_eq!(bars.len(), 1);
    assert_eq!(bars[0].0, "X");
    assert_eq!(bars[0].1.close, 10);
}

#[test]
fn history_is_all_or_nothing_and_never_looks_ahead() {
    let mut feed = feed_two_symbols();
    feed.next();
    // At day 2, X has two bars; asking for three yields nothing.
    assert_eq!(feed.get_bars("X", 3).len(), 0);
    let two = feed.get_bars("X", 2);
    assert_eq!(two.len(), 2);
    assert_eq!(two[0].close, 10);
    assert_eq!(two[1].close, 11);
    assert!(two.iter().all(|b| b.datetime <= 2 * DAY));
    assert_eq!(feed.get_bars("X", 0).len(), 0);
    assert_eq!(feed.get_bars("Z", 1).len(), 0);
}

#[test]
fn reset_returns_to_the_first_bar() {
    let mut feed = feed_two_symbols();
    feed.next();
    feed.next();
    feed.reset();
    assert_eq!(feed.current_index(), 0);
    assert_eq!(feed.get_current_bar("X").map(|b| b.close), Some(10));
    assert!(feed.get_current_bar("Y").is_none());
}

#[test]
fn replacing_a_series_reseeds_its_cursor() {
    let mut feed = feed_two_symbols();
    feed.next();
    feed.add_market_data(String::from("Y"), vec![bar(1 * DAY, 19), bar(2 * DAY, 21)]);
    assert_eq!(feed.get_current_bar("Y").map(|b| b.close), Some(21));
    assert_eq!(feed.get_symbols().len(), 2);
}
