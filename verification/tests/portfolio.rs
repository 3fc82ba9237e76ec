use backtest_engine::types::PortfolioState;

#[test]
fn new_portfolio_holds_only_cash() {
    let p = PortfolioState::new(100_000_000_000, vec![]);
    assert_eq!(p.cash, 100_000_000_000i128);
    assert_eq!(p.positions.len(), 0);
    assert_eq!(p.fills.len(), 0);
}

#[test]
fn add_position_averages_cost_per_share() {
    let mut p = PortfolioState::new(100_000_000_000, vec![]);
    p.add_position("A", 10, 10_000_000, 1);
    assert_eq!(p.positions.len(), 1);
    assert_eq!(p.positions[0].quantity, 10);
    assert_eq!(p.positions[0].avg_cost, 10_000_000);
    // 10 lots at 10 and 10 lots at 20 average to 15 per share.
    p.add_position("A", 10, 20_000_000, 1);
    assert_eq!(p.positions[0].quantity, 20);
    assert_eq!(p.positions[0].avg_cost, 15_000_000);
}

#[test]
fn reduce_position_releases_cash_and_removes_at_zero() {
    let mut p = PortfolioState::new(100_000_000_000, vec![]);
    p.add_position("A", 10, 10_000_000, 1);
    let released = p.reduce_position("A", 4, 11_000_000);
    assert_eq!(released, 4u128 * 11_000_000 * 100);
    assert_eq!(p.positions[0].quantity, 6);
    // Selling more than held releases nothing and changes nothing.
    let rejected = p.reduce_position("A", 7, 11_000_000);
    assert_eq!(rejected, 0);
    assert_eq!(p.positions[0].quantity, 6);
    // Selling the rest removes the position.
    let rest = p.reduce_position("A", 6, 11_000_000);
    assert_eq!(rest, 6u128 * 11_000_000 * 100);
    assert_eq!(p.positions.len(), 0);
}

#[test]
fn same_day_buys_block_availability() {
    let mut p = PortfolioState::new(100_000_000_000, vec![]);
    p.add_position("A", 5, 10_000_000, 3);
    assert_eq!(p.get_available("A", 3), 0);
    assert_eq!(p.get_available("A", 4), 5);
    p.add_position("A", 2, 10_000_000, 4);
    assert_eq!(p.get_available("A", 4), 5);
    assert_eq!(p.get_available("A", 5), 7);
}

#[test]
fn exempt_symbols_are_fully_available_at_once() {
    let mut p = PortfolioState::new(100_000_000_000, vec![String::from("A")]);
    p.add_position("A", 5, 10_000_000, 3);
    assert_eq!(p.get_available("A", 3), 5);
}

#[test]
fn availability_of_unknown_symbol_is_zero() {
    let p = PortfolioState::new(100_000_000_000, vec![]);
    assert_eq!(p.get_available("A", 1), 0);
}

#[test]
fn sweep_keeps_only_the_given_date() {
    let mut p = PortfolioState::new(100_000_000_000, vec![]);
    p.add_position("A", 5, 10_000_000, 3);
    p.add_position("A", 2, 10_000_000, 4);
    p.update_t1_availability(4);
    // The day-3 record is gone; the day-4 record still blocks.
    assert_eq!(p.get_available("A", 3), 7);
    assert_eq!(p.get_available("A", 4), 5);
}

#[test]
fn equity_values_positions_at_current_prices() {
    let mut p = PortfolioState::new(1_000_000_000, vec![]);
    p.add_position("A", 3, 10_000_000, 1);
    let prices = vec![(String::from("A"), 12_000_000u64)];
    // cash + 3 lots * 12 * 100 shares.
    assert_eq!(p.calculate_equity(&prices), 1_000_000_000 + 3 * 12_000_000 * 100);
    // Without a price the (zero) last known market value is used.
    let empty: Vec<(String, u64)> = vec![];
    assert_eq!(p.calculate_equity(&empty), 1_000_000_000);
}
