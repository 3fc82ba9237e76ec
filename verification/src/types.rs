//! Core data types of the backtest engine: bars, orders, fills, positions and
//! the portfolio state with its availability (T+1) rule.
//!
//! All prices and money amounts are fixed-point integers scaled by
//! [`crate::numutil::SCALE`]; quantities are lots (one lot is 100 shares);
//! instants are seconds since the Unix epoch and calendar dates are whole
//! days since the epoch.

use vstd::prelude::*;
use vstd::pervasive::VecAdditionalExecFns;
use crate::numutil::{clamp_i128, clamp_u128, mul_u64, sat_add_i128, sat_add_u128, sat_mul_u128, sat_u128_to_i128};

verus! {

/// One bar of market data for one symbol at one instant.
#[derive(Clone, Copy, Debug)]
pub struct Bar {
    pub datetime: i64,
    pub open: u64,
    pub high: u64,
    pub low: u64,
    pub close: u64,
    pub volume: u64,
}

/// Side of an order or fill.
#[derive(Clone, Copy, Debug, PartialEq, Eq, Structural)]
pub enum OrderSide {
    Buy,
    Sell,
}

/// How an order's `quantity` field is to be read: a number of lots, an amount
/// of cash, or a target portfolio weight scaled by `SCALE`.
#[derive(Clone, Copy, Debug, PartialEq, Eq, Structural)]
pub enum QuantityType {
    Count,
    Cash,
    Weight,
}

/// An order queued by the strategy during one bar, to be matched at the next.
#[derive(Debug)]
pub struct Order {
    pub symbol: String,
    pub side: OrderSide,
    pub quantity_type: QuantityType,
    pub quantity: u64,
    pub timestamp: i64,
}

/// An executed trade.
#[derive(Debug)]
pub struct Fill {
    pub symbol: String,
    pub side: OrderSide,
    /// Quantity in lots.
    pub quantity: u64,
    pub price: u64,
    pub commission: u128,
    pub timestamp: i64,
}

impl Fill {
    /// An exact copy of this fill.
    pub fn duplicate(&self) -> (r: Fill)
        ensures
            r == *self,
    {
        Fill {
            symbol: self.symbol.clone(),
            side: self.side,
            quantity: self.quantity,
            price: self.price,
            commission: self.commission,
            timestamp: self.timestamp,
        }
    }
}

/// A held position in one symbol.
#[derive(Debug)]
pub struct Position {
    pub symbol: String,
    /// Total position in lots; always positive while the position is stored.
    pub quantity: u64,
    /// Average cost per share.
    pub avg_cost: u64,
    /// Last known market value; only read when no current price is available.
    pub market_value: u64,
}

/// One buy, remembered for the availability rule: quantities bought on a date
/// cannot be sold on that same date unless the symbol settles same-day.
#[derive(Clone, Copy, Debug)]
pub struct BuyRecord {
    /// Calendar date of the buy, as days since the epoch.
    pub date: i64,
    /// Quantity in lots.
    pub quantity: u64,
    pub price: u64,
}

/// One point of an equity or benchmark curve.
#[derive(Clone, Copy, Debug, PartialEq, Eq, Structural)]
pub struct EquityPoint {
    pub datetime: i64,
    /// Equity in money units, saturated into the `i64` range when recorded.
    pub equity: i64,
}

/// Summary performance statistics.  Ratios are fixed-point, scaled by
/// `SCALE`: `total_return`, `max_drawdown`, `sharpe_ratio` and `win_rate`
/// hold the ratio times one million; `profit_loss_ratio` is `None` when the
/// average loss is zero and the average profit positive (an unbounded ratio).
#[derive(Clone, Copy, Debug, PartialEq, Eq, Structural)]
pub struct PerformanceStats {
    pub total_return: i64,
    pub max_drawdown: i64,
    pub max_drawdown_start: Option<i64>,
    pub max_drawdown_end: Option<i64>,
    pub sharpe_ratio: i64,
    pub win_rate: i64,
    pub profit_loss_ratio: Option<i64>,
    pub open_count: usize,
    pub close_count: usize,
    pub benchmark_return: Option<i64>,
    pub benchmark_max_drawdown: Option<i64>,
    pub benchmark_max_drawdown_start: Option<i64>,
    pub benchmark_max_drawdown_end: Option<i64>,
}

/// Relies on `str`'s `PartialEq` implementation: two string slices are equal
/// exactly when their characters are.
#[verifier::external_body]
pub fn str_eq(a: &str, b: &str) -> (r: bool)
    ensures
        r == (a@ == b@),
{
    a == b
}

/// Whether some string in `v` has exactly the characters `s`.
pub open spec fn seq_contains_str(v: Seq<String>, s: Seq<char>) -> bool {
    exists|i: int| 0 <= i < v.len() && v[i]@ == s
}

/// Whether `v` holds a string with exactly the characters of `s`.
pub fn contains_str(v: &Vec<String>, s: &str) -> (r: bool)
    ensures
        r == seq_contains_str(v@, s@),
{
    let mut k: usize = 0;
    while k < v.len()
        invariant
            k <= v.len(),
            forall|i: int| 0 <= i < k ==> v@[i]@ != s@,
        decreases v.len() - k,
    {
        if str_eq(v[k].as_str(), s) {
            return true;
        }
        k += 1;
    }
    false
}

/// The whole portfolio: cash, positions, buy records for the availability
/// rule, the fills produced so far, and the set of same-day-settling symbols.
#[derive(Debug)]
pub struct PortfolioState {
    /// Account cash.  Signed: a sell whose commission exceeds its proceeds can
    /// push cash below zero, exactly as the matching rules dictate.
    pub cash: i128,
    pub positions: Vec<Position>,
    pub buy_records: Vec<(String, Vec<BuyRecord>)>,
    pub fills: Vec<Fill>,
    pub t0_symbols: Vec<String>,
}

/// Positions are well formed: one entry per symbol, all quantities positive.
pub open spec fn positions_wf(ps: Seq<Position>) -> bool {
    &&& forall|i: int, j: int|
        0 <= i < j < ps.len() ==> (#[trigger] ps[i]).symbol@ != (#[trigger] ps[j]).symbol@
    &&& forall|i: int| 0 <= i < ps.len() ==> (#[trigger] ps[i]).quantity > 0
}

/// Buy-record lists are keyed by symbol, one entry per symbol.
pub open spec fn records_wf(rs: Seq<(String, Vec<BuyRecord>)>) -> bool {
    forall|i: int, j: int|
        0 <= i < j < rs.len() ==> (#[trigger] rs[i]).0@ != (#[trigger] rs[j]).0@
}

/// Whether a position for `sym` is stored.
pub open spec fn has_position(ps: Seq<Position>, sym: Seq<char>) -> bool {
    exists|i: int| 0 <= i < ps.len() && (#[trigger] ps[i]).symbol@ == sym
}

/// Index of the position for `sym`; meaningful only when `has_position`.
pub open spec fn position_index(ps: Seq<Position>, sym: Seq<char>) -> int {
    choose|i: int| 0 <= i < ps.len() && (#[trigger] ps[i]).symbol@ == sym
}

/// Quantity held in `sym`, in lots; zero when no position is stored.
pub open spec fn position_quantity(ps: Seq<Position>, sym: Seq<char>) -> int {
    if has_position(ps, sym) {
        ps[position_index(ps, sym)].quantity as int
    } else {
        0
    }
}

/// The stored position for `sym`; meaningful only when `has_position`.
pub open spec fn position_entry(ps: Seq<Position>, sym: Seq<char>) -> Position {
    ps[position_index(ps, sym)]
}

/// Whether a buy-record list for `sym` is stored.
pub open spec fn has_records(rs: Seq<(String, Vec<BuyRecord>)>, sym: Seq<char>) -> bool {
    exists|i: int| 0 <= i < rs.len() && (#[trigger] rs[i]).0@ == sym
}

/// Index of the buy-record list for `sym`; meaningful only when `has_records`.
pub open spec fn records_index(rs: Seq<(String, Vec<BuyRecord>)>, sym: Seq<char>) -> int {
    choose|i: int| 0 <= i < rs.len() && (#[trigger] rs[i]).0@ == sym
}

/// Total quantity in the records that carry date `d`.
pub open spec fn bought_on(rs: Seq<BuyRecord>, d: i64) -> int
    decreases rs.len(),
{
    if rs.len() == 0 {
        0
    } else {
        bought_on(rs.drop_last(), d) + if rs.last().date == d {
            rs.last().quantity as int
        } else {
            0int
        }
    }
}

/// Quantity of `sym` bought on date `d` according to the stored records.
pub open spec fn recorded_today(p: PortfolioState, sym: Seq<char>, d: i64) -> int {
    if has_records(p.buy_records@, sym) {
        bought_on(p.buy_records@[records_index(p.buy_records@, sym)].1@, d)
    } else {
        0
    }
}

/// The sellable quantity of `sym` on date `d`: the full position for
/// same-day-settling symbols, otherwise the position minus the quantity
/// bought on `d`, clamped to zero.
pub open spec fn spec_available(p: PortfolioState, sym: Seq<char>, d: i64) -> int {
    if !has_position(p.positions@, sym) {
        0
    } else {
        let qty = position_quantity(p.positions@, sym);
        if seq_contains_str(p.t0_symbols@, sym) {
            qty
        } else {
            let blocked = recorded_today(p, sym, d);
            if qty - blocked > 0 {
                qty - blocked
            } else {
                0
            }
        }
    }
}

/// Price lists are keyed by symbol, one entry per symbol.
pub open spec fn prices_wf(prices: Seq<(String, u64)>) -> bool {
    forall|i: int, j: int|
        0 <= i < j < prices.len() ==> (#[trigger] prices[i]).0@ != (#[trigger] prices[j]).0@
}

/// Market value of the stored positions given per-symbol prices, each term and
/// the running total clamped into range: `quantity * price * 100` for a priced
/// symbol, the last known market value otherwise.
pub open spec fn positions_value_sat(ps: Seq<Position>, prices: Seq<(String, u64)>) -> int
    decreases ps.len(),
{
    if ps.len() == 0 {
        0
    } else {
        let p = ps.last();
        let term = if exists|k: int| 0 <= k < prices.len() && (#[trigger] prices[k]).0@ == p.symbol@ {
            let k = choose|k: int| 0 <= k < prices.len() && (#[trigger] prices[k]).0@ == p.symbol@;
            clamp_u128(p.quantity * prices[k].1 * 100)
        } else {
            p.market_value as int
        };
        clamp_u128(positions_value_sat(ps.drop_last(), prices) + term)
    }
}

/// Total equity: cash plus the market value of the positions, clamped into
/// the `i128` range.
pub open spec fn spec_equity(p: PortfolioState, prices: Seq<(String, u64)>) -> int {
    clamp_i128(p.cash + clamp_i128(positions_value_sat(p.positions@, prices)))
}

impl PortfolioState {
    /// Everything the other operations rely on about a stored portfolio.
    pub open spec fn wf(self) -> bool {
        &&& positions_wf(self.positions@)
        &&& records_wf(self.buy_records@)
    }

    /// A fresh portfolio holding only cash.
    pub fn new(initial_cash: u64, t0_symbols: Vec<String>) -> (r: PortfolioState)
        ensures
            r.wf(),
            r.cash == initial_cash as int,
            r.positions@.len() == 0,
            r.buy_records@.len() == 0,
            r.fills@.len() == 0,
            r.t0_symbols == t0_symbols,
    {
        PortfolioState {
            cash: initial_cash as i128,
            positions: Vec::new(),
            buy_records: Vec::new(),
            fills: Vec::new(),
            t0_symbols,
        }
    }

    /// Index of the stored position for `symbol`, if any.
    pub fn find_position(&self, symbol: &str) -> (r: Option<usize>)
        ensures
            match r {
                Some(i) => i < self.positions@.len() && self.positions@[i as int].symbol@
                    == symbol@,
                None => !has_position(self.positions@, symbol@),
            },
    {
        let mut k: usize = 0;
        while k < self.positions.len()
            invariant
                k <= self.positions@.len(),
                forall|i: int| 0 <= i < k ==> (#[trigger] self.positions@[i]).symbol@ != symbol@,
            decreases self.positions@.len() - k,
        {
            if str_eq(self.positions[k].symbol.as_str(), symbol) {
                return Some(k);
            }
            k += 1;
        }
        None
    }

    /// Index of the stored buy-record list for `symbol`, if any.
    fn find_records(&self, symbol: &str) -> (r: Option<usize>)
        ensures
            match r {
                Some(i) => i < self.buy_records@.len() && self.buy_records@[i as int].0@
                    == symbol@,
                None => !has_records(self.buy_records@, symbol@),
            },
    {
        let mut k: usize = 0;
        while k < self.buy_records.len()
            invariant
                k <= self.buy_records@.len(),
                forall|i: int| 0 <= i < k ==> (#[trigger] self.buy_records@[i]).0@ != symbol@,
            decreases self.buy_records@.len() - k,
        {
            if str_eq(self.buy_records[k].0.as_str(), symbol) {
                return Some(k);
            }
            k += 1;
        }
        None
    }

    /// Sellable quantity of `symbol` on `current_date`, in lots.
    pub fn get_available(&self, symbol: &str, current_date: i64) -> (r: u64)
        requires
            self.wf(),
        ensures
            r == spec_available(*self, symbol@, current_date),
    {
        let pos_i = match self.find_position(symbol) {
            Some(i) => i,
            None => {
                return 0;
            },
        };
        let quantity = self.positions[pos_i].quantity;
        proof {
            assert(has_position(self.positions@, symbol@));
            let j = position_index(self.positions@, symbol@);
            assert(self.positions@[j].symbol@ == symbol@);
            assert(j == pos_i as int);
            assert(position_quantity(self.positions@, symbol@) == quantity as int);
        }
        if contains_str(&self.t0_symbols, symbol) {
            return quantity;
        }
        let blocked: u128 = match self.find_records(symbol) {
            Some(ri) => {
                proof {
                    let j = records_index(self.buy_records@, symbol@);
                    assert(self.buy_records@[j].0@ == symbol@);
                    assert(j == ri as int);
                }
                let records = &self.buy_records[ri].1;
                let mut sum: u128 = 0;
                let mut k: usize = 0;
                while k < records.len()
                    invariant
                        k <= records@.len(),
                        sum == bought_on(records@.take(k as int), current_date),
                        sum <= (k as int) * (u64::MAX as int),
                    decreases records@.len() - k,
                {
                    proof {
                        assert(records@.take(k as int + 1).drop_last() =~= records@.take(k as int));
                        assert(records@.take(k as int + 1).last() == records@[k as int]);
                        assert((k as int) * (u64::MAX as int) + (u64::MAX as int)
                            == (k as int + 1) * (u64::MAX as int)) by (nonlinear_arith);
                        assert((k as int + 1) * (u64::MAX as int)
                            <= (u64::MAX as int) * (u64::MAX as int)) by (nonlinear_arith)
                            requires k as int + 1 <= u64::MAX as int;
                        assert((u64::MAX as int) * (u64::MAX as int) < u128::MAX as int)
                            by (nonlinear_arith);
                    }
                    if records[k].date == current_date {
                        sum = sum + records[k].quantity as u128;
                    }
                    k += 1;
                }
                proof {
                    assert(records@.take(records@.len() as int) =~= records@);
                }
                sum
            },
            None => 0,
        };
        if blocked >= quantity as u128 {
            0
        } else {
            quantity - (blocked as u64)
        }
    }

    /// Total equity given current prices (one entry per symbol): cash plus
    /// position market value, computed with saturating fixed-point steps.
    pub fn calculate_equity(&self, current_prices: &Vec<(String, u64)>) -> (r: i128)
        requires
            prices_wf(current_prices@),
        ensures
            r == spec_equity(*self, current_prices@),
    {
        let mut value: u128 = 0;
        let mut k: usize = 0;
        while k < self.positions.len()
            invariant
                k <= self.positions@.len(),
                prices_wf(current_prices@),
                value == positions_value_sat(self.positions@.take(k as int), current_prices@),
            decreases self.positions@.len() - k,
        {
            let p = &self.positions[k];
            let mut term: u128 = p.market_value as u128;
            let mut found = false;
            let mut j: usize = 0;
            while j < current_prices.len()
                invariant
                    j <= current_prices@.len(),
                    prices_wf(current_prices@),
                    !found ==> forall|i: int|
                        0 <= i < j ==> (#[trigger] current_prices@[i]).0@ != p.symbol@,
                    found ==> (exists|i: int|
                        0 <= i < current_prices@.len() && (#[trigger] current_prices@[i]).0@
                            == p.symbol@) && term == clamp_u128(
                        p.quantity * current_prices@[choose|i: int|
                            0 <= i < current_prices@.len() && (#[trigger] current_prices@[i]).0@
                                == p.symbol@].1 * 100),
                    !found ==> term == p.market_value as u128,
                decreases current_prices@.len() - j,
            {
                if !found && str_eq(current_prices[j].0.as_str(), p.symbol.as_str()) {
                    let lots_price: u128 = mul_u64(p.quantity, current_prices[j].1);
                    term = sat_mul_u128(lots_price, 100);
                    found = true;
                    proof {
                        assert(current_prices@[j as int].0@ == p.symbol@);
                        let wit = choose|i: int|
                            0 <= i < current_prices@.len() && (#[trigger] current_prices@[i]).0@
                                == p.symbol@;
                        assert(0 <= wit < current_prices@.len() && current_prices@[wit].0@
                            == p.symbol@);
                        assert(wit == j as int);
                    }
                }
                j += 1;
            }
            proof {
                assert(self.positions@.take(k as int + 1).drop_last() =~= self.positions@.take(
                    k as int));
                assert(self.positions@.take(k as int + 1).last() == self.positions@[k as int]);
            }
            value = sat_add_u128(value, term);
            k += 1;
        }
        proof {
            assert(self.positions@.take(self.positions@.len() as int) =~= self.positions@);
        }
        sat_add_i128(self.cash, sat_u128_to_i128(value))
    }
}

/// Average cost per share after buying `q` lots at price `p` on top of `q0`
/// lots carried at `avg0`: the share-weighted mean, clamped into range.
pub open spec fn next_avg_cost(q0: int, avg0: int, q: int, p: int) -> int {
    let basis = clamp_u128(q0 * avg0 + q * p);
    let a = basis / (q0 + q);
    if a > u64::MAX {
        u64::MAX as int
    } else {
        a
    }
}

impl PortfolioState {
    /// Remember one buy of `symbol` for the availability rule.
    fn append_record(&mut self, symbol: &str, rec: BuyRecord)
        requires
            old(self).wf(),
        ensures
            final(self).wf(),
            final(self).cash == old(self).cash,
            final(self).positions == old(self).positions,
            final(self).fills == old(self).fills,
            final(self).t0_symbols == old(self).t0_symbols,
            forall|s: Seq<char>, d: i64|
                #[trigger] recorded_today(*final(self), s, d) == recorded_today(*old(self), s, d)
                    + if s == symbol@ && d == rec.date {
                    rec.quantity as int
                } else {
                    0int
                },
            if has_records(old(self).buy_records@, symbol@) {
                let ri = records_index(old(self).buy_records@, symbol@);
                final(self).buy_records@.len() == old(self).buy_records@.len() && (forall|k: int|
                    0 <= k < old(self).buy_records@.len() && k != ri ==> #[trigger] final(
                        self).buy_records@[k] == old(self).buy_records@[k]) && final(
                    self).buy_records@[ri].0 == old(self).buy_records@[ri].0 && final(
                    self).buy_records@[ri].1@ == old(self).buy_records@[ri].1@.push(rec)
            } else {
                final(self).buy_records@.len() == old(self).buy_records@.len() + 1 && (forall|
                    k: int|
                    0 <= k < old(self).buy_records@.len() ==> #[trigger] final(
                        self).buy_records@[k] == old(self).buy_records@[k]) && final(
                    self).buy_records@.last().0@ == symbol@ && final(
                    self).buy_records@.last().1@ == seq![rec]
            },
    {
        match self.find_records(symbol) {
            Some(ri) => {
                proof {
                    let j = records_index(self.buy_records@, symbol@);
                    assert(self.buy_records@[j].0@ == symbol@);
                    assert(j == ri as int);
                }
                let mut tmp: (String, Vec<BuyRecord>) = (String::new(), Vec::new());
                self.buy_records.set_and_swap(ri, &mut tmp);
                tmp.1.push(rec);
                self.buy_records.set_and_swap(ri, &mut tmp);
                proof {
                    let rs_new = self.buy_records@;
                    let rs_old = old(self).buy_records@;
                    assert(rs_new.len() == rs_old.len());
                    assert(forall|k: int|
                        0 <= k < rs_new.len() && k != ri as int ==> rs_new[k] == rs_old[k]);
                    assert(rs_new[ri as int].0 == rs_old[ri as int].0);
                    assert(rs_new[ri as int].1@ =~= rs_old[ri as int].1@.push(rec));
                    assert forall|a: int, b: int|
                        0 <= a < b < rs_new.len() implies (#[trigger] rs_new[a]).0@ != (
                        #[trigger] rs_new[b]).0@ by {
                        assert(rs_old[a].0@ != rs_old[b].0@);
                    }
                    assert forall|s: Seq<char>, d: i64|
                        #[trigger] recorded_today(*self, s, d) == recorded_today(*old(self), s, d)
                            + if s == symbol@ && d == rec.date {
                            rec.quantity as int
                        } else {
                            0int
                        } by {
                        lemma_bought_on_push(rs_old[ri as int].1@, rec, d);
                        if has_records(rs_old, s) {
                            let k = records_index(rs_old, s);
                            assert(rs_old[k].0@ == s);
                            assert(rs_new[k].0@ == s);
                            assert(has_records(rs_new, s));
                            let k2 = records_index(rs_new, s);
                            assert(rs_new[k2].0@ == s);
                            assert(rs_old[k2].0@ == s);
                            assert(k2 == k);
                            if k == ri as int {
                                assert(s == symbol@);
                            } else {
                                assert(rs_new[k].1 == rs_old[k].1);
                                assert(s != symbol@) by {
                                    if s == symbol@ {
                                        assert(rs_old[ri as int].0@ == s);
                                    }
                                }
                            }
                        } else {
                            assert(!has_records(rs_new, s)) by {
                                if has_records(rs_new, s) {
                                    let k2 = records_index(rs_new, s);
                                    assert(rs_new[k2].0@ == s);
                                    assert(rs_old[k2].0@ == s);
                                }
                            }
                            assert(s != symbol@) by {
                                if s == symbol@ {
                                    assert(rs_old[ri as int].0@ == symbol@);
                                }
                            }
                        }
                    }
                }
            },
            None => {
                let sym = symbol.to_owned();
                let mut list: Vec<BuyRecord> = Vec::new();
                list.push(rec);
                self.buy_records.push((sym, list));
                proof {
                    let rs_new = self.buy_records@;
                    let rs_old = old(self).buy_records@;
                    let n = rs_old.len() as int;
                    assert(rs_new.len() == n + 1);
                    assert(forall|k: int| 0 <= k < n ==> rs_new[k] == rs_old[k]);
                    assert(rs_new[n].0@ == symbol@);
                    assert(rs_new[n].1@ =~= Seq::<BuyRecord>::empty().push(rec));
                    assert forall|a: int, b: int|
                        0 <= a < b < rs_new.len() implies (#[trigger] rs_new[a]).0@ != (
                        #[trigger] rs_new[b]).0@ by {
                        if b < n {
                            assert(rs_old[a].0@ != rs_old[b].0@);
                        } else {
                            assert(rs_new[b].0@ == symbol@);
                            if rs_new[a].0@ == symbol@ {
                                assert(rs_old[a].0@ == symbol@);
                                assert(has_records(rs_old, symbol@));
                            }
                        }
                    }
                    assert forall|s: Seq<char>, d: i64|
                        #[trigger] recorded_today(*self, s, d) == recorded_today(*old(self), s, d)
                            + if s == symbol@ && d == rec.date {
                            rec.quantity as int
                        } else {
                            0int
                        } by {
                        lemma_bought_on_push(Seq::<BuyRecord>::empty(), rec, d);
                        if s == symbol@ {
                            assert(!has_records(rs_old, s));
                            assert(has_records(rs_new, s));
                            let k2 = records_index(rs_new, s);
                            assert(rs_new[k2].0@ == s);
                            assert(k2 == n) by {
                                if k2 != n {
                                    assert(rs_old[k2].0@ == s);
                                }
                            }
                            assert(bought_on(rs_new[n].1@, d) == if d == rec.date {
                                rec.quantity as int
                            } else {
                                0int
                            });
                        } else {
                            if has_records(rs_old, s) {
                                let k = records_index(rs_old, s);
                                assert(rs_old[k].0@ == s);
                                assert(rs_new[k].0@ == s);
                                assert(has_records(rs_new, s));
                                let k2 = records_index(rs_new, s);
                                assert(rs_new[k2].0@ == s);
                                assert(k2 == k) by {
                                    if k2 != k {
                                        if k2 < n {
                                            assert(rs_old[k2].0@ == s);
                                        } else {
                                            assert(rs_new[k2].0@ == symbol@);
                                        }
                                    }
                                }
                                assert(rs_new[k].1 == rs_old[k].1);
                            } else {
                                assert(!has_records(rs_new, s)) by {
                                    if has_records(rs_new, s) {
                                        let k2 = records_index(rs_new, s);
                                        assert(rs_new[k2].0@ == s);
                                        if k2 < n {
                                            assert(rs_old[k2].0@ == s);
                                        } else {
                                            assert(rs_new[k2].0@ == symbol@);
                                        }
                                    }
                                }
                            }
                        }
                    }
                }
            },
        }
    }

    /// Record a buy: raise the position (creating it if needed), re-average
    /// its cost, and, unless the symbol settles same-day, remember the buy for
    /// the availability rule.
    pub fn add_position(&mut self, symbol: &str, quantity: u64, price: u64, trade_date: i64)
        requires
            old(self).wf(),
            quantity > 0,
            position_quantity(old(self).positions@, symbol@) + quantity <= u64::MAX,
        ensures
            final(self).wf(),
            final(self).cash == old(self).cash,
            final(self).fills == old(self).fills,
            final(self).t0_symbols == old(self).t0_symbols,
            has_position(final(self).positions@, symbol@),
            position_quantity(final(self).positions@, symbol@) == position_quantity(
                old(self).positions@, symbol@) + quantity,
            forall|s: Seq<char>|
                s != symbol@ ==> #[trigger] position_quantity(final(self).positions@, s)
                    == position_quantity(old(self).positions@, s),
            forall|s: Seq<char>|
                s != symbol@ ==> #[trigger] has_position(final(self).positions@, s)
                    == has_position(old(self).positions@, s),
            forall|s: Seq<char>|
                s != symbol@ && has_position(old(self).positions@, s) ==> #[trigger] position_entry(
                    final(self).positions@, s) == position_entry(old(self).positions@, s),
            position_entry(final(self).positions@, symbol@).avg_cost == ({
                let q0 = position_quantity(old(self).positions@, symbol@);
                let avg0 = if has_position(old(self).positions@, symbol@) {
                    position_entry(old(self).positions@, symbol@).avg_cost as int
                } else {
                    0
                };
                next_avg_cost(q0, avg0, quantity as int, price as int)
            }),
            position_entry(final(self).positions@, symbol@).market_value == (
            if has_position(old(self).positions@, symbol@) {
                position_entry(old(self).positions@, symbol@).market_value as int
            } else {
                0
            }),
            position_entry(final(self).positions@, symbol@).symbol@ == symbol@,
            final(self).positions@ == if has_position(old(self).positions@, symbol@) {
                old(self).positions@.update(
                    position_index(old(self).positions@, symbol@),
                    position_entry(final(self).positions@, symbol@),
                )
            } else {
                old(self).positions@.push(position_entry(final(self).positions@, symbol@))
            },
            forall|s: Seq<char>, d: i64|
                #[trigger] recorded_today(*final(self), s, d) == recorded_today(*old(self), s, d)
                    + if s == symbol@ && d == trade_date && !seq_contains_str(
                    old(self).t0_symbols@, symbol@) {
                    quantity as int
                } else {
                    0int
                },
            seq_contains_str(old(self).t0_symbols@, symbol@) ==> final(self).buy_records == old(
                self).buy_records,
            !seq_contains_str(old(self).t0_symbols@, symbol@) ==> ({
                let rec = (BuyRecord { date: trade_date, quantity, price });
                if has_records(old(self).buy_records@, symbol@) {
                    let ri = records_index(old(self).buy_records@, symbol@);
                    final(self).buy_records@.len() == old(self).buy_records@.len() && (forall|
                        k: int|
                        0 <= k < old(self).buy_records@.len() && k != ri ==> #[trigger] final(
                            self).buy_records@[k] == old(self).buy_records@[k]) && final(
                        self).buy_records@[ri].0 == old(self).buy_records@[ri].0 && final(
                        self).buy_records@[ri].1@ == old(self).buy_records@[ri].1@.push(rec)
                } else {
                    final(self).buy_records@.len() == old(self).buy_records@.len() + 1 && (forall|
                        k: int|
                        0 <= k < old(self).buy_records@.len() ==> #[trigger] final(
                            self).buy_records@[k] == old(self).buy_records@[k]) && final(
                        self).buy_records@.last().0@ == symbol@ && final(
                        self).buy_records@.last().1@ == seq![rec]
                }
            }),
    {
        let rec = BuyRecord { date: trade_date, quantity, price };
        match self.find_position(symbol) {
            Some(i) => {
                proof {
                    let j = position_index(self.positions@, symbol@);
                    assert(self.positions@[j].symbol@ == symbol@);
                    assert(j == i as int);
                }
                let mut tmp = Position {
                    symbol: String::new(),
                    quantity: 1,
                    avg_cost: 0,
                    market_value: 0,
                };
                self.positions.set_and_swap(i, &mut tmp);
                let q0 = tmp.quantity;
                let basis = sat_add_u128(mul_u64(q0, tmp.avg_cost), mul_u64(quantity, price));
                let new_q = q0 + quantity;
                let avg_wide: u128 = basis / (new_q as u128);
                tmp.quantity = new_q;
                tmp.avg_cost = if avg_wide > u64::MAX as u128 {
                    u64::MAX
                } else {
                    avg_wide as u64
                };
                self.positions.set_and_swap(i, &mut tmp);
                proof {
                    let ps_new = self.positions@;
                    let ps_old = old(self).positions@;
                    assert(ps_new[i as int].symbol == ps_old[i as int].symbol);
                    assert forall|a: int, b: int|
                        0 <= a < b < ps_new.len() implies (#[trigger] ps_new[a]).symbol@ != (
                        #[trigger] ps_new[b]).symbol@ by {
                        assert(ps_old[a].symbol@ != ps_old[b].symbol@);
                    }
                    assert(ps_new[i as int].symbol@ == symbol@);
                    assert(has_position(ps_new, symbol@));
                    let j2 = position_index(ps_new, symbol@);
                    assert(ps_new[j2].symbol@ == symbol@);
                    assert(j2 == i as int);
                    assert forall|s: Seq<char>|
                        #![trigger position_quantity(ps_new, s)]
                        #![trigger has_position(ps_new, s)]
                        #![trigger position_entry(ps_new, s)]
                        s != symbol@ implies position_quantity(ps_new, s)
                            == position_quantity(ps_old, s) && has_position(ps_new, s)
                            == has_position(ps_old, s) && (has_position(ps_old, s)
                            ==> position_entry(ps_new, s) == position_entry(ps_old, s)) by {
                        lemma_position_entry_same(ps_old, ps_new, s);
                    }
                }
            },
            None => {
                let sym = symbol.to_owned();
                let basis = mul_u64(quantity, price);
                let avg_wide: u128 = basis / (quantity as u128);
                let avg = if avg_wide > u64::MAX as u128 {
                    u64::MAX
                } else {
                    avg_wide as u64
                };
                self.positions.push(
                    Position { symbol: sym, quantity, avg_cost: avg, market_value: 0 },
                );
                proof {
                    let ps_new = self.positions@;
                    let ps_old = old(self).positions@;
                    let n = ps_old.len() as int;
                    assert(ps_new[n].symbol@ == symbol@);
                    assert forall|a: int, b: int|
                        0 <= a < b < ps_new.len() implies (#[trigger] ps_new[a]).symbol@ != (
                        #[trigger] ps_new[b]).symbol@ by {
                        if b < n {
                            assert(ps_old[a].symbol@ != ps_old[b].symbol@);
                        } else {
                            if ps_new[a].symbol@ == symbol@ {
                                assert(ps_old[a].symbol@ == symbol@);
                                assert(has_position(ps_old, symbol@));
                            }
                        }
                    }
                    assert(has_position(ps_new, symbol@));
                    let j2 = position_index(ps_new, symbol@);
                    assert(ps_new[j2].symbol@ == symbol@);
                    assert(j2 == n) by {
                        if j2 != n {
                            assert(ps_old[j2].symbol@ == symbol@);
                            assert(has_position(ps_old, symbol@));
                        }
                    }
                    assert forall|s: Seq<char>|
                        #![trigger position_quantity(ps_new, s)]
                        #![trigger has_position(ps_new, s)]
                        #![trigger position_entry(ps_new, s)]
                        s != symbol@ implies position_quantity(ps_new, s)
                            == position_quantity(ps_old, s) && has_position(ps_new, s)
                            == has_position(ps_old, s) && (has_position(ps_old, s)
                            ==> position_entry(ps_new, s) == position_entry(ps_old, s)) by {
                        if has_position(ps_old, s) {
                            let k = position_index(ps_old, s);
                            assert(ps_old[k].symbol@ == s);
                            assert(ps_new[k].symbol@ == s);
                            assert(has_position(ps_new, s));
                            let k2 = position_index(ps_new, s);
                            assert(ps_new[k2].symbol@ == s);
                            assert(k2 == k) by {
                                if k2 != k {
                                    if k2 < n {
                                        assert(ps_old[k2].symbol@ == s);
                                    } else {
                                        assert(ps_new[k2].symbol@ == symbol@);
                                    }
                                }
                            }
                            assert(ps_new[k2] == ps_old[k]);
                        } else {
                            assert(!has_position(ps_new, s)) by {
                                if has_position(ps_new, s) {
                                    let k2 = position_index(ps_new, s);
                                    assert(ps_new[k2].symbol@ == s);
                                    if k2 < n {
                                        assert(ps_old[k2].symbol@ == s);
                                    } else {
                                        assert(ps_new[k2].symbol@ == symbol@);
                                    }
                                }
                            }
                        }
                    }
                }
            },
        }
        if !contains_str(&self.t0_symbols, symbol) {
            self.append_record(symbol, rec);
        }
    }
}

impl PortfolioState {
    /// Record a sell: lower the position for `symbol` by `quantity` lots and
    /// hand back the released cash, `quantity * price * 100`.  A sell of more
    /// than the stored position releases nothing and changes nothing; a sell
    /// of the whole position removes it.
    pub fn reduce_position(&mut self, symbol: &str, quantity: u64, price: u64) -> (released: u128)
        requires
            old(self).wf(),
        ensures
            final(self).wf(),
            final(self).cash == old(self).cash,
            final(self).fills == old(self).fills,
            final(self).t0_symbols == old(self).t0_symbols,
            final(self).buy_records == old(self).buy_records,
            if !has_position(old(self).positions@, symbol@) || quantity > position_quantity(
                old(self).positions@, symbol@) {
                released == 0 && final(self).positions == old(self).positions
            } else {
                released == clamp_u128(quantity * price * 100) && position_quantity(
                    final(self).positions@, symbol@) == position_quantity(
                    old(self).positions@, symbol@) - quantity && final(self).positions@ == (
                if quantity == position_quantity(old(self).positions@, symbol@) {
                    old(self).positions@.remove(position_index(old(self).positions@, symbol@))
                } else {
                    old(self).positions@.update(
                        position_index(old(self).positions@, symbol@),
                        position_entry(final(self).positions@, symbol@),
                    )
                }) && (
                quantity == position_quantity(old(self).positions@, symbol@) ==> !has_position(
                    final(self).positions@, symbol@)) && (quantity < position_quantity(
                    old(self).positions@, symbol@) ==> has_position(
                    final(self).positions@, symbol@) && position_entry(
                    final(self).positions@, symbol@).avg_cost == position_entry(
                    old(self).positions@, symbol@).avg_cost && position_entry(
                    final(self).positions@, symbol@).market_value == position_entry(
                    old(self).positions@, symbol@).market_value && position_entry(
                    final(self).positions@, symbol@).symbol == position_entry(
                    old(self).positions@, symbol@).symbol)
            },
            forall|s: Seq<char>|
                s != symbol@ ==> #[trigger] position_quantity(final(self).positions@, s)
                    == position_quantity(old(self).positions@, s),
            forall|s: Seq<char>|
                s != symbol@ ==> #[trigger] has_position(final(self).positions@, s)
                    == has_position(old(self).positions@, s),
            forall|s: Seq<char>|
                s != symbol@ && has_position(old(self).positions@, s) ==> #[trigger] position_entry(
                    final(self).positions@, s) == position_entry(old(self).positions@, s),
    {
        let i = match self.find_position(symbol) {
            Some(i) => i,
            None => {
                return 0;
            },
        };
        proof {
            let j = position_index(self.positions@, symbol@);
            assert(self.positions@[j].symbol@ == symbol@);
            assert(j == i as int);
        }
        let q0 = self.positions[i].quantity;
        if quantity > q0 {
            return 0;
        }
        if quantity == q0 {
            self.positions.remove(i);
            proof {
                let ps_new = self.positions@;
                let ps_old = old(self).positions@;
                let n = ps_old.len() as int;
                assert(forall|k: int| 0 <= k < i as int ==> ps_new[k] == ps_old[k]);
                assert(forall|k: int| i as int <= k < n - 1 ==> ps_new[k] == ps_old[k + 1]);
                assert forall|a: int, b: int|
                    0 <= a < b < ps_new.len() implies (#[trigger] ps_new[a]).symbol@ != (
                    #[trigger] ps_new[b]).symbol@ by {
                    let a0 = if a < i as int { a } else { a + 1 };
                    let b0 = if b < i as int { b } else { b + 1 };
                    assert(ps_new[a] == ps_old[a0]);
                    assert(ps_new[b] == ps_old[b0]);
                    assert(ps_old[a0].symbol@ != ps_old[b0].symbol@);
                }
                assert(!has_position(ps_new, symbol@)) by {
                    if has_position(ps_new, symbol@) {
                        let k2 = position_index(ps_new, symbol@);
                        assert(ps_new[k2].symbol@ == symbol@);
                        let k0 = if k2 < i as int { k2 } else { k2 + 1 };
                        assert(ps_old[k0].symbol@ == symbol@);
                        assert(ps_old[i as int].symbol@ == symbol@);
                    }
                }
                assert forall|s: Seq<char>|
                    #![trigger position_quantity(ps_new, s)]
                    #![trigger has_position(ps_new, s)]
                    #![trigger position_entry(ps_new, s)]
                    s != symbol@ implies position_quantity(ps_new, s)
                        == position_quantity(ps_old, s) && has_position(ps_new, s)
                        == has_position(ps_old, s) && (has_position(ps_old, s)
                        ==> position_entry(ps_new, s) == position_entry(ps_old, s)) by {
                    if has_position(ps_old, s) {
                        let k = position_index(ps_old, s);
                        assert(ps_old[k].symbol@ == s);
                        assert(k != i as int);
                        let kn = if k < i as int { k } else { k - 1 };
                        assert(ps_new[kn] == ps_old[k]);
                        assert(has_position(ps_new, s));
                        let k2 = position_index(ps_new, s);
                        assert(ps_new[k2].symbol@ == s);
                        let k0 = if k2 < i as int { k2 } else { k2 + 1 };
                        assert(ps_old[k0].symbol@ == s);
                        assert(k0 == k);
                        assert(ps_new[k2] == ps_old[k]);
                    } else {
                        assert(!has_position(ps_new, s)) by {
                            if has_position(ps_new, s) {
                                let k2 = position_index(ps_new, s);
                                assert(ps_new[k2].symbol@ == s);
                                let k0 = if k2 < i as int { k2 } else { k2 + 1 };
                                assert(ps_old[k0].symbol@ == s);
                            }
                        }
                    }
                }
            }
        } else {
            let mut tmp = Position {
                symbol: String::new(),
                quantity: 1,
                avg_cost: 0,
                market_value: 0,
            };
            self.positions.set_and_swap(i, &mut tmp);
            tmp.quantity = tmp.quantity - quantity;
            self.positions.set_and_swap(i, &mut tmp);
            proof {
                let ps_new = self.positions@;
                let ps_old = old(self).positions@;
                assert(ps_new[i as int].symbol == ps_old[i as int].symbol);
                assert forall|a: int, b: int|
                    0 <= a < b < ps_new.len() implies (#[trigger] ps_new[a]).symbol@ != (
                    #[trigger] ps_new[b]).symbol@ by {
                    assert(ps_old[a].symbol@ != ps_old[b].symbol@);
                }
                assert(ps_new[i as int].symbol@ == symbol@);
                assert(has_position(ps_new, symbol@));
                let j2 = position_index(ps_new, symbol@);
                assert(ps_new[j2].symbol@ == symbol@);
                assert(j2 == i as int);
                assert forall|s: Seq<char>|
                    #![trigger position_quantity(ps_new, s)]
                    #![trigger has_position(ps_new, s)]
                    #![trigger position_entry(ps_new, s)]
                    s != symbol@ implies position_quantity(ps_new, s)
                        == position_quantity(ps_old, s) && has_position(ps_new, s)
                        == has_position(ps_old, s) && (has_position(ps_old, s)
                        ==> position_entry(ps_new, s) == position_entry(ps_old, s)) by {
                    lemma_position_entry_same(ps_old, ps_new, s);
                }
            }
        }
        crate::numutil::sat_mul_u128(mul_u64(quantity, price), 100)
    }

    /// Discard every buy record not dated `current_date`: records of earlier
    /// dates no longer block sales, and same-date records keep blocking them.
    pub fn update_t1_availability(&mut self, current_date: i64)
        requires
            old(self).wf(),
        ensures
            final(self).wf(),
            final(self).cash == old(self).cash,
            final(self).positions == old(self).positions,
            final(self).fills == old(self).fills,
            final(self).t0_symbols == old(self).t0_symbols,
            forall|s: Seq<char>|
                #[trigger] recorded_today(*final(self), s, current_date) == recorded_today(
                    *old(self), s, current_date),
            forall|s: Seq<char>, d: i64|
                d != current_date ==> #[trigger] recorded_today(*final(self), s, d) == 0,
    {
        let n = self.buy_records.len();
        let mut out: Vec<(String, Vec<BuyRecord>)> = Vec::new();
        let mut k: usize = 0;
        while k < n
            invariant
                n == self.buy_records@.len(),
                k <= n,
                out@.len() == k,
                forall|a: int|
                    0 <= a < k ==> (#[trigger] out@[a]).0 == self.buy_records@[a].0
                        && out@[a].1@ == self.buy_records@[a].1@.filter(keep_date(current_date)),
            decreases n - k,
        {
            let key = self.buy_records[k].0.clone();
            let list = &self.buy_records[k].1;
            let mut kept: Vec<BuyRecord> = Vec::new();
            let mut j: usize = 0;
            while j < list.len()
                invariant
                    j <= list@.len(),
                    kept@ == list@.take(j as int).filter(keep_date(current_date)),
                decreases list@.len() - j,
            {
                proof {
                    assert(list@.take(j as int + 1).drop_last() =~= list@.take(j as int));
                    assert(list@.take(j as int + 1).last() == list@[j as int]);
                    reveal_with_fuel(Seq::filter, 2);
                }
                if list[j].date == current_date {
                    kept.push(list[j]);
                }
                j += 1;
            }
            proof {
                assert(list@.take(list@.len() as int) =~= list@);
            }
            out.push((key, kept));
            k += 1;
        }
        self.buy_records = out;
        proof {
            let rs_new = self.buy_records@;
            let rs_old = old(self).buy_records@;
            assert forall|a: int, b: int|
                0 <= a < b < rs_new.len() implies (#[trigger] rs_new[a]).0@ != (
                #[trigger] rs_new[b]).0@ by {
                assert(rs_old[a].0@ != rs_old[b].0@);
            }
            assert forall|s: Seq<char>, d: i64|
                #[trigger] recorded_today(*self, s, d) == if d == current_date {
                    recorded_today(*old(self), s, d)
                } else {
                    0int
                } by {
                assert forall|k2: int| 0 <= k2 < rs_new.len() implies (
                    #[trigger] rs_new[k2]).0@ == rs_old[k2].0@ by {
                    assert(rs_new[k2].0 == rs_old[k2].0);
                }
                if has_records(rs_old, s) {
                    let a = records_index(rs_old, s);
                    assert(rs_old[a].0@ == s);
                    assert(rs_new[a].0@ == s);
                    assert(has_records(rs_new, s));
                    let b = records_index(rs_new, s);
                    assert(rs_new[b].0@ == s);
                    assert(rs_old[b].0@ == s);
                    assert(b == a);
                    assert(rs_new[a].1@ == rs_old[a].1@.filter(keep_date(current_date)));
                    lemma_bought_on_filter(rs_old[a].1@, current_date, d);
                } else {
                    assert(!has_records(rs_new, s)) by {
                        if has_records(rs_new, s) {
                            let b = records_index(rs_new, s);
                            assert(rs_new[b].0@ == s);
                            assert(rs_old[b].0@ == s);
                        }
                    }
                }
            }
        }
    }
}

/// The filtering predicate of the availability sweep: keep records of `cd`.
pub open spec fn keep_date(cd: i64) -> spec_fn(BuyRecord) -> bool {
    |r: BuyRecord| r.date == cd
}

/// Filtering a record list to one date keeps that date's total and zeroes
/// every other date's.
pub proof fn lemma_bought_on_filter(rs: Seq<BuyRecord>, cd: i64, d: i64)
    ensures
        bought_on(rs.filter(keep_date(cd)), d) == if d == cd {
            bought_on(rs, d)
        } else {
            0int
        },
    decreases rs.len(),
{
    reveal_with_fuel(Seq::filter, 2);
    if rs.len() == 0 {
        assert(rs.filter(keep_date(cd)) =~= rs);
    } else {
        lemma_bought_on_filter(rs.drop_last(), cd, d);
        if keep_date(cd)(rs.last()) {
            assert(rs.filter(keep_date(cd)) == rs.drop_last().filter(keep_date(cd)).push(
                rs.last()));
            lemma_bought_on_push(rs.drop_last().filter(keep_date(cd)), rs.last(), d);
        } else {
            assert(rs.filter(keep_date(cd)) == rs.drop_last().filter(keep_date(cd)));
            assert(rs.last().date != cd);
        }
    }
}

/// When two position lists agree on which symbols they hold where, and agree
/// on the entries of symbol `s`, the stored position of `s` agrees too.
pub proof fn lemma_position_entry_same(ps_old: Seq<Position>, ps_new: Seq<Position>, s: Seq<char>)
    requires
        ps_old.len() == ps_new.len(),
        forall|k: int|
            0 <= k < ps_old.len() ==> (#[trigger] ps_new[k]).symbol@ == ps_old[k].symbol@
                && (ps_new[k].symbol@ == s ==> ps_new[k] == ps_old[k]),
        positions_wf(ps_old),
        positions_wf(ps_new),
    ensures
        has_position(ps_new, s) == has_position(ps_old, s),
        has_position(ps_old, s) ==> position_entry(ps_new, s) == position_entry(ps_old, s),
        position_quantity(ps_new, s) == position_quantity(ps_old, s),
{
    if has_position(ps_old, s) {
        let k = position_index(ps_old, s);
        assert(ps_old[k].symbol@ == s);
        assert(ps_new[k].symbol@ == s);
        assert(has_position(ps_new, s));
        let k2 = position_index(ps_new, s);
        assert(ps_new[k2].symbol@ == s);
        assert(ps_old[k2].symbol@ == s);
        assert(k2 == k);
    } else {
        assert(!has_position(ps_new, s)) by {
            if has_position(ps_new, s) {
                let k2 = position_index(ps_new, s);
                assert(ps_new[k2].symbol@ == s);
                assert(ps_old[k2].symbol@ == s);
            }
        }
    }
}

/// Appending a record adds its quantity to `bought_on` for its own date and
/// changes no other date's total.
pub proof fn lemma_bought_on_push(rs: Seq<BuyRecord>, rec: BuyRecord, d: i64)
    ensures
        bought_on(rs.push(rec), d) == bought_on(rs, d) + if rec.date == d {
            rec.quantity as int
        } else {
            0int
        },
{
    assert(rs.push(rec).drop_last() =~= rs);
    assert(rs.push(rec).last() == rec);
}

} // verus!
