//! Order matching: queued orders are executed against the current bars,
//! sells before buys, with slippage, commission and stamp tax, mutating the
//! portfolio and producing fills.

use vstd::prelude::*;
use crate::types::{
    BuyRecord, Fill, Order, OrderSide, PortfolioState, Position, QuantityType, bought_on, has_position,
    next_avg_cost, position_entry, position_index, position_quantity, recorded_today,
    spec_available, spec_equity, seq_contains_str,
};
use crate::types::Bar;
use crate::datafeed::lookup_bar;
use crate::numutil::{
    clamp_i128, clamp_u128, mul_u64, sat_add_u128, sat_mul_u128, sat_u128_to_i128,
};
use crate::timeparse::{day_of, spec_day_of};

verus! {

/// A keyed bar list with one entry per symbol, as `get_current_bars` returns.
pub open spec fn bars_wf(pairs: Seq<(String, Bar)>) -> bool {
    forall|a: int, b: int|
        0 <= a < b < pairs.len() ==> (#[trigger] pairs[a]).0@ != (#[trigger] pairs[b]).0@
}

/// The close prices of a keyed bar list, under the same keys.
pub open spec fn closes_of(pairs: Seq<(String, Bar)>) -> Seq<(String, u64)> {
    pairs.map_values(|p: (String, Bar)| (p.0, p.1.close))
}

/// The execution engine: the order queue and the cost model.
pub struct ExecutionEngine {
    /// Orders queued for the next bar.
    pub orders: Vec<Order>,
    /// Proportional commission, in parts per million of the trade amount.
    pub commission_rate: u64,
    /// Commission floor per trade.
    pub min_commission: u64,
    /// Adverse slippage, in basis points of the close price.
    pub slippage_bps: u64,
    /// Tax on sell notional, in parts per million.
    pub stamp_tax_rate: u64,
}

/// The execution price: the close, moved against the order by the slippage.
pub open spec fn spec_fill_price(side: OrderSide, close: u64, slippage_bps: u64) -> int {
    if side == OrderSide::Buy {
        clamp_u128(close * (10_000 + slippage_bps)) / 10_000
    } else if slippage_bps >= 10_000 {
        0
    } else {
        close * (10_000 - slippage_bps) / 10_000
    }
}

/// The trade amount of `lots` lots at `fill_price` per share.
pub open spec fn spec_trade_amount(lots: int, fill_price: int) -> int {
    clamp_u128(lots * fill_price * 100)
}

/// Commission on a trade: the proportional rate floored at the minimum, plus
/// stamp tax on sells.
pub open spec fn spec_commission(e: ExecutionEngine, amount: int, side: OrderSide) -> int {
    let proportional = clamp_u128(amount * e.commission_rate) / 1_000_000;
    let base = if proportional > e.min_commission {
        proportional
    } else {
        e.min_commission as int
    };
    if side == OrderSide::Sell {
        clamp_u128(base + clamp_u128(amount * e.stamp_tax_rate) / 1_000_000)
    } else {
        base
    }
}

/// The last known market value of the position in `sym`, zero without one.
pub open spec fn spec_market_value(p: PortfolioState, sym: Seq<char>) -> int {
    if has_position(p.positions@, sym) {
        p.positions@[position_index(p.positions@, sym)].market_value as int
    } else {
        0
    }
}

/// The order quantity in lots: counts are taken as given; cash amounts buy as
/// many whole lots as the fill price allows; weights target a fraction of
/// current equity, net of the position's last known market value.
pub open spec fn spec_lots(
    qt: QuantityType,
    quantity: u64,
    fill_price: int,
    equity: int,
    mv: int,
) -> int {
    match qt {
        QuantityType::Count => quantity as int,
        QuantityType::Cash => if fill_price <= 0 {
            0
        } else {
            quantity as int / (fill_price * 100)
        },
        QuantityType::Weight => if fill_price <= 0 {
            0
        } else {
            let target = clamp_i128(equity * quantity) / 1_000_000;
            let delta = target - mv;
            if delta <= 0 {
                0
            } else {
                delta / (fill_price * 100)
            }
        },
    }
}

/// The trade amount a fill denotes.
pub open spec fn spec_fill_amount(f: Fill) -> int {
    clamp_u128(f.quantity * f.price * 100)
}

/// Cash that a fill takes out of the account: a buy costs its amount plus
/// commission; a sell brings in its amount less commission.
pub open spec fn spec_fill_flow(f: Fill) -> int {
    if f.side == OrderSide::Buy {
        spec_fill_amount(f) + f.commission
    } else {
        -(spec_fill_amount(f) - f.commission)
    }
}

/// Total cash taken out of the account by a sequence of fills.
pub open spec fn sum_flows(fs: Seq<Fill>) -> int
    decreases fs.len(),
{
    if fs.len() == 0 {
        0
    } else {
        sum_flows(fs.drop_last()) + spec_fill_flow(fs.last())
    }
}

/// Adding a fill adds its flow.
pub proof fn lemma_sum_flows_push(fs: Seq<Fill>, f: Fill)
    ensures
        sum_flows(fs.push(f)) == sum_flows(fs) + spec_fill_flow(f),
{
    assert(fs.push(f).drop_last() =~= fs);
    assert(fs.push(f).last() == f);
}

/// The quantity bought on any date is never negative.
pub proof fn lemma_bought_on_nonneg(rs: Seq<crate::types::BuyRecord>, d: i64)
    ensures
        bought_on(rs, d) >= 0,
    decreases rs.len(),
{
    if rs.len() > 0 {
        lemma_bought_on_nonneg(rs.drop_last(), d);
    }
}

/// The sellable quantity never exceeds the stored position.
pub proof fn lemma_available_le_position(p: PortfolioState, sym: Seq<char>, d: i64)
    ensures
        0 <= spec_available(p, sym, d) <= position_quantity(p.positions@, sym),
        !has_position(p.positions@, sym) ==> spec_available(p, sym, d) == 0,
{
    if has_position(p.positions@, sym) {
        let i = position_index(p.positions@, sym);
        assert(position_quantity(p.positions@, sym) == p.positions@[i].quantity as int);
        if !seq_contains_str(p.t0_symbols@, sym) {
            if crate::types::has_records(p.buy_records@, sym) {
                lemma_bought_on_nonneg(
                    p.buy_records@[crate::types::records_index(p.buy_records@, sym)].1@, d);
            }
        }
    }
}

/// The fill one order produces against the current bars and portfolio, or
/// `None` when the order is skipped: no bar for its symbol, no positive whole
/// number of lots, a price or quantity out of range, not enough sellable
/// quantity, or not enough cash.
pub open spec fn spec_order_fill(
    e: ExecutionEngine,
    o: Order,
    bars: Seq<(String, Bar)>,
    p: PortfolioState,
) -> Option<Fill> {
    match lookup_bar(bars, o.symbol@) {
        None => None,
        Some(bar) => {
            let fp = spec_fill_price(o.side, bar.close, e.slippage_bps);
            let lots = spec_lots(
                o.quantity_type,
                o.quantity,
                fp,
                spec_equity(p, closes_of(bars)),
                spec_market_value(p, o.symbol@),
            );
            if lots <= 0 || lots > u64::MAX || fp > u64::MAX {
                None
            } else {
                let amount = spec_trade_amount(lots, fp);
                let comm = spec_commission(e, amount, o.side);
                let f = (Fill {
                    symbol: o.symbol,
                    side: o.side,
                    quantity: lots as u64,
                    price: fp as u64,
                    commission: comm as u128,
                    timestamp: o.timestamp,
                });
                if o.side == OrderSide::Sell {
                    if lots > spec_available(p, o.symbol@, spec_day_of(o.timestamp) as i64) {
                        None
                    } else if amount > i128::MAX || comm > i128::MAX || p.cash + amount
                        > i128::MAX || p.cash + amount - comm < i128::MIN {
                        None
                    } else {
                        Some(f)
                    }
                } else {
                    if amount + comm > p.cash {
                        None
                    } else if position_quantity(p.positions@, o.symbol@) + lots > u64::MAX {
                        None
                    } else {
                        Some(f)
                    }
                }
            }
        },
    }
}

/// The sell orders of a queue, in queue order.
pub open spec fn sell_orders(q: Seq<Order>) -> Seq<Order> {
    q.filter(|o: Order| o.side == OrderSide::Sell)
}

/// The buy orders of a queue, in queue order.
pub open spec fn buy_orders(q: Seq<Order>) -> Seq<Order> {
    q.filter(|o: Order| o.side == OrderSide::Buy)
}

/// How one order changes the portfolio: the fill is the `spec_order_fill`
/// decision, and the state moves exactly as that fill dictates — cash by the
/// fill's flow, the order's own position by its lots with the averaged cost,
/// the buy record on non-exempt buys, and nothing else.
pub open spec fn order_applied(
    e: ExecutionEngine,
    o: Order,
    bars: Seq<(String, Bar)>,
    p0: PortfolioState,
    r: Option<Fill>,
    p1: PortfolioState,
) -> bool {
    &&& r == spec_order_fill(e, o, bars, p0)
    &&& p1.wf()
    &&& p1.fills == p0.fills
    &&& p1.t0_symbols == p0.t0_symbols
    &&& (r is None ==> p1 == p0)
    &&& (r is Some ==> p1.cash == p0.cash - spec_fill_flow(r.unwrap()))
    &&& (forall|s: Seq<char>|
        s != o.symbol@ ==> #[trigger] position_quantity(p1.positions@, s) == position_quantity(
            p0.positions@, s))
    &&& (forall|s: Seq<char>|
        s != o.symbol@ ==> #[trigger] has_position(p1.positions@, s) == has_position(
            p0.positions@, s))
    &&& (forall|s: Seq<char>|
        s != o.symbol@ && has_position(p0.positions@, s) ==> #[trigger] position_entry(
            p1.positions@, s) == position_entry(p0.positions@, s))
    &&& (forall|s: Seq<char>, d: i64|
        #[trigger] recorded_today(p1, s, d) == recorded_today(p0, s, d) + if r is Some
            && r.unwrap().side == OrderSide::Buy && s == o.symbol@ && d == spec_day_of(
            o.timestamp) && !seq_contains_str(p0.t0_symbols@, o.symbol@) {
            r.unwrap().quantity as int
        } else {
            0int
        })
    &&& (r is Some && r.unwrap().side == OrderSide::Buy ==> {
        let f = r.unwrap();
        &&& p1.cash >= 0
        &&& has_position(p1.positions@, o.symbol@)
        &&& position_quantity(p1.positions@, o.symbol@) == position_quantity(
            p0.positions@, o.symbol@) + f.quantity
        &&& position_entry(p1.positions@, o.symbol@).avg_cost == next_avg_cost(
            position_quantity(p0.positions@, o.symbol@),
            if has_position(p0.positions@, o.symbol@) {
                position_entry(p0.positions@, o.symbol@).avg_cost as int
            } else {
                0
            },
            f.quantity as int,
            f.price as int,
        )
        &&& position_entry(p1.positions@, o.symbol@).market_value == (if has_position(
            p0.positions@, o.symbol@) {
            position_entry(p0.positions@, o.symbol@).market_value as int
        } else {
            0
        })
        &&& position_entry(p1.positions@, o.symbol@).symbol@ == o.symbol@
        &&& p1.positions@ == if has_position(p0.positions@, o.symbol@) {
            p0.positions@.update(
                position_index(p0.positions@, o.symbol@),
                position_entry(p1.positions@, o.symbol@),
            )
        } else {
            p0.positions@.push(position_entry(p1.positions@, o.symbol@))
        }
        &&& (seq_contains_str(p0.t0_symbols@, o.symbol@) ==> p1.buy_records == p0.buy_records)
        &&& (!seq_contains_str(p0.t0_symbols@, o.symbol@) ==> {
            let rec = (BuyRecord {
                date: spec_day_of(o.timestamp) as i64,
                quantity: f.quantity,
                price: f.price,
            });
            if crate::types::has_records(p0.buy_records@, o.symbol@) {
                let ri = crate::types::records_index(p0.buy_records@, o.symbol@);
                p1.buy_records@.len() == p0.buy_records@.len() && (forall|k: int|
                    0 <= k < p0.buy_records@.len() && k != ri ==> #[trigger] p1.buy_records@[k]
                        == p0.buy_records@[k]) && p1.buy_records@[ri].0 == p0.buy_records@[ri].0
                    && p1.buy_records@[ri].1@ == p0.buy_records@[ri].1@.push(rec)
            } else {
                p1.buy_records@.len() == p0.buy_records@.len() + 1 && (forall|k: int|
                    0 <= k < p0.buy_records@.len() ==> #[trigger] p1.buy_records@[k]
                        == p0.buy_records@[k]) && p1.buy_records@.last().0@ == o.symbol@
                    && p1.buy_records@.last().1@ == seq![rec]
            }
        })
    })
    &&& (r is Some && r.unwrap().side == OrderSide::Sell ==> {
        let f = r.unwrap();
        &&& p1.buy_records == p0.buy_records
        &&& position_quantity(p1.positions@, o.symbol@) == position_quantity(
            p0.positions@, o.symbol@) - f.quantity
        &&& (f.quantity == position_quantity(p0.positions@, o.symbol@) ==> !has_position(
            p1.positions@, o.symbol@))
        &&& (f.quantity < position_quantity(p0.positions@, o.symbol@) ==> has_position(
            p1.positions@, o.symbol@) && position_entry(p1.positions@, o.symbol@).avg_cost
            == position_entry(p0.positions@, o.symbol@).avg_cost && position_entry(
            p1.positions@, o.symbol@).market_value == position_entry(
            p0.positions@, o.symbol@).market_value)
        &&& p1.positions@ == if f.quantity == position_quantity(p0.positions@, o.symbol@) {
            p0.positions@.remove(position_index(p0.positions@, o.symbol@))
        } else {
            p0.positions@.update(
                position_index(p0.positions@, o.symbol@),
                position_entry(p1.positions@, o.symbol@),
            )
        }
    })
}

/// A whole batch applied in sequence: the fills are, in order, exactly the
/// `Some` outcomes of `spec_order_fill` on each order against the portfolio
/// as the orders before it left it, and the final portfolio is the last
/// intermediate state.
pub open spec fn batch_applied(
    e: ExecutionEngine,
    orders: Seq<Order>,
    bars: Seq<(String, Bar)>,
    p0: PortfolioState,
    fills: Seq<Fill>,
    p1: PortfolioState,
) -> bool
    decreases orders.len(),
{
    if orders.len() == 0 {
        fills == Seq::<Fill>::empty() && p1 == p0
    } else {
        exists|p_mid: PortfolioState|
            {
                &&& #[trigger] order_applied(
                    e, orders[0], bars, p0, spec_order_fill(e, orders[0], bars, p0), p_mid)
                &&& match spec_order_fill(e, orders[0], bars, p0) {
                    Some(f) => fills.len() >= 1 && fills[0] == f && batch_applied(
                        e, orders.drop_first(), bars, p_mid, fills.drop_first(), p1),
                    None => batch_applied(e, orders.drop_first(), bars, p_mid, fills, p1),
                }
            }
    }
}

/// One more order at the end of a batch extends it.
pub proof fn lemma_batch_snoc(
    e: ExecutionEngine,
    orders: Seq<Order>,
    bars: Seq<(String, Bar)>,
    p0: PortfolioState,
    fills: Seq<Fill>,
    p1: PortfolioState,
    o: Order,
    r: Option<Fill>,
    p2: PortfolioState,
    fills2: Seq<Fill>,
)
    requires
        batch_applied(e, orders, bars, p0, fills, p1),
        order_applied(e, o, bars, p1, r, p2),
        fills2 == match r {
            Some(f) => fills.push(f),
            None => fills,
        },
    ensures
        batch_applied(e, orders.push(o), bars, p0, fills2, p2),
    decreases orders.len(),
{
    if orders.len() == 0 {
        assert(p1 == p0);
        assert(orders.push(o)[0] == o);
        assert(orders.push(o).drop_first() =~= Seq::<Order>::empty());
        assert(order_applied(e, o, bars, p0, spec_order_fill(e, o, bars, p0), p2));
        match r {
            Some(f) => {
                assert(fills2[0] == f);
                assert(fills2.drop_first() =~= Seq::<Fill>::empty());
                assert(batch_applied(
                    e, orders.push(o).drop_first(), bars, p2, fills2.drop_first(), p2));
            },
            None => {
                assert(fills2 =~= Seq::<Fill>::empty());
                assert(batch_applied(e, orders.push(o).drop_first(), bars, p2, fills2, p2));
            },
        }
    } else {
        let r0 = spec_order_fill(e, orders[0], bars, p0);
        let q_mid = choose|p_mid: PortfolioState|
            {
                &&& #[trigger] order_applied(e, orders[0], bars, p0, r0, p_mid)
                &&& match r0 {
                    Some(f) => fills.len() >= 1 && fills[0] == f && batch_applied(
                        e, orders.drop_first(), bars, p_mid, fills.drop_first(), p1),
                    None => batch_applied(e, orders.drop_first(), bars, p_mid, fills, p1),
                }
            };
        assert(orders.push(o)[0] == orders[0]);
        assert(orders.push(o).drop_first() =~= orders.drop_first().push(o));
        match r0 {
            Some(f0) => {
                lemma_batch_snoc(
                    e, orders.drop_first(), bars, q_mid, fills.drop_first(), p1, o, r, p2,
                    match r {
                        Some(f) => fills.drop_first().push(f),
                        None => fills.drop_first(),
                    },
                );
                match r {
                    Some(f) => {
                        assert(fills2[0] == f0);
                        assert(fills2.drop_first() =~= fills.drop_first().push(f));
                    },
                    None => {
                    },
                }
                assert(order_applied(
                    e, orders.push(o)[0], bars, p0, spec_order_fill(
                        e, orders.push(o)[0], bars, p0), q_mid));
            },
            None => {
                lemma_batch_snoc(
                    e, orders.drop_first(), bars, q_mid, fills, p1, o, r, p2, fills2);
                assert(order_applied(
                    e, orders.push(o)[0], bars, p0, spec_order_fill(
                        e, orders.push(o)[0], bars, p0), q_mid));
            },
        }
    }
}

/// Two batches run back to back form one batch over the concatenation.
pub proof fn lemma_batch_concat(
    e: ExecutionEngine,
    os1: Seq<Order>,
    os2: Seq<Order>,
    bars: Seq<(String, Bar)>,
    p0: PortfolioState,
    f1: Seq<Fill>,
    pm: PortfolioState,
    f2: Seq<Fill>,
    p1: PortfolioState,
)
    requires
        batch_applied(e, os1, bars, p0, f1, pm),
        batch_applied(e, os2, bars, pm, f2, p1),
    ensures
        batch_applied(e, os1 + os2, bars, p0, f1 + f2, p1),
    decreases os1.len(),
{
    if os1.len() == 0 {
        assert(os1 + os2 =~= os2);
        assert(f1 + f2 =~= f2);
    } else {
        let r0 = spec_order_fill(e, os1[0], bars, p0);
        let q_mid = choose|p_mid: PortfolioState|
            {
                &&& #[trigger] order_applied(e, os1[0], bars, p0, r0, p_mid)
                &&& match r0 {
                    Some(f) => f1.len() >= 1 && f1[0] == f && batch_applied(
                        e, os1.drop_first(), bars, p_mid, f1.drop_first(), pm),
                    None => batch_applied(e, os1.drop_first(), bars, p_mid, f1, pm),
                }
            };
        assert((os1 + os2)[0] == os1[0]);
        assert((os1 + os2).drop_first() =~= os1.drop_first() + os2);
        match r0 {
            Some(f0) => {
                lemma_batch_concat(
                    e, os1.drop_first(), os2, bars, q_mid, f1.drop_first(), pm, f2, p1);
                assert((f1 + f2)[0] == f0);
                assert((f1 + f2).drop_first() =~= f1.drop_first() + f2);
                assert(order_applied(
                    e, (os1 + os2)[0], bars, p0, spec_order_fill(
                        e, (os1 + os2)[0], bars, p0), q_mid));
            },
            None => {
                lemma_batch_concat(e, os1.drop_first(), os2, bars, q_mid, f1, pm, f2, p1);
                assert(order_applied(
                    e, (os1 + os2)[0], bars, p0, spec_order_fill(
                        e, (os1 + os2)[0], bars, p0), q_mid));
            },
        }
    }
}

/// A batch produces at most one fill per order.
pub proof fn lemma_batch_fill_count(
    e: ExecutionEngine,
    orders: Seq<Order>,
    bars: Seq<(String, Bar)>,
    p0: PortfolioState,
    fills: Seq<Fill>,
    p1: PortfolioState,
)
    requires
        batch_applied(e, orders, bars, p0, fills, p1),
    ensures
        fills.len() <= orders.len(),
    decreases orders.len(),
{
    if orders.len() > 0 {
        let r0 = spec_order_fill(e, orders[0], bars, p0);
        let q_mid = choose|p_mid: PortfolioState|
            {
                &&& #[trigger] order_applied(e, orders[0], bars, p0, r0, p_mid)
                &&& match r0 {
                    Some(f) => fills.len() >= 1 && fills[0] == f && batch_applied(
                        e, orders.drop_first(), bars, p_mid, fills.drop_first(), p1),
                    None => batch_applied(e, orders.drop_first(), bars, p_mid, fills, p1),
                }
            };
        match r0 {
            Some(f0) => {
                lemma_batch_fill_count(
                    e, orders.drop_first(), bars, q_mid, fills.drop_first(), p1);
            },
            None => {
                lemma_batch_fill_count(e, orders.drop_first(), bars, q_mid, fills, p1);
            },
        }
    }
}

/// Two portfolios that agree on everything the matching rules read: cash,
/// the exempt set, and — entry for entry — the positions' symbols (by their
/// characters), quantities, costs and market values, and the buy records
/// under keys with the same characters.  Fresh entries of two runs may hold
/// distinct string values with the same characters; this relation is what a
/// run pins its intermediate portfolios down to.
pub open spec fn pstate_sim(a: PortfolioState, b: PortfolioState) -> bool {
    &&& a.wf()
    &&& b.wf()
    &&& a.cash == b.cash
    &&& a.t0_symbols == b.t0_symbols
    &&& a.positions@.len() == b.positions@.len()
    &&& forall|k: int|
        0 <= k < a.positions@.len() ==> (#[trigger] a.positions@[k]).symbol@
            == b.positions@[k].symbol@ && a.positions@[k].quantity == b.positions@[k].quantity
            && a.positions@[k].avg_cost == b.positions@[k].avg_cost
            && a.positions@[k].market_value == b.positions@[k].market_value
    &&& a.buy_records@.len() == b.buy_records@.len()
    &&& forall|k: int|
        0 <= k < a.buy_records@.len() ==> (#[trigger] a.buy_records@[k]).0@
            == b.buy_records@[k].0@ && a.buy_records@[k].1@ == b.buy_records@[k].1@
}

/// Position value sums agree across similar position lists.
proof fn lemma_value_sat_sim(psa: Seq<Position>, psb: Seq<Position>, prices: Seq<(String, u64)>)
    requires
        psa.len() == psb.len(),
        forall|k: int|
            0 <= k < psa.len() ==> (#[trigger] psa[k]).symbol@ == psb[k].symbol@
                && psa[k].quantity == psb[k].quantity && psa[k].market_value
                == psb[k].market_value,
    ensures
        crate::types::positions_value_sat(psa, prices) == crate::types::positions_value_sat(
            psb, prices),
    decreases psa.len(),
{
    if psa.len() > 0 {
        assert(forall|k: int|
            0 <= k < psa.drop_last().len() ==> (#[trigger] psa.drop_last()[k]).symbol@
                == psb.drop_last()[k].symbol@ && psa.drop_last()[k].quantity
                == psb.drop_last()[k].quantity && psa.drop_last()[k].market_value
                == psb.drop_last()[k].market_value);
        lemma_value_sat_sim(psa.drop_last(), psb.drop_last(), prices);
        assert(psa.last().symbol@ == psb.last().symbol@);
    }
}

/// Position lookups agree across similar position lists.
proof fn lemma_position_lookup_sim(psa: Seq<Position>, psb: Seq<Position>, s: Seq<char>)
    requires
        psa.len() == psb.len(),
        forall|k: int|
            0 <= k < psa.len() ==> (#[trigger] psa[k]).symbol@ == psb[k].symbol@
                && psa[k].quantity == psb[k].quantity && psa[k].avg_cost == psb[k].avg_cost
                && psa[k].market_value == psb[k].market_value,
        crate::types::positions_wf(psa),
        crate::types::positions_wf(psb),
    ensures
        has_position(psa, s) == has_position(psb, s),
        position_quantity(psa, s) == position_quantity(psb, s),
        has_position(psa, s) ==> position_index(psa, s) == position_index(psb, s)
            && position_entry(psa, s).quantity == position_entry(psb, s).quantity
            && position_entry(psa, s).avg_cost == position_entry(psb, s).avg_cost
            && position_entry(psa, s).market_value == position_entry(psb, s).market_value,
{
    if has_position(psa, s) {
        let i = position_index(psa, s);
        assert(psa[i].symbol@ == s);
        assert(psb[i].symbol@ == s);
        assert(has_position(psb, s));
        let j = position_index(psb, s);
        assert(psb[j].symbol@ == s);
        assert(psa[j].symbol@ == s);
        assert(j == i);
    } else {
        assert(!has_position(psb, s)) by {
            if has_position(psb, s) {
                let j = position_index(psb, s);
                assert(psb[j].symbol@ == s);
                assert(psa[j].symbol@ == s);
            }
        }
    }
}

/// Recorded same-date buys agree across similar portfolios.
proof fn lemma_recorded_today_sim(a: PortfolioState, b: PortfolioState, s: Seq<char>, d: i64)
    requires
        pstate_sim(a, b),
    ensures
        recorded_today(a, s, d) == recorded_today(b, s, d),
{
    if crate::types::has_records(a.buy_records@, s) {
        let i = crate::types::records_index(a.buy_records@, s);
        assert(a.buy_records@[i].0@ == s);
        assert(b.buy_records@[i].0@ == s);
        assert(crate::types::has_records(b.buy_records@, s));
        let j = crate::types::records_index(b.buy_records@, s);
        assert(b.buy_records@[j].0@ == s);
        assert(a.buy_records@[j].0@ == s);
        assert(j == i);
        assert(a.buy_records@[i].1@ == b.buy_records@[i].1@);
    } else {
        assert(!crate::types::has_records(b.buy_records@, s)) by {
            if crate::types::has_records(b.buy_records@, s) {
                let j = crate::types::records_index(b.buy_records@, s);
                assert(b.buy_records@[j].0@ == s);
                assert(a.buy_records@[j].0@ == s);
            }
        }
    }
}

/// The fill decision reads only what `pstate_sim` preserves.
proof fn lemma_order_fill_sim(
    e: ExecutionEngine,
    o: Order,
    bars: Seq<(String, Bar)>,
    a: PortfolioState,
    b: PortfolioState,
)
    requires
        pstate_sim(a, b),
    ensures
        spec_order_fill(e, o, bars, a) == spec_order_fill(e, o, bars, b),
{
    lemma_value_sat_sim(a.positions@, b.positions@, closes_of(bars));
    lemma_position_lookup_sim(a.positions@, b.positions@, o.symbol@);
    lemma_recorded_today_sim(a, b, o.symbol@, spec_day_of(o.timestamp) as i64);
    assert(spec_equity(a, closes_of(bars)) == spec_equity(b, closes_of(bars)));
    assert(spec_market_value(a, o.symbol@) == spec_market_value(b, o.symbol@));
    assert(spec_available(a, o.symbol@, spec_day_of(o.timestamp) as i64) == spec_available(
        b, o.symbol@, spec_day_of(o.timestamp) as i64));
}

/// One order applied to similar portfolios decides the same fill and leaves
/// similar portfolios.
proof fn lemma_order_applied_sim(
    e: ExecutionEngine,
    o: Order,
    bars: Seq<(String, Bar)>,
    p0a: PortfolioState,
    p0b: PortfolioState,
    ra: Option<Fill>,
    p1a: PortfolioState,
    rb: Option<Fill>,
    p1b: PortfolioState,
)
    requires
        pstate_sim(p0a, p0b),
        order_applied(e, o, bars, p0a, ra, p1a),
        order_applied(e, o, bars, p0b, rb, p1b),
    ensures
        ra == rb,
        pstate_sim(p1a, p1b),
{
    lemma_order_fill_sim(e, o, bars, p0a, p0b);
    lemma_position_lookup_sim(p0a.positions@, p0b.positions@, o.symbol@);
    let sym = o.symbol@;
    match ra {
        None => {
        },
        Some(f) => {
            if f.side == OrderSide::Buy {
                // Positions: one entry changed or appended, with equal fields.
                if has_position(p0a.positions@, sym) {
                    let i = position_index(p0a.positions@, sym);
                    assert(position_index(p0b.positions@, sym) == i);
                    assert forall|k: int|
                        0 <= k < p1a.positions@.len() implies (
                        #[trigger] p1a.positions@[k]).symbol@ == p1b.positions@[k].symbol@
                            && p1a.positions@[k].quantity == p1b.positions@[k].quantity
                            && p1a.positions@[k].avg_cost == p1b.positions@[k].avg_cost
                            && p1a.positions@[k].market_value
                            == p1b.positions@[k].market_value by {
                        if k != i {
                            assert(p1a.positions@[k] == p0a.positions@[k]);
                            assert(p1b.positions@[k] == p0b.positions@[k]);
                        } else {
                            assert(p1a.positions@[k] == position_entry(p1a.positions@, sym));
                            assert(p1b.positions@[k] == position_entry(p1b.positions@, sym));
                        }
                    }
                } else {
                    let n = p0a.positions@.len() as int;
                    assert(p1a.positions@[n] == position_entry(p1a.positions@, sym)) by {
                        assert(p1a.positions@ == p0a.positions@.push(
                            position_entry(p1a.positions@, sym)));
                    }
                    assert(p1b.positions@[n] == position_entry(p1b.positions@, sym)) by {
                        assert(p1b.positions@ == p0b.positions@.push(
                            position_entry(p1b.positions@, sym)));
                    }
                    assert forall|k: int|
                        0 <= k < p1a.positions@.len() implies (
                        #[trigger] p1a.positions@[k]).symbol@ == p1b.positions@[k].symbol@
                            && p1a.positions@[k].quantity == p1b.positions@[k].quantity
                            && p1a.positions@[k].avg_cost == p1b.positions@[k].avg_cost
                            && p1a.positions@[k].market_value
                            == p1b.positions@[k].market_value by {
                        if k < n {
                            assert(p1a.positions@[k] == p0a.positions@[k]);
                            assert(p1b.positions@[k] == p0b.positions@[k]);
                        }
                    }
                }
                // Buy records: untouched, or one list extended by the same
                // record under the same key characters.
                if seq_contains_str(p0a.t0_symbols@, sym) {
                } else {
                    let rec = (BuyRecord {
                        date: spec_day_of(o.timestamp) as i64,
                        quantity: f.quantity,
                        price: f.price,
                    });
                    if crate::types::has_records(p0a.buy_records@, sym) {
                        let ri = crate::types::records_index(p0a.buy_records@, sym);
                        assert(p0a.buy_records@[ri].0@ == sym);
                        assert(p0b.buy_records@[ri].0@ == sym);
                        assert(crate::types::has_records(p0b.buy_records@, sym));
                        let rj = crate::types::records_index(p0b.buy_records@, sym);
                        assert(p0b.buy_records@[rj].0@ == sym);
                        assert(p0a.buy_records@[rj].0@ == sym);
                        assert(rj == ri);
                        assert forall|k: int|
                            0 <= k < p1a.buy_records@.len() implies (
                            #[trigger] p1a.buy_records@[k]).0@ == p1b.buy_records@[k].0@
                                && p1a.buy_records@[k].1@ == p1b.buy_records@[k].1@ by {
                            if k != ri {
                                assert(p1a.buy_records@[k] == p0a.buy_records@[k]);
                                assert(p1b.buy_records@[k] == p0b.buy_records@[k]);
                            }
                        }
                    } else {
                        assert(!crate::types::has_records(p0b.buy_records@, sym)) by {
                            if crate::types::has_records(p0b.buy_records@, sym) {
                                let rj = crate::types::records_index(p0b.buy_records@, sym);
                                assert(p0b.buy_records@[rj].0@ == sym);
                                assert(p0a.buy_records@[rj].0@ == sym);
                            }
                        }
                        let n = p0a.buy_records@.len() as int;
                        assert forall|k: int|
                            0 <= k < p1a.buy_records@.len() implies (
                            #[trigger] p1a.buy_records@[k]).0@ == p1b.buy_records@[k].0@
                                && p1a.buy_records@[k].1@ == p1b.buy_records@[k].1@ by {
                            if k < n {
                                assert(p1a.buy_records@[k] == p0a.buy_records@[k]);
                                assert(p1b.buy_records@[k] == p0b.buy_records@[k]);
                            } else {
                                assert(p1a.buy_records@[k] == p1a.buy_records@.last());
                                assert(p1b.buy_records@[k] == p1b.buy_records@.last());
                            }
                        }
                    }
                }
            } else {
                // Sell: the same entry shrinks or is removed on both sides.
                let i = position_index(p0a.positions@, sym);
                assert(position_index(p0b.positions@, sym) == i);
                if f.quantity == position_quantity(p0a.positions@, sym) {
                    assert(p1a.positions@ == p0a.positions@.remove(i));
                    assert(p1b.positions@ == p0b.positions@.remove(i));
                    assert forall|k: int|
                        0 <= k < p1a.positions@.len() implies (
                        #[trigger] p1a.positions@[k]).symbol@ == p1b.positions@[k].symbol@
                            && p1a.positions@[k].quantity == p1b.positions@[k].quantity
                            && p1a.positions@[k].avg_cost == p1b.positions@[k].avg_cost
                            && p1a.positions@[k].market_value
                            == p1b.positions@[k].market_value by {
                        let k0 = if k < i {
                            k
                        } else {
                            k + 1
                        };
                        assert(p1a.positions@[k] == p0a.positions@[k0]);
                        assert(p1b.positions@[k] == p0b.positions@[k0]);
                    }
                } else {
                    assert(position_entry(p1a.positions@, sym).symbol@ == sym);
                    assert(position_entry(p1b.positions@, sym).symbol@ == sym);
                    assert forall|k: int|
                        0 <= k < p1a.positions@.len() implies (
                        #[trigger] p1a.positions@[k]).symbol@ == p1b.positions@[k].symbol@
                            && p1a.positions@[k].quantity == p1b.positions@[k].quantity
                            && p1a.positions@[k].avg_cost == p1b.positions@[k].avg_cost
                            && p1a.positions@[k].market_value
                            == p1b.positions@[k].market_value by {
                        if k != i {
                            assert(p1a.positions@[k] == p0a.positions@[k]);
                            assert(p1b.positions@[k] == p0b.positions@[k]);
                        } else {
                            assert(p1a.positions@[k] == position_entry(p1a.positions@, sym));
                            assert(p1b.positions@[k] == position_entry(p1b.positions@, sym));
                            lemma_position_lookup_sim(
                                p1a.positions@, p1a.positions@, sym);
                            assert(position_entry(p1a.positions@, sym).quantity
                                == position_quantity(p1a.positions@, sym));
                            assert(position_entry(p1b.positions@, sym).quantity
                                == position_quantity(p1b.positions@, sym));
                        }
                    }
                }
            }
        },
    }
}

/// Determinism: two runs of one batch from the same portfolio produce the
/// same fills, and portfolios that agree on everything the matching rules
/// read.  Replaying a reset backtest therefore retraces the same fills.
pub proof fn lemma_batch_deterministic(
    e: ExecutionEngine,
    orders: Seq<Order>,
    bars: Seq<(String, Bar)>,
    p0a: PortfolioState,
    p0b: PortfolioState,
    fa: Seq<Fill>,
    p1a: PortfolioState,
    fb: Seq<Fill>,
    p1b: PortfolioState,
)
    requires
        pstate_sim(p0a, p0b),
        batch_applied(e, orders, bars, p0a, fa, p1a),
        batch_applied(e, orders, bars, p0b, fb, p1b),
    ensures
        fa == fb,
        pstate_sim(p1a, p1b),
    decreases orders.len(),
{
    if orders.len() == 0 {
    } else {
        let ra = spec_order_fill(e, orders[0], bars, p0a);
        let rb = spec_order_fill(e, orders[0], bars, p0b);
        let qa = choose|p_mid: PortfolioState|
            {
                &&& #[trigger] order_applied(e, orders[0], bars, p0a, ra, p_mid)
                &&& match ra {
                    Some(f) => fa.len() >= 1 && fa[0] == f && batch_applied(
                        e, orders.drop_first(), bars, p_mid, fa.drop_first(), p1a),
                    None => batch_applied(e, orders.drop_first(), bars, p_mid, fa, p1a),
                }
            };
        let qb = choose|p_mid: PortfolioState|
            {
                &&& #[trigger] order_applied(e, orders[0], bars, p0b, rb, p_mid)
                &&& match rb {
                    Some(f) => fb.len() >= 1 && fb[0] == f && batch_applied(
                        e, orders.drop_first(), bars, p_mid, fb.drop_first(), p1b),
                    None => batch_applied(e, orders.drop_first(), bars, p_mid, fb, p1b),
                }
            };
        lemma_order_applied_sim(e, orders[0], bars, p0a, p0b, ra, qa, rb, qb);
        match ra {
            Some(f) => {
                lemma_batch_deterministic(
                    e, orders.drop_first(), bars, qa, qb, fa.drop_first(), p1a,
                    fb.drop_first(), p1b);
                assert(fa.len() == fb.len());
                assert forall|k: int| 0 <= k < fa.len() implies fa[k] == fb[k] by {
                    if k > 0 {
                        assert(fa[k] == fa.drop_first()[k - 1]);
                        assert(fb[k] == fb.drop_first()[k - 1]);
                    }
                }
                assert(fa =~= fb);
            },
            None => {
                lemma_batch_deterministic(
                    e, orders.drop_first(), bars, qa, qb, fa, p1a, fb, p1b);
            },
        }
    }
}

/// An accepted sell never exceeds the sellable quantity: its lots are at
/// most the stored position minus — for a symbol under the availability rule
/// — the quantity its records show bought on the order's own date.
pub proof fn lemma_sell_within_availability(
    e: ExecutionEngine,
    o: Order,
    bars: Seq<(String, Bar)>,
    p: PortfolioState,
)
    requires
        spec_order_fill(e, o, bars, p) is Some,
        spec_order_fill(e, o, bars, p).unwrap().side == OrderSide::Sell,
    ensures
        spec_order_fill(e, o, bars, p).unwrap().quantity <= spec_available(
            p, o.symbol@, spec_day_of(o.timestamp) as i64),
        spec_order_fill(e, o, bars, p).unwrap().quantity <= position_quantity(p.positions@,
            o.symbol@),
        !seq_contains_str(p.t0_symbols@, o.symbol@) && has_position(p.positions@, o.symbol@)
            ==> spec_order_fill(e, o, bars, p).unwrap().quantity <= position_quantity(
            p.positions@, o.symbol@) - recorded_today(
            p, o.symbol@, spec_day_of(o.timestamp) as i64),
{
    lemma_available_le_position(p, o.symbol@, spec_day_of(o.timestamp) as i64);
}

/// The bar stored under `symbol`, if any.
fn find_bar(pairs: &Vec<(String, Bar)>, symbol: &str) -> (r: Option<Bar>)
    requires
        bars_wf(pairs@),
    ensures
        r == lookup_bar(pairs@, symbol@),
{
    let mut k: usize = 0;
    while k < pairs.len()
        invariant
            k <= pairs@.len(),
            bars_wf(pairs@),
            forall|i: int| 0 <= i < k ==> (#[trigger] pairs@[i]).0@ != symbol@,
        decreases pairs@.len() - k,
    {
        if crate::types::str_eq(pairs[k].0.as_str(), symbol) {
            proof {
                assert(pairs@[k as int].0@ == symbol@);
                let a = choose|a: int| 0 <= a < pairs@.len() && (#[trigger] pairs@[a]).0@
                    == symbol@;
                assert(a == k as int);
            }
            return Some(pairs[k].1);
        }
        k += 1;
    }
    proof {
        if exists|a: int| 0 <= a < pairs@.len() && (#[trigger] pairs@[a]).0@ == symbol@ {
            let a = choose|a: int| 0 <= a < pairs@.len() && (#[trigger] pairs@[a]).0@ == symbol@;
        }
    }
    None
}

/// The close prices of the current bars, under the same keys.
pub fn closes_vec(pairs: &Vec<(String, Bar)>) -> (r: Vec<(String, u64)>)
    ensures
        r@ == closes_of(pairs@),
{
    let mut out: Vec<(String, u64)> = Vec::new();
    let mut k: usize = 0;
    while k < pairs.len()
        invariant
            k <= pairs@.len(),
            out@.len() == k,
            forall|i: int|
                0 <= i < k ==> (#[trigger] out@[i]).0 == pairs@[i].0 && out@[i].1
                    == pairs@[i].1.close,
        decreases pairs@.len() - k,
    {
        out.push((pairs[k].0.clone(), pairs[k].1.close));
        k += 1;
    }
    proof {
        assert(out@ =~= closes_of(pairs@));
    }
    out
}

/// `Some` exactly when the sum is representable.
fn try_add_i128(a: i128, b: i128) -> (r: Option<i128>)
    ensures
        r == if i128::MIN <= a + b <= i128::MAX {
            Some((a + b) as i128)
        } else {
            None::<i128>
        },
{
    if b >= 0 {
        if a > i128::MAX - b {
            None
        } else {
            Some(a + b)
        }
    } else {
        if a < i128::MIN - b {
            None
        } else {
            Some(a + b)
        }
    }
}

impl ExecutionEngine {
    /// A fresh engine with an empty queue and the given cost model.
    pub fn new(
        commission_rate: u64,
        min_commission: u64,
        slippage_bps: u64,
        stamp_tax_rate: u64,
    ) -> (r: ExecutionEngine)
        ensures
            r.orders@.len() == 0,
            r.commission_rate == commission_rate,
            r.min_commission == min_commission,
            r.slippage_bps == slippage_bps,
            r.stamp_tax_rate == stamp_tax_rate,
    {
        ExecutionEngine {
            orders: Vec::new(),
            commission_rate,
            min_commission,
            slippage_bps,
            stamp_tax_rate,
        }
    }

    /// Queue an order for the next execution.
    pub fn add_order(&mut self, order: Order)
        ensures
            final(self).orders@ == old(self).orders@.push(order),
            final(self).commission_rate == old(self).commission_rate,
            final(self).min_commission == old(self).min_commission,
            final(self).slippage_bps == old(self).slippage_bps,
            final(self).stamp_tax_rate == old(self).stamp_tax_rate,
    {
        self.orders.push(order);
    }

    /// Drop every queued order.
    pub fn clear_orders(&mut self)
        ensures
            final(self).orders@.len() == 0,
            final(self).commission_rate == old(self).commission_rate,
            final(self).min_commission == old(self).min_commission,
            final(self).slippage_bps == old(self).slippage_bps,
            final(self).stamp_tax_rate == old(self).stamp_tax_rate,
    {
        self.orders.clear();
    }

    /// Execute one order against the current bars; `Some` fill exactly as
    /// `spec_order_fill` decides, with the portfolio mutated accordingly.
    fn execute_order(
        &self,
        order: &Order,
        current_bars: &Vec<(String, Bar)>,
        portfolio: &mut PortfolioState,
    ) -> (r: Option<Fill>)
        requires
            old(portfolio).wf(),
            bars_wf(current_bars@),
        ensures
            r == spec_order_fill(*self, *order, current_bars@, *old(portfolio)),
            order_applied(*self, *order, current_bars@, *old(portfolio), r, *final(portfolio)),
    {
        let bar = match find_bar(current_bars, order.symbol.as_str()) {
            Some(b) => b,
            None => {
                return None;
            },
        };
        // Execution price with slippage.
        let fp_wide: u128 = if matches!(order.side, OrderSide::Buy) {
            sat_mul_u128(bar.close as u128, 10_000 + self.slippage_bps as u128) / 10_000
        } else if self.slippage_bps >= 10_000 {
            0
        } else {
            proof {
                assert((bar.close as int) * ((10_000 - self.slippage_bps) as int)
                    <= (u64::MAX as int) * 10_000int) by (nonlinear_arith)
                    requires bar.close <= u64::MAX && self.slippage_bps < 10_000;
            }
            (bar.close as u128) * ((10_000 - self.slippage_bps) as u128) / 10_000
        };
        proof {
            assert(fp_wide == spec_fill_price(order.side, bar.close, self.slippage_bps));
        }
        // Quantity in lots.
        let lots_wide: u128 = match order.quantity_type {
            QuantityType::Count => order.quantity as u128,
            QuantityType::Cash => {
                if fp_wide == 0 {
                    0
                } else if fp_wide > u128::MAX / 100 {
                    proof {
                        vstd::arithmetic::div_mod::lemma_fundamental_div_mod(
                            u128::MAX as int, 100);
                        assert(fp_wide as int * 100 > u128::MAX as int) by (nonlinear_arith)
                            requires fp_wide as int >= u128::MAX as int / 100 + 1,
                                u128::MAX as int == 100 * (u128::MAX as int / 100)
                                    + u128::MAX as int % 100,
                                (u128::MAX as int % 100) < 100,
                            ;
                        vstd::arithmetic::div_mod::lemma_basic_div(
                            order.quantity as int, fp_wide as int * 100);
                    }
                    0
                } else {
                    proof {
                        vstd::arithmetic::div_mod::lemma_fundamental_div_mod(
                            u128::MAX as int, 100);
                        assert(fp_wide as int * 100 <= u128::MAX as int) by (nonlinear_arith)
                            requires fp_wide as int <= u128::MAX as int / 100,
                                u128::MAX as int == 100 * (u128::MAX as int / 100)
                                    + u128::MAX as int % 100,
                                (u128::MAX as int % 100) >= 0,
                            ;
                    }
                    (order.quantity as u128) / (fp_wide * 100)
                }
            },
            QuantityType::Weight => {
                let prices = closes_vec(current_bars);
                proof {
                    assert forall|a: int, b: int|
                        0 <= a < b < closes_of(current_bars@).len() implies (
                        #[trigger] closes_of(current_bars@)[a]).0@ != (#[trigger] closes_of(
                        current_bars@)[b]).0@ by {
                        assert(current_bars@[a].0@ != current_bars@[b].0@);
                    }
                }
                let equity = portfolio.calculate_equity(&prices);
                let mv: u64 = match portfolio.find_position(order.symbol.as_str()) {
                    Some(i) => {
                        proof {
                            let j = position_index(portfolio.positions@, order.symbol@);
                            assert(portfolio.positions@[j].symbol@ == order.symbol@);
                            assert(j == i as int);
                        }
                        portfolio.positions[i].market_value
                    },
                    None => 0,
                };
                if fp_wide == 0 {
                    0
                } else if equity <= 0 {
                    proof {
                        let ge = spec_equity(*portfolio, closes_of(current_bars@));
                        assert(clamp_i128(ge * order.quantity) <= 0) by (nonlinear_arith)
                            requires ge <= 0, order.quantity >= 0,
                                clamp_i128(ge * order.quantity) == if ge * order.quantity
                                    > i128::MAX { i128::MAX as int } else if ge * order.quantity
                                    < i128::MIN { i128::MIN as int } else { ge * order.quantity },
                            ;
                        vstd::arithmetic::div_mod::lemma_div_is_ordered(
                            clamp_i128(ge * order.quantity), 0, 1_000_000);
                        assert(0int / 1_000_000int == 0);
                    }
                    0
                } else {
                    let target_wide: i128 = sat_u128_to_i128(
                        sat_mul_u128(equity as u128, order.quantity as u128),
                    );
                    proof {
                        let ge = spec_equity(*portfolio, closes_of(current_bars@));
                        assert(clamp_i128(clamp_u128(ge * order.quantity)) == clamp_i128(
                            ge * order.quantity));
                    }
                    let target: i128 = target_wide / 1_000_000;
                    let delta: i128 = target - mv as i128;
                    if delta <= 0 {
                        0
                    } else if fp_wide > u128::MAX / 100 {
                        proof {
                            vstd::arithmetic::div_mod::lemma_fundamental_div_mod(
                                u128::MAX as int, 100);
                            assert(fp_wide as int * 100 > u128::MAX as int) by (nonlinear_arith)
                                requires fp_wide as int >= u128::MAX as int / 100 + 1,
                                    u128::MAX as int == 100 * (u128::MAX as int / 100)
                                        + u128::MAX as int % 100,
                                    (u128::MAX as int % 100) < 100,
                                ;
                            vstd::arithmetic::div_mod::lemma_basic_div(
                                delta as int, fp_wide as int * 100);
                        }
                        0
                    } else {
                        proof {
                            vstd::arithmetic::div_mod::lemma_fundamental_div_mod(
                                u128::MAX as int, 100);
                            assert(fp_wide as int * 100 <= u128::MAX as int) by (nonlinear_arith)
                                requires fp_wide as int <= u128::MAX as int / 100,
                                    u128::MAX as int == 100 * (u128::MAX as int / 100)
                                        + u128::MAX as int % 100,
                                    (u128::MAX as int % 100) >= 0,
                                ;
                        }
                        (delta as u128) / (fp_wide * 100)
                    }
                }
            },
        };
        proof {
            assert(lots_wide == spec_lots(
                order.quantity_type,
                order.quantity,
                fp_wide as int,
                spec_equity(*portfolio, closes_of(current_bars@)),
                spec_market_value(*portfolio, order.symbol@),
            ));
        }
        if lots_wide == 0 || lots_wide > u64::MAX as u128 || fp_wide > u64::MAX as u128 {
            return None;
        }
        let lots: u64 = lots_wide as u64;
        let fp: u64 = fp_wide as u64;
        // Trade amount and commission.
        let amount: u128 = sat_mul_u128(mul_u64(lots, fp), 100);
        let proportional: u128 = sat_mul_u128(amount, self.commission_rate as u128) / 1_000_000;
        let base: u128 = if proportional > self.min_commission as u128 {
            proportional
        } else {
            self.min_commission as u128
        };
        let comm: u128 = if matches!(order.side, OrderSide::Sell) {
            sat_add_u128(base, sat_mul_u128(amount, self.stamp_tax_rate as u128) / 1_000_000)
        } else {
            base
        };
        proof {
            assert(amount == spec_trade_amount(lots as int, fp as int));
            assert(comm == spec_commission(*self, amount as int, order.side));
        }
        match order.side {
            OrderSide::Sell => {
                let d = day_of(order.timestamp);
                let available = portfolio.get_available(order.symbol.as_str(), d);
                if lots > available {
                    return None;
                }
                if amount > i128::MAX as u128 || comm > i128::MAX as u128 {
                    return None;
                }
                let with_proceeds = match try_add_i128(portfolio.cash, amount as i128) {
                    Some(v) => v,
                    None => {
                        return None;
                    },
                };
                let new_cash = match try_add_i128(with_proceeds, -(comm as i128)) {
                    Some(v) => v,
                    None => {
                        return None;
                    },
                };
                proof {
                    lemma_available_le_position(*portfolio, order.symbol@, d);
                }
                let released = portfolio.reduce_position(order.symbol.as_str(), lots, fp);
                portfolio.cash = new_cash;
                let f = Fill {
                    symbol: order.symbol.clone(),
                    side: order.side,
                    quantity: lots,
                    price: fp,
                    commission: comm,
                    timestamp: order.timestamp,
                };
                Some(f)
            },
            OrderSide::Buy => {
                let cost: u128 = sat_add_u128(amount, comm);
                if portfolio.cash < 0 || cost > portfolio.cash as u128 {
                    proof {
                        if portfolio.cash >= 0 {
                            if amount as int + comm as int > u128::MAX as int {
                                assert(amount as int + comm as int > portfolio.cash);
                            } else {
                                assert(cost as int == amount as int + comm as int);
                            }
                        }
                    }
                    return None;
                }
                proof {
                    assert(cost as int == amount as int + comm as int);
                }
                let q0 = match portfolio.find_position(order.symbol.as_str()) {
                    Some(i) => {
                        proof {
                            let j = position_index(portfolio.positions@, order.symbol@);
                            assert(portfolio.positions@[j].symbol@ == order.symbol@);
                            assert(j == i as int);
                        }
                        portfolio.positions[i].quantity
                    },
                    None => 0,
                };
                if (q0 as u128) + (lots as u128) > u64::MAX as u128 {
                    return None;
                }
                let new_cash: i128 = portfolio.cash - (cost as i128);
                portfolio.cash = new_cash;
                let d = day_of(order.timestamp);
                portfolio.add_position(order.symbol.as_str(), lots, fp, d);
                let f = Fill {
                    symbol: order.symbol.clone(),
                    side: order.side,
                    quantity: lots,
                    price: fp,
                    commission: comm,
                    timestamp: order.timestamp,
                };
                Some(f)
            },
        }
    }

    /// Execute every queued order against the current bars — sells first,
    /// then buys, each group in queue order — clear the queue, and hand back
    /// the fills.  Cash moves by exactly the summed flows of the fills, and
    /// cannot go negative unless a sell's commission exceeds its amount.
    pub fn execute_all_orders(
        &mut self,
        current_bars: &Vec<(String, Bar)>,
        portfolio: &mut PortfolioState,
    ) -> (fills: Vec<Fill>)
        requires
            old(portfolio).wf(),
            bars_wf(current_bars@),
        ensures
            final(self).orders@.len() == 0,
            final(self).commission_rate == old(self).commission_rate,
            final(self).min_commission == old(self).min_commission,
            final(self).slippage_bps == old(self).slippage_bps,
            final(self).stamp_tax_rate == old(self).stamp_tax_rate,
            final(portfolio).wf(),
            final(portfolio).fills == old(portfolio).fills,
            final(portfolio).t0_symbols == old(portfolio).t0_symbols,
            final(portfolio).cash == old(portfolio).cash - sum_flows(fills@),
            // The fills and the final portfolio are exactly the per-order
            // outcomes of the queue, sells first, then buys, each group in
            // queue order.
            batch_applied(
                *final(self),
                sell_orders(old(self).orders@) + buy_orders(old(self).orders@),
                current_bars@,
                *old(portfolio),
                fills@,
                *final(portfolio),
            ),
            old(portfolio).cash >= 0 && (forall|i: int|
                0 <= i < fills@.len() && (#[trigger] fills@[i]).side == OrderSide::Sell
                    ==> fills@[i].commission <= spec_fill_amount(fills@[i])) ==> final(
                portfolio).cash >= 0,
            forall|i: int, j: int|
                0 <= i < j < fills@.len() && (#[trigger] fills@[i]).side == OrderSide::Buy ==> (
                #[trigger] fills@[j]).side == OrderSide::Buy,
    {
        let mut queue: Vec<Order> = Vec::new();
        core::mem::swap(&mut queue, &mut self.orders);
        let mut fills: Vec<Fill> = Vec::new();
        let ghost p0 = *portfolio;
        let ghost cash0 = portfolio.cash as int;
        let n = queue.len();
        proof {
            assert(sell_orders(queue@.take(0)) =~= Seq::<Order>::empty());
            assert(fills@ =~= Seq::<Fill>::empty());
        }
        // Sell pass.
        let mut k: usize = 0;
        while k < n
            invariant
                n == queue@.len(),
                k <= n,
                self.orders@.len() == 0,
                self.commission_rate == old(self).commission_rate,
                self.min_commission == old(self).min_commission,
                self.slippage_bps == old(self).slippage_bps,
                self.stamp_tax_rate == old(self).stamp_tax_rate,
                portfolio.wf(),
                portfolio.fills == old(portfolio).fills,
                portfolio.t0_symbols == old(portfolio).t0_symbols,
                bars_wf(current_bars@),
                p0 == *old(portfolio),
                cash0 == old(portfolio).cash,
                portfolio.cash == cash0 - sum_flows(fills@),
                batch_applied(
                    *self, sell_orders(queue@.take(k as int)), current_bars@, p0, fills@,
                    *portfolio),
                cash0 >= 0 && (forall|i: int|
                    0 <= i < fills@.len() && (#[trigger] fills@[i]).side == OrderSide::Sell
                        ==> fills@[i].commission <= spec_fill_amount(fills@[i])) ==> portfolio.cash
                    >= 0,
                forall|i: int|
                    0 <= i < fills@.len() ==> (#[trigger] fills@[i]).side == OrderSide::Sell,
            decreases n - k,
        {
            proof {
                assert(queue@.take(k as int + 1).drop_last() =~= queue@.take(k as int));
                assert(queue@.take(k as int + 1).last() == queue@[k as int]);
                reveal_with_fuel(Seq::filter, 2);
            }
            if matches!(queue[k].side, OrderSide::Sell) {
                let ghost fills0 = fills@;
                let ghost port_before = *portfolio;
                let ghost cash_before = portfolio.cash as int;
                let r = self.execute_order(&queue[k], current_bars, portfolio);
                match r {
                    Some(f) => {
                        proof {
                            lemma_sum_flows_push(fills0, f);
                            assert(f.side == queue@[k as int].side);
                        }
                        fills.push(f);
                        proof {
                            if cash0 >= 0 && (forall|i: int|
                                0 <= i < fills@.len() && (#[trigger] fills@[i]).side
                                    == OrderSide::Sell ==> fills@[i].commission
                                    <= spec_fill_amount(fills@[i])) {
                                assert forall|i: int|
                                    0 <= i < fills0.len() && (#[trigger] fills0[i]).side
                                        == OrderSide::Sell implies fills0[i].commission
                                        <= spec_fill_amount(fills0[i]) by {
                                    assert(fills@[i] == fills0[i]);
                                }
                                assert(cash_before >= 0);
                                assert(fills@[fills@.len() - 1] == f);
                                assert(f.commission <= spec_fill_amount(f));
                            }
                        }
                    },
                    None => {},
                }
                proof {
                    lemma_batch_snoc(
                        *self, sell_orders(queue@.take(k as int)), current_bars@, p0, fills0,
                        port_before, queue@[k as int], r, *portfolio, fills@);
                    assert(sell_orders(queue@.take(k as int + 1)) =~= sell_orders(
                        queue@.take(k as int)).push(queue@[k as int]));
                }
            } else {
                proof {
                    assert(sell_orders(queue@.take(k as int + 1)) =~= sell_orders(
                        queue@.take(k as int)));
                }
            }
            k += 1;
        }
        proof {
            assert(queue@.take(n as int) =~= queue@);
        }
        let ghost p_mid = *portfolio;
        let ghost fills_s = fills@;
        proof {
            assert(buy_orders(queue@.take(0)) =~= Seq::<Order>::empty());
            assert(fills@.skip(fills_s.len() as int) =~= Seq::<Fill>::empty());
        }
        // Buy pass.
        let mut k2: usize = 0;
        while k2 < n
            invariant
                n == queue@.len(),
                k2 <= n,
                self.orders@.len() == 0,
                self.commission_rate == old(self).commission_rate,
                self.min_commission == old(self).min_commission,
                self.slippage_bps == old(self).slippage_bps,
                self.stamp_tax_rate == old(self).stamp_tax_rate,
                portfolio.wf(),
                portfolio.fills == old(portfolio).fills,
                portfolio.t0_symbols == old(portfolio).t0_symbols,
                bars_wf(current_bars@),
                p0 == *old(portfolio),
                cash0 == old(portfolio).cash,
                portfolio.cash == cash0 - sum_flows(fills@),
                batch_applied(*self, sell_orders(queue@), current_bars@, p0, fills_s, p_mid),
                fills@.len() >= fills_s.len(),
                fills@.take(fills_s.len() as int) == fills_s,
                batch_applied(
                    *self, buy_orders(queue@.take(k2 as int)), current_bars@, p_mid,
                    fills@.skip(fills_s.len() as int), *portfolio),
                cash0 >= 0 && (forall|i: int|
                    0 <= i < fills@.len() && (#[trigger] fills@[i]).side == OrderSide::Sell
                        ==> fills@[i].commission <= spec_fill_amount(fills@[i])) ==> portfolio.cash
                    >= 0,
                forall|i: int|
                    0 <= i < fills_s.len() ==> (#[trigger] fills@[i]).side == OrderSide::Sell,
                forall|i: int|
                    fills_s.len() <= i < fills@.len() ==> (#[trigger] fills@[i]).side
                        == OrderSide::Buy,
            decreases n - k2,
        {
            proof {
                assert(queue@.take(k2 as int + 1).drop_last() =~= queue@.take(k2 as int));
                assert(queue@.take(k2 as int + 1).last() == queue@[k2 as int]);
                reveal_with_fuel(Seq::filter, 2);
            }
            if matches!(queue[k2].side, OrderSide::Buy) {
                let ghost fills0 = fills@;
                let ghost port_before = *portfolio;
                let ghost cash_before = portfolio.cash as int;
                let r = self.execute_order(&queue[k2], current_bars, portfolio);
                match r {
                    Some(f) => {
                        proof {
                            lemma_sum_flows_push(fills0, f);
                            assert(f.side == queue@[k2 as int].side);
                        }
                        fills.push(f);
                        proof {
                            assert(fills@.take(fills_s.len() as int) =~= fills0.take(
                                fills_s.len() as int));
                            assert(fills@.skip(fills_s.len() as int) =~= fills0.skip(
                                fills_s.len() as int).push(f));
                            if cash0 >= 0 && (forall|i: int|
                                0 <= i < fills@.len() && (#[trigger] fills@[i]).side
                                    == OrderSide::Sell ==> fills@[i].commission
                                    <= spec_fill_amount(fills@[i])) {
                                assert forall|i: int|
                                    0 <= i < fills0.len() && (#[trigger] fills0[i]).side
                                        == OrderSide::Sell implies fills0[i].commission
                                        <= spec_fill_amount(fills0[i]) by {
                                    assert(fills@[i] == fills0[i]);
                                }
                                assert(cash_before >= 0);
                            }
                        }
                    },
                    None => {},
                }
                proof {
                    lemma_batch_snoc(
                        *self, buy_orders(queue@.take(k2 as int)), current_bars@, p_mid,
                        fills0.skip(fills_s.len() as int), port_before, queue@[k2 as int], r,
                        *portfolio, fills@.skip(fills_s.len() as int));
                    assert(buy_orders(queue@.take(k2 as int + 1)) =~= buy_orders(
                        queue@.take(k2 as int)).push(queue@[k2 as int]));
                }
            } else {
                proof {
                    assert(buy_orders(queue@.take(k2 as int + 1)) =~= buy_orders(
                        queue@.take(k2 as int)));
                }
            }
            k2 += 1;
        }
        proof {
            assert(queue@.take(n as int) =~= queue@);
            lemma_batch_concat(
                *self, sell_orders(queue@), buy_orders(queue@), current_bars@, p0, fills_s,
                p_mid, fills@.skip(fills_s.len() as int), *portfolio);
            assert(fills_s + fills@.skip(fills_s.len() as int) =~= fills@);
            assert(queue@ == old(self).orders@);
        }
        fills
    }
}

} // verus!
