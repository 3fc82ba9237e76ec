//! Performance recording and statistics: equity and benchmark curves, fills,
//! drawdown, Sharpe ratio and trade statistics.

use vstd::prelude::*;
use crate::types::{EquityPoint, Fill, OrderSide, PerformanceStats};
use crate::numutil::{clamp_i64, clamp_u128, div_floor_i128, sat_to_i64};

verus! {

/// The recorder: the two curves and the fills seen so far.
pub struct MetricsRecorder {
    pub equity_curve: Vec<EquityPoint>,
    pub fills: Vec<Fill>,
    pub benchmark_curve: Vec<EquityPoint>,
}

/// The running state of the drawdown walk: the highest equity seen and its
/// time, the largest drawdown so far with its period, and the anchor of the
/// drawdown period currently open, if one is.
pub struct DrawdownState {
    pub peak: int,
    pub peak_time: i64,
    pub max_dd: int,
    pub start: Option<i64>,
    pub end: Option<i64>,
    pub cur_start: Option<i64>,
}

/// The drawdown of equity `e` below peak `p`, scaled by one million; zero at
/// or above the peak and for a non-positive peak.
pub open spec fn spec_drawdown(p: int, e: int) -> int {
    if p > 0 {
        (p - e) * 1_000_000 / p
    } else {
        0
    }
}

/// One step of the drawdown walk.
pub open spec fn dd_step(st: DrawdownState, pt: EquityPoint) -> DrawdownState {
    if pt.equity > st.peak {
        DrawdownState {
            peak: pt.equity as int,
            peak_time: pt.datetime,
            max_dd: st.max_dd,
            start: st.start,
            end: st.end,
            cur_start: None,
        }
    } else {
        let anchor = if st.cur_start is None {
            Some(st.peak_time)
        } else {
            st.cur_start
        };
        let dd = spec_drawdown(st.peak, pt.equity as int);
        if dd > st.max_dd {
            DrawdownState {
                peak: st.peak,
                peak_time: st.peak_time,
                max_dd: dd,
                start: anchor,
                end: Some(pt.datetime),
                cur_start: anchor,
            }
        } else {
            DrawdownState {
                peak: st.peak,
                peak_time: st.peak_time,
                max_dd: st.max_dd,
                start: st.start,
                end: st.end,
                cur_start: anchor,
            }
        }
    }
}

/// The drawdown walk over the first `n` points, started from the first point
/// as the initial peak; meaningful when the curve is not empty.
pub open spec fn dd_walk(points: Seq<EquityPoint>, n: int) -> DrawdownState
    decreases n,
{
    if n <= 0 {
        DrawdownState {
            peak: points[0].equity as int,
            peak_time: points[0].datetime,
            max_dd: 0,
            start: None,
            end: None,
            cur_start: None,
        }
    } else {
        dd_step(dd_walk(points, n - 1), points[n - 1])
    }
}

/// The largest drawdown of a curve with the period over which it ran, as the
/// walk over the whole curve leaves them; zeros and `None`s for an empty
/// curve.
pub open spec fn spec_max_drawdown(points: Seq<EquityPoint>) -> (int, Option<i64>, Option<i64>) {
    if points.len() == 0 {
        (0, None, None)
    } else {
        let st = dd_walk(points, points.len() as int);
        (clamp_i64(st.max_dd), st.start, st.end)
    }
}

/// The total return of a curve, scaled by one million: the change of equity
/// over the first point's equity; zero for an empty curve or one starting at
/// or below zero.
pub open spec fn spec_total_return(points: Seq<EquityPoint>) -> int {
    if points.len() == 0 {
        0
    } else {
        let e0 = points[0].equity as int;
        let el = points[points.len() - 1].equity as int;
        if e0 <= 0 {
            0
        } else {
            clamp_i64((el - e0) * 1_000_000 / e0)
        }
    }
}

/// How many of the fills are on `side`.
pub open spec fn count_side(fills: Seq<Fill>, side: OrderSide) -> int
    decreases fills.len(),
{
    if fills.len() == 0 {
        0
    } else {
        count_side(fills.drop_last(), side) + if fills.last().side == side {
            1int
        } else {
            0int
        }
    }
}

impl MetricsRecorder {
    /// A fresh recorder with empty curves and no fills.
    pub fn new() -> (r: MetricsRecorder)
        ensures
            r.equity_curve@.len() == 0,
            r.fills@.len() == 0,
            r.benchmark_curve@.len() == 0,
    {
        MetricsRecorder { equity_curve: Vec::new(), fills: Vec::new(), benchmark_curve: Vec::new() }
    }

    /// Append one equity point.
    pub fn record_equity(&mut self, datetime: i64, equity: i64)
        ensures
            final(self).equity_curve@ == old(self).equity_curve@.push(
                EquityPoint { datetime, equity }),
            final(self).fills == old(self).fills,
            final(self).benchmark_curve == old(self).benchmark_curve,
    {
        self.equity_curve.push(EquityPoint { datetime, equity });
    }

    /// Append one benchmark equity point.
    pub fn record_benchmark(&mut self, datetime: i64, equity: i64)
        ensures
            final(self).benchmark_curve@ == old(self).benchmark_curve@.push(
                EquityPoint { datetime, equity }),
            final(self).fills == old(self).fills,
            final(self).equity_curve == old(self).equity_curve,
    {
        self.benchmark_curve.push(EquityPoint { datetime, equity });
    }

    /// Record one fill.
    pub fn record_fill(&mut self, fill: Fill)
        ensures
            final(self).fills@ == old(self).fills@.push(fill),
            final(self).equity_curve == old(self).equity_curve,
            final(self).benchmark_curve == old(self).benchmark_curve,
    {
        self.fills.push(fill);
    }

    /// Record a batch of fills, in order.
    pub fn record_fills(&mut self, fills: Vec<Fill>)
        ensures
            final(self).fills@ == old(self).fills@ + fills@,
            final(self).equity_curve == old(self).equity_curve,
            final(self).benchmark_curve == old(self).benchmark_curve,
    {
        let mut incoming = fills;
        self.fills.append(&mut incoming);
    }

    /// The equity curve.
    pub fn get_equity_curve(&self) -> (r: &Vec<EquityPoint>)
        ensures
            r == &self.equity_curve,
    {
        &self.equity_curve
    }

    /// The recorded fills.
    pub fn get_fills(&self) -> (r: &Vec<Fill>)
        ensures
            r == &self.fills,
    {
        &self.fills
    }

    /// The benchmark curve.
    pub fn get_benchmark_curve(&self) -> (r: &Vec<EquityPoint>)
        ensures
            r == &self.benchmark_curve,
    {
        &self.benchmark_curve
    }
}

/// The largest drawdown of `points` and its period, by the walk
/// `spec_max_drawdown` describes.
fn max_drawdown_with_period(points: &Vec<EquityPoint>) -> (r: (i64, Option<i64>, Option<i64>))
    ensures
        (r.0 as int, r.1, r.2) == spec_max_drawdown(points@),
{
    if points.len() == 0 {
        return (0, None, None);
    }
    let first = points[0];
    let mut peak: i64 = first.equity;
    let mut peak_time: i64 = first.datetime;
    let mut max_dd: i128 = 0;
    let mut start: Option<i64> = None;
    let mut end: Option<i64> = None;
    let mut cur_start: Option<i64> = None;
    let mut k: usize = 0;
    while k < points.len()
        invariant
            points@.len() > 0,
            k <= points@.len(),
            ({
                let st = dd_walk(points@, k as int);
                peak == st.peak && peak_time == st.peak_time && max_dd == st.max_dd && start
                    == st.start && end == st.end && cur_start == st.cur_start
            }),
        decreases points@.len() - k,
    {
        let pt = points[k];
        if pt.equity > peak {
            peak = pt.equity;
            peak_time = pt.datetime;
            cur_start = None;
        } else {
            let anchor = match cur_start {
                None => Some(peak_time),
                Some(v) => Some(v),
            };
            let dd: i128 = if peak > 0 {
                proof {
                    assert((peak as int - pt.equity as int) * 1_000_000
                        <= (u64::MAX as int) * 1_000_000) by (nonlinear_arith)
                        requires peak as int - pt.equity as int <= u64::MAX as int;
                    assert((peak as int - pt.equity as int) * 1_000_000 >= 0) by (nonlinear_arith)
                        requires peak as int - pt.equity as int >= 0;
                }
                div_floor_i128((peak as i128 - pt.equity as i128) * 1_000_000, peak as i128)
            } else {
                0
            };
            proof {
                assert(dd == spec_drawdown(peak as int, pt.equity as int));
            }
            if dd > max_dd {
                max_dd = dd;
                start = anchor;
                end = Some(pt.datetime);
                cur_start = anchor;
            } else {
                cur_start = anchor;
            }
        }
        k += 1;
    }
    (sat_to_i64(max_dd), start, end)
}

/// The total return of `points`, as `spec_total_return` describes.
fn total_return_of(points: &Vec<EquityPoint>) -> (r: i64)
    ensures
        r as int == spec_total_return(points@),
{
    if points.len() == 0 {
        return 0;
    }
    let e0 = points[0].equity;
    let el = points[points.len() - 1].equity;
    if e0 <= 0 {
        return 0;
    }
    let num: i128 = (el as i128 - e0 as i128) * 1_000_000;
    proof {
        assert((el as int - e0 as int) * 1_000_000 <= (u64::MAX as int) * 1_000_000
            && (el as int - e0 as int) * 1_000_000 >= -((u64::MAX as int) * 1_000_000))
            by (nonlinear_arith)
            requires -(u64::MAX as int) <= el as int - e0 as int <= u64::MAX as int;
    }
    sat_to_i64(div_floor_i128(num, e0 as i128))
}

/// The integer square root: the largest `r` with `r * r <= x`.
pub open spec fn spec_isqrt(x: int) -> int {
    choose|r: int| 0 <= r && #[trigger] (r * r) <= x && x < (r + 1) * (r + 1)
}

/// The characterization determines the root uniquely.
pub proof fn lemma_isqrt_unique(x: int, r: int)
    requires
        0 <= r,
        r * r <= x,
        x < (r + 1) * (r + 1),
    ensures
        spec_isqrt(x) == r,
{
    let w = choose|w: int| 0 <= w && #[trigger] (w * w) <= x && x < (w + 1) * (w + 1);
    assert(0 <= w && w * w <= x && x < (w + 1) * (w + 1));
    assert(w == r) by (nonlinear_arith)
        requires
            0 <= r,
            r * r <= x,
            x < (r + 1) * (r + 1),
            0 <= w,
            w * w <= x,
            x < (w + 1) * (w + 1),
    ;
}

/// The integer square root of `x`.
fn isqrt_u128(x: u128) -> (r: u64)
    ensures
        r as int == spec_isqrt(x as int),
{
    let mut lo: u64 = 0;
    let mut hi: u64 = u64::MAX;
    // Invariant: lo * lo <= x and (hi + 1) * (hi + 1) > x.
    proof {
        assert((u64::MAX as int + 1) * (u64::MAX as int + 1) > u128::MAX as int)
            by (nonlinear_arith);
    }
    while lo < hi
        invariant
            lo <= hi,
            (lo as int) * (lo as int) <= (x as int),
            (x as int) < (hi as int + 1) * (hi as int + 1),
        decreases hi - lo,
    {
        let mid: u64 = lo + (hi - lo) / 2 + 1;
        let sq: u128 = crate::numutil::mul_u64(mid, mid);
        if sq <= x {
            lo = mid;
        } else {
            proof {
                assert((x as int) < (mid as int) * (mid as int));
                assert((mid as int) * (mid as int) <= ((mid as int - 1) + 1) * ((mid as int - 1)
                    + 1)) by (nonlinear_arith);
            }
            hi = mid - 1;
        }
    }
    proof {
        lemma_isqrt_unique(x as int, lo as int);
    }
    lo
}

/// The per-step simple returns of a curve, scaled by one million; steps from
/// a non-positive equity are left out.
pub open spec fn returns_upto(points: Seq<EquityPoint>, n: int) -> Seq<int>
    decreases n,
{
    if n <= 1 {
        Seq::<int>::empty()
    } else {
        let pre = returns_upto(points, n - 1);
        let prev = points[n - 2].equity as int;
        if prev > 0 {
            pre.push((points[n - 1].equity - prev) * 1_000_000 / prev)
        } else {
            pre
        }
    }
}

/// A sum accumulated with each step clamped into `[-i128::MAX, i128::MAX]`.
pub open spec fn sum_sat(xs: Seq<int>) -> int
    decreases xs.len(),
{
    if xs.len() == 0 {
        0
    } else {
        crate::numutil::sym_clamp_i128(sum_sat(xs.drop_last()) + xs.last())
    }
}

/// The sum of squared deviations from `mean`: each deviation clamped
/// symmetrically into the `i128` range, each square and the running total
/// clamped into the `u128` range.
pub open spec fn sq_dev_sum_sat(xs: Seq<int>, mean: int) -> int
    decreases xs.len(),
{
    if xs.len() == 0 {
        0
    } else {
        let dev = crate::numutil::sym_clamp_i128(xs.last() - mean);
        clamp_u128(sq_dev_sum_sat(xs.drop_last(), mean) + clamp_u128(dev * dev))
    }
}

/// The square root of 252 — the customary trading days per year — scaled by
/// one million.
pub const SQRT_252_SCALED: u64 = 15_874_507;

/// The annualized Sharpe ratio of a curve, scaled by one million: the mean of
/// the per-step returns over their standard deviation, times the square root
/// of 252; zero for fewer than two points, no usable returns, or zero
/// standard deviation.
pub open spec fn spec_sharpe(points: Seq<EquityPoint>) -> int {
    if points.len() < 2 {
        0
    } else {
        let rets = returns_upto(points, points.len() as int);
        if rets.len() == 0 {
            0
        } else {
            let mean = sum_sat(rets) / rets.len() as int;
            let variance = sq_dev_sum_sat(rets, mean) / rets.len() as int;
            let std = spec_isqrt(variance);
            if std == 0 {
                0
            } else if mean >= 0 {
                clamp_i64(clamp_u128(mean * SQRT_252_SCALED) / std)
            } else {
                -clamp_i64(clamp_u128((-mean) * SQRT_252_SCALED) / std)
            }
        }
    }
}

/// The Sharpe ratio of `points`, as `spec_sharpe` describes.
fn sharpe_ratio_of(points: &Vec<EquityPoint>) -> (r: i64)
    ensures
        r as int == spec_sharpe(points@),
{
    if points.len() < 2 {
        return 0;
    }
    let mut rets: Vec<i128> = Vec::new();
    let mut total: i128 = 0;
    let mut idx: usize = 1;
    proof {
        assert(returns_upto(points@, 1) =~= Seq::<int>::empty());
    }
    while idx < points.len()
        invariant
            1 <= idx <= points@.len(),
            points@.len() >= 2,
            rets@.map_values(|v: i128| v as int) =~= returns_upto(points@, idx as int),
            total == sum_sat(returns_upto(points@, idx as int)),
        decreases points@.len() - idx,
    {
        let prev = points[idx - 1].equity;
        let ghost pre = returns_upto(points@, idx as int);
        if prev > 0 {
            let num: i128 = (points[idx].equity as i128 - prev as i128) * 1_000_000;
            proof {
                assert((points@[idx as int].equity as int - prev as int) * 1_000_000
                    <= (u64::MAX as int) * 1_000_000
                    && (points@[idx as int].equity as int - prev as int) * 1_000_000
                    >= -((u64::MAX as int) * 1_000_000)) by (nonlinear_arith)
                    requires -(u64::MAX as int) <= points@[idx as int].equity as int
                        - prev as int <= u64::MAX as int;
            }
            let ret = div_floor_i128(num, prev as i128);
            rets.push(ret);
            proof {
                assert(rets@.map_values(|v: i128| v as int) =~= pre.push(ret as int));
                assert(pre.push(ret as int).drop_last() =~= pre);
            }
            total = crate::numutil::sym_add_i128(total, ret);
        }
        idx += 1;
    }
    let cnt = rets.len();
    if cnt == 0 {
        return 0;
    }
    let ghost rets_spec = returns_upto(points@, points@.len() as int);
    let mean: i128 = div_floor_i128(total, cnt as i128);
    proof {
        vstd::arithmetic::div_mod::lemma_div_is_ordered(-(i128::MAX as int), total as int,
            cnt as int);
        vstd::arithmetic::div_mod::lemma_div_is_ordered(total as int, i128::MAX as int,
            cnt as int);
        assert((-(i128::MAX as int)) / (cnt as int) >= -(i128::MAX as int)) by (nonlinear_arith)
            requires cnt >= 1;
        assert((i128::MAX as int) / (cnt as int) <= i128::MAX as int) by (nonlinear_arith)
            requires cnt >= 1;
    }
    let mut var_acc: u128 = 0;
    let mut k2: usize = 0;
    while k2 < cnt
        invariant
            k2 <= cnt,
            cnt == rets@.len(),
            rets@.map_values(|v: i128| v as int) == rets_spec,
            -(i128::MAX as int) <= mean as int <= i128::MAX as int,
            var_acc == sq_dev_sum_sat(rets_spec.take(k2 as int), mean as int),
        decreases cnt - k2,
    {
        proof {
            assert(rets_spec[k2 as int] == rets@[k2 as int] as int);
        }
        let d: i128 = crate::numutil::sym_sub_i128(rets[k2], mean);
        let sq: u128 = if d >= 0 {
            crate::numutil::sat_mul_u128(d as u128, d as u128)
        } else {
            let m: u128 = (-d) as u128;
            proof {
                assert((m as int) * (m as int) == (d as int) * (d as int)) by (nonlinear_arith)
                    requires m as int == -(d as int);
            }
            crate::numutil::sat_mul_u128(m, m)
        };
        var_acc = crate::numutil::sat_add_u128(var_acc, sq);
        proof {
            assert(rets_spec.take(k2 as int + 1).drop_last() =~= rets_spec.take(k2 as int));
            assert(rets_spec.take(k2 as int + 1).last() == rets_spec[k2 as int]);
        }
        k2 += 1;
    }
    proof {
        assert(rets_spec.take(cnt as int) =~= rets_spec);
    }
    let variance: u128 = var_acc / (cnt as u128);
    let std: u64 = isqrt_u128(variance);
    if std == 0 {
        return 0;
    }
    if mean >= 0 {
        let num = crate::numutil::sat_mul_u128(mean as u128, SQRT_252_SCALED as u128);
        let q = num / (std as u128);
        if q > i64::MAX as u128 {
            i64::MAX
        } else {
            q as i64
        }
    } else {
        let m: u128 = (-mean) as u128;
        let num = crate::numutil::sat_mul_u128(m, SQRT_252_SCALED as u128);
        let q = num / (std as u128);
        if q > i64::MAX as u128 {
            -i64::MAX
        } else {
            -(q as i64)
        }
    }
}

/// The running state of the trade-statistics walk: per symbol, the open buy
/// lots not yet matched by sells (quantity and price, oldest first), and the
/// counts and sums of completed profitable and losing round trips.
pub struct TradeState {
    pub queues: Seq<(String, Seq<(u64, u64)>)>,
    pub wins: int,
    pub losses: int,
    pub profit_sum: int,
    pub loss_sum: int,
}

/// Whether a buy queue for `sym` exists.
pub open spec fn has_queue(qs: Seq<(String, Seq<(u64, u64)>)>, sym: Seq<char>) -> bool {
    exists|i: int| 0 <= i < qs.len() && (#[trigger] qs[i]).0@ == sym
}

/// Index of the buy queue for `sym`; meaningful only when `has_queue`.
pub open spec fn queue_idx(qs: Seq<(String, Seq<(u64, u64)>)>, sym: Seq<char>) -> int {
    choose|i: int| 0 <= i < qs.len() && (#[trigger] qs[i]).0@ == sym
}

/// Consume `rem` lots from the front of a buy queue: the remaining queue and
/// the cost basis of the consumed lots, accumulated with saturation.
pub open spec fn consume(q: Seq<(u64, u64)>, rem: int) -> (Seq<(u64, u64)>, int)
    decreases q.len(),
{
    if rem <= 0 || q.len() == 0 {
        (q, 0)
    } else {
        let qty = q[0].0;
        let price = q[0].1;
        let used = if rem < qty { rem } else { qty as int };
        let c = clamp_u128(used * price * 100);
        if used >= qty {
            let rec = consume(q.drop_first(), rem - used);
            (rec.0, clamp_u128(c + rec.1))
        } else {
            (q.update(0, ((qty - used) as u64, price)), c)
        }
    }
}

/// One step of the trade-statistics walk: a buy queues its lots; a sell
/// consumes the oldest lots and, when any cost basis was matched, books the
/// round trip as a win or a loss by its gross profit.
pub open spec fn trade_step(st: TradeState, f: Fill) -> TradeState {
    if f.side == OrderSide::Buy {
        if has_queue(st.queues, f.symbol@) {
            let i = queue_idx(st.queues, f.symbol@);
            TradeState {
                queues: st.queues.update(i, (st.queues[i].0, st.queues[i].1.push(
                    (f.quantity, f.price)))),
                wins: st.wins,
                losses: st.losses,
                profit_sum: st.profit_sum,
                loss_sum: st.loss_sum,
            }
        } else {
            TradeState {
                queues: st.queues.push((f.symbol, seq![(f.quantity, f.price)])),
                wins: st.wins,
                losses: st.losses,
                profit_sum: st.profit_sum,
                loss_sum: st.loss_sum,
            }
        }
    } else {
        if !has_queue(st.queues, f.symbol@) {
            st
        } else {
            let i = queue_idx(st.queues, f.symbol@);
            let rec = consume(st.queues[i].1, f.quantity as int);
            let queues = st.queues.update(i, (st.queues[i].0, rec.0));
            let cost = rec.1;
            if cost > 0 {
                let revenue = crate::execution_engine::spec_fill_amount(f);
                if revenue > cost {
                    TradeState {
                        queues,
                        wins: st.wins + 1,
                        losses: st.losses,
                        profit_sum: clamp_u128(st.profit_sum + (revenue - cost)),
                        loss_sum: st.loss_sum,
                    }
                } else {
                    TradeState {
                        queues,
                        wins: st.wins,
                        losses: st.losses + 1,
                        profit_sum: st.profit_sum,
                        loss_sum: clamp_u128(st.loss_sum + (cost - revenue)),
                    }
                }
            } else {
                TradeState {
                    queues,
                    wins: st.wins,
                    losses: st.losses,
                    profit_sum: st.profit_sum,
                    loss_sum: st.loss_sum,
                }
            }
        }
    }
}

/// The trade-statistics walk over the first `n` fills.
pub open spec fn trade_walk(fills: Seq<Fill>, n: int) -> TradeState
    decreases n,
{
    if n <= 0 {
        TradeState {
            queues: Seq::empty(),
            wins: 0,
            losses: 0,
            profit_sum: 0,
            loss_sum: 0,
        }
    } else {
        trade_step(trade_walk(fills, n - 1), fills[n - 1])
    }
}

/// Win rate and profit/loss ratio of a fill sequence, scaled by one million:
/// wins over completed round trips, and average gross profit over average
/// gross loss — `None` when the average loss is zero but the average profit
/// positive.
pub open spec fn spec_trade_stats(fills: Seq<Fill>) -> (int, Option<i64>) {
    let st = trade_walk(fills, fills.len() as int);
    let total = st.wins + st.losses;
    let win_rate = if total > 0 {
        st.wins * 1_000_000 / total
    } else {
        0
    };
    let ratio = if st.losses > 0 && st.loss_sum > 0 {
        if st.wins == 0 {
            Some(0i64)
        } else {
            let num = clamp_u128(clamp_u128(st.profit_sum * st.losses) * 1_000_000);
            let den = clamp_u128(st.loss_sum * st.wins);
            Some(clamp_i64(num / den) as i64)
        }
    } else if st.profit_sum > 0 {
        None
    } else {
        Some(0i64)
    };
    (win_rate, ratio)
}

/// The ghost view of the executable buy queues.
pub open spec fn queues_view(qs: Seq<(String, Vec<(u64, u64)>)>) -> Seq<(String, Seq<(u64, u64)>)> {
    qs.map_values(|e: (String, Vec<(u64, u64)>)| (e.0, e.1@))
}

/// The consumed cost basis is never negative.
pub proof fn lemma_consume_nonneg(q: Seq<(u64, u64)>, rem: int)
    ensures
        consume(q, rem).1 >= 0,
    decreases q.len(),
{
    if !(rem <= 0 || q.len() == 0) {
        let qty = q[0].0;
        let used = if rem < qty { rem } else { qty as int };
        if used >= qty {
            lemma_consume_nonneg(q.drop_first(), rem - used);
        }
    }
}

impl MetricsRecorder {
    /// Win rate and profit/loss ratio of the recorded fills, by FIFO lot
    /// matching per symbol, as `spec_trade_stats` describes.
    #[verifier::loop_isolation(false)]
    fn calculate_trade_stats(&self) -> (r: (i64, Option<i64>))
        ensures
            (r.0 as int, r.1) == spec_trade_stats(self.fills@),
    {
        let mut queues: Vec<(String, Vec<(u64, u64)>)> = Vec::new();
        let mut wins: usize = 0;
        let mut losses: usize = 0;
        let mut profit_sum: u128 = 0;
        let mut loss_sum: u128 = 0;
        let n = self.fills.len();
        let mut k: usize = 0;
        while k < n
            invariant
                n == self.fills@.len(),
                k <= n,
                ({
                    let st = trade_walk(self.fills@, k as int);
                    queues_view(queues@) == st.queues && wins == st.wins && losses == st.losses
                        && profit_sum == st.profit_sum && loss_sum == st.loss_sum
                }),
                wins + losses <= k,
                forall|a: int, b: int|
                    0 <= a < b < queues@.len() ==> (#[trigger] queues@[a]).0@ != (
                    #[trigger] queues@[b]).0@,
            decreases n - k,
        {
            let ghost st0 = trade_walk(self.fills@, k as int);
            let ghost qs0 = queues@;
            let f = &self.fills[k];
            // Find this symbol's queue.
            let mut qi: usize = 0;
            let mut found = false;
            while qi < queues.len() && !found
                invariant
                    qi <= queues@.len(),
                    !found ==> forall|i: int|
                        0 <= i < qi ==> (#[trigger] queues@[i]).0@ != f.symbol@,
                    found ==> qi < queues@.len() && queues@[qi as int].0@ == f.symbol@,
                decreases queues@.len() - qi + if found { 0int } else { 1int },
            {
                if crate::types::str_eq(queues[qi].0.as_str(), f.symbol.as_str()) {
                    found = true;
                } else {
                    qi += 1;
                }
            }
            proof {
                if found {
                    assert(queues_view(queues@)[qi as int].0@ == f.symbol@);
                    assert(has_queue(st0.queues, f.symbol@));
                    let j = queue_idx(st0.queues, f.symbol@);
                    assert(st0.queues[j].0@ == f.symbol@);
                    assert(queues_view(queues@)[j].0@ == f.symbol@);
                    assert(queues@[j].0@ == f.symbol@);
                    assert(j == qi as int);
                } else {
                    assert(!has_queue(st0.queues, f.symbol@)) by {
                        if has_queue(st0.queues, f.symbol@) {
                            let j = queue_idx(st0.queues, f.symbol@);
                            assert(st0.queues[j].0@ == f.symbol@);
                            assert(queues@[j].0@ == f.symbol@);
                        }
                    }
                }
            }
            if matches!(f.side, OrderSide::Buy) {
                if found {
                    let mut tmp: (String, Vec<(u64, u64)>) = (String::new(), Vec::new());
                    queues.set_and_swap(qi, &mut tmp);
                    tmp.1.push((f.quantity, f.price));
                    queues.set_and_swap(qi, &mut tmp);
                    proof {
                        assert(queues_view(queues@) =~= trade_walk(
                            self.fills@, k as int + 1).queues);
                        assert forall|a: int, b: int|
                            0 <= a < b < queues@.len() implies (#[trigger] queues@[a]).0@ != (
                            #[trigger] queues@[b]).0@ by {
                            assert(queues@[a].0 == qs0[a].0);
                            assert(queues@[b].0 == qs0[b].0);
                        }
                    }
                } else {
                    let mut nv: Vec<(u64, u64)> = Vec::new();
                    nv.push((f.quantity, f.price));
                    let key = f.symbol.clone();
                    queues.push((key, nv));
                    proof {
                        assert(nv@ =~= seq![(f.quantity, f.price)]);
                        assert(queues_view(queues@) =~= trade_walk(
                            self.fills@, k as int + 1).queues);
                        let m = qs0.len() as int;
                        assert forall|a: int, b: int|
                            0 <= a < b < queues@.len() implies (#[trigger] queues@[a]).0@ != (
                            #[trigger] queues@[b]).0@ by {
                            if b < m {
                                assert(queues@[a].0 == qs0[a].0);
                                assert(queues@[b].0 == qs0[b].0);
                            } else {
                                assert(queues@[b].0@ == f.symbol@);
                                if a < m {
                                    assert(queues@[a].0 == qs0[a].0);
                                }
                            }
                        }
                    }
                }
            } else {
                if found {
                    let mut tmp: (String, Vec<(u64, u64)>) = (String::new(), Vec::new());
                    queues.set_and_swap(qi, &mut tmp);
                    let ghost q0 = tmp.1@;
                    let ghost rem0 = f.quantity as int;
                    let mut rem: u64 = f.quantity;
                    let mut cost: u128 = 0;
                    proof {
                        lemma_consume_nonneg(q0, rem0);
                    }
                    while rem > 0 && tmp.1.len() > 0
                        invariant
                            tmp.0 == qs0[qi as int].0,
                            consume(q0, rem0).0 == consume(tmp.1@, rem as int).0,
                            consume(q0, rem0).1 == clamp_u128(
                                cost + consume(tmp.1@, rem as int).1),
                        decreases tmp.1@.len() + rem,
                    {
                        let qty = tmp.1[0].0;
                        let price = tmp.1[0].1;
                        let used: u64 = if rem < qty {
                            rem
                        } else {
                            qty
                        };
                        let c: u128 = crate::numutil::sat_mul_u128(
                            crate::numutil::mul_u64(used, price), 100);
                        proof {
                            lemma_consume_nonneg(tmp.1@.drop_first(), rem as int - used as int);
                            crate::numutil::lemma_clamp_add_assoc(
                                cost as int, c as int, consume(
                                    tmp.1@.drop_first(), rem as int - used as int).1);
                        }
                        cost = crate::numutil::sat_add_u128(cost, c);
                        if used >= qty {
                            tmp.1.remove(0);
                            rem = rem - used;
                        } else {
                            proof {
                                assert(consume(q0, rem0).0 == tmp.1@.update(
                                    0, ((qty - used) as u64, price)));
                                assert(consume(q0, rem0).1 == clamp_u128(cost as int + 0));
                            }
                            tmp.1.set(0, (qty - used, price));
                            rem = 0;
                        }
                    }
                    proof {
                        assert(consume(q0, rem0).0 == tmp.1@);
                        assert(consume(q0, rem0).1 == cost as int);
                    }
                    queues.set_and_swap(qi, &mut tmp);
                    proof {
                        assert(queues_view(queues@) =~= trade_walk(
                            self.fills@, k as int + 1).queues);
                        assert forall|a: int, b: int|
                            0 <= a < b < queues@.len() implies (#[trigger] queues@[a]).0@ != (
                            #[trigger] queues@[b]).0@ by {
                            assert(queues@[a].0 == qs0[a].0);
                            assert(queues@[b].0 == qs0[b].0);
                        }
                    }
                    if cost > 0 {
                        let revenue: u128 = crate::numutil::sat_mul_u128(
                            crate::numutil::mul_u64(f.quantity, f.price), 100);
                        proof {
                            assert(revenue == crate::execution_engine::spec_fill_amount(
                                self.fills@[k as int]));
                        }
                        if revenue > cost {
                            wins += 1;
                            profit_sum = crate::numutil::sat_add_u128(profit_sum, revenue - cost);
                        } else {
                            losses += 1;
                            loss_sum = crate::numutil::sat_add_u128(loss_sum, cost - revenue);
                        }
                    }
                }
            }
            k += 1;
        }
        proof {
            assert(trade_walk(self.fills@, n as int) == trade_walk(
                self.fills@, self.fills@.len() as int));
        }
        let total: usize = wins + losses;
        let win_rate: i64 = if total > 0 {
            let wr: u128 = crate::numutil::mul_u64(wins as u64, 1_000_000) / (total as u128);
            proof {
                vstd::arithmetic::div_mod::lemma_div_is_ordered(
                    (wins as int) * 1_000_000, (total as int) * 1_000_000, total as int);
                vstd::arithmetic::div_mod::lemma_div_by_multiple(1_000_000, total as int);
                assert((total as int) * 1_000_000 == 1_000_000 * (total as int))
                    by (nonlinear_arith);
                assert((wins as int) * 1_000_000 <= (total as int) * 1_000_000)
                    by (nonlinear_arith)
                    requires wins <= total;
            }
            wr as i64
        } else {
            0
        };
        let ratio: Option<i64> = if losses > 0 && loss_sum > 0 {
            if wins == 0 {
                Some(0)
            } else {
                let num: u128 = crate::numutil::sat_mul_u128(
                    crate::numutil::sat_mul_u128(profit_sum, losses as u128), 1_000_000);
                let den: u128 = crate::numutil::sat_mul_u128(loss_sum, wins as u128);
                proof {
                    assert((loss_sum as int) * (wins as int) >= 1) by (nonlinear_arith)
                        requires loss_sum >= 1 && wins >= 1;
                }
                let q = num / den;
                if q > i64::MAX as u128 {
                    Some(i64::MAX)
                } else {
                    Some(q as i64)
                }
            }
        } else if profit_sum > 0 {
            None
        } else {
            Some(0)
        };
        (win_rate, ratio)
    }

    /// How many recorded fills bought and how many sold.
    fn count_sides(&self) -> (r: (usize, usize))
        ensures
            r.0 as int == count_side(self.fills@, OrderSide::Buy),
            r.1 as int == count_side(self.fills@, OrderSide::Sell),
    {
        let mut buys: usize = 0;
        let mut sells: usize = 0;
        let mut k: usize = 0;
        while k < self.fills.len()
            invariant
                k <= self.fills@.len(),
                buys as int == count_side(self.fills@.take(k as int), OrderSide::Buy),
                sells as int == count_side(self.fills@.take(k as int), OrderSide::Sell),
                buys + sells <= k,
            decreases self.fills@.len() - k,
        {
            proof {
                assert(self.fills@.take(k as int + 1).drop_last() =~= self.fills@.take(k as int));
                assert(self.fills@.take(k as int + 1).last() == self.fills@[k as int]);
            }
            if matches!(self.fills[k].side, OrderSide::Buy) {
                buys += 1;
            } else {
                sells += 1;
            }
            k += 1;
        }
        proof {
            assert(self.fills@.take(self.fills@.len() as int) =~= self.fills@);
        }
        (buys, sells)
    }

    /// The summary statistics of the recorded curves and fills.  All-zero
    /// statistics for an empty equity curve; benchmark fields are `None` for
    /// an empty benchmark curve.
    pub fn calculate_stats(&self) -> (r: PerformanceStats)
        ensures
            self.equity_curve@.len() == 0 ==> r == (PerformanceStats {
                total_return: 0,
                max_drawdown: 0,
                max_drawdown_start: None,
                max_drawdown_end: None,
                sharpe_ratio: 0,
                win_rate: 0,
                profit_loss_ratio: Some(0),
                open_count: 0,
                close_count: 0,
                benchmark_return: None,
                benchmark_max_drawdown: None,
                benchmark_max_drawdown_start: None,
                benchmark_max_drawdown_end: None,
            }),
            self.equity_curve@.len() > 0 ==> r.total_return as int == spec_total_return(
                self.equity_curve@) && (r.max_drawdown as int, r.max_drawdown_start,
            r.max_drawdown_end) == spec_max_drawdown(self.equity_curve@) && r.sharpe_ratio as int
                == spec_sharpe(self.equity_curve@) && (r.win_rate as int, r.profit_loss_ratio)
                == spec_trade_stats(self.fills@) && r.open_count as int == count_side(
                self.fills@, OrderSide::Buy) && r.close_count as int == count_side(
                self.fills@, OrderSide::Sell) && r.benchmark_return == (
            if self.benchmark_curve@.len() == 0 {
                None::<i64>
            } else {
                Some(spec_total_return(self.benchmark_curve@) as i64)
            }) && ((match r.benchmark_max_drawdown {
                Some(v) => v as int,
                None => 0,
            }, r.benchmark_max_drawdown_start, r.benchmark_max_drawdown_end) == (
            if self.benchmark_curve@.len() == 0 {
                (0int, None::<i64>, None::<i64>)
            } else {
                spec_max_drawdown(self.benchmark_curve@)
            })) && (r.benchmark_max_drawdown is Some <==> self.benchmark_curve@.len() > 0),
    {
        if self.equity_curve.len() == 0 {
            return PerformanceStats {
                total_return: 0,
                max_drawdown: 0,
                max_drawdown_start: None,
                max_drawdown_end: None,
                sharpe_ratio: 0,
                win_rate: 0,
                profit_loss_ratio: Some(0),
                open_count: 0,
                close_count: 0,
                benchmark_return: None,
                benchmark_max_drawdown: None,
                benchmark_max_drawdown_start: None,
                benchmark_max_drawdown_end: None,
            };
        }
        let total_return = total_return_of(&self.equity_curve);
        let (max_dd, dd_start, dd_end) = max_drawdown_with_period(&self.equity_curve);
        let sharpe = sharpe_ratio_of(&self.equity_curve);
        let (win_rate, profit_loss_ratio) = self.calculate_trade_stats();
        let (open_count, close_count) = self.count_sides();
        let (benchmark_return, benchmark_max_drawdown, benchmark_dd_start, benchmark_dd_end) =
            if self.benchmark_curve.len() == 0 {
            (None, None, None, None)
        } else {
            let br = total_return_of(&self.benchmark_curve);
            let (bdd, bs, be) = max_drawdown_with_period(&self.benchmark_curve);
            (Some(br), Some(bdd), bs, be)
        };
        PerformanceStats {
            total_return,
            max_drawdown: max_dd,
            max_drawdown_start: dd_start,
            max_drawdown_end: dd_end,
            sharpe_ratio: sharpe,
            win_rate,
            profit_loss_ratio,
            open_count,
            close_count,
            benchmark_return,
            benchmark_max_drawdown,
            benchmark_max_drawdown_start: benchmark_dd_start,
            benchmark_max_drawdown_end: benchmark_dd_end,
        }
    }
}

} // verus!
