//! What changes of the book and trades count for, in real numbers.
use vstd::prelude::*;

#[allow(unused_imports)]
use crate::laws::factors::summed;
#[allow(unused_imports)]
use crate::market::book::{lemma_position, position, prices_eq_spec, Level, TopView, MODEL_LEVELS};
#[allow(unused_imports)]
use crate::market::flow::{
    gained, lemma_target_exists, nothing, qty_at_spec, takes, target, Aggressor, FlowView, Matching,
    PendingTrade, PublicTrade, SideMatch,
};
#[allow(unused_imports)]
use crate::number::{zero_spec, Real};
#[allow(unused_imports)]
use crate::reals::{
    big_sum, exact, fraction, lemma_constants, lemma_ops, lemma_ratio, lemma_sum_same,
    lemma_sum_single, lemma_sum_zero, read, size, Reading,
};

verus! {

/// What a number exceeds zero by.
pub open spec fn above_zero(x: real) -> real {
    if x > 0 as real {
        x
    } else {
        0 as real
    }
}

/// Is level `j` the first one at the price?
pub open spec fn first_at<T: Real>(side: Seq<Level<T>>, price: T, j: int) -> bool {
    &&& 0 <= j < side.len()
    &&& prices_eq_spec(side[j].price, price)
    &&& forall|k: int| 0 <= k < j ==> !prices_eq_spec((#[trigger] side[k]).price, price)
}

/// Is there no level at the price?
pub open spec fn unlisted<T: Real>(side: Seq<Level<T>>, price: T) -> bool {
    forall|k: int| 0 <= k < side.len() ==> !prices_eq_spec((#[trigger] side[k]).price, price)
}

proof fn lemma_found<T: Real>(side: Seq<Level<T>>, price: T, j: int)
    ensures
        first_at(side, price, j) ==> position(side, price) == Some(j),
        unlisted(side, price) ==> position(side, price) is None,
        position(side, price) matches Some(i) ==> first_at(side, price, i),
{
    lemma_position(side, price);
    if first_at(side, price, j) {
        match position(side, price) {
            Some(i) => {
                if i < j {
                    assert(!prices_eq_spec(side[i].price, price));
                } else if j < i {
                    assert(!prices_eq_spec(side[j].price, price));
                }
            },
            None => {
                assert(!prices_eq_spec(side[j].price, price));
            },
        }
    }
    if unlisted(side, price) {
        if let Some(i) = position(side, price) {
            assert(!prices_eq_spec(side[i].price, price));
        }
    }
}

proof fn lemma_gained<T: Real>(
    v: Reading<T>,
    from: Seq<Level<T>>,
    to: Seq<Level<T>>,
    i: int,
    j: int,
)
    requires
        exact(v),
        0 <= i < to.len(),
    ensures
        v(gained(from, to)[i]) >= 0 as real,
        first_at(from, to[i].price, j) ==> v(gained(from, to)[i]) == above_zero(
            v(to[i].qty) - v(from[j].qty),
        ),
        unlisted(from, to[i].price) ==> v(gained(from, to)[i]) == above_zero(v(to[i].qty)),
{
    lemma_constants(v);
    lemma_found(from, to[i].price, j);
    let held = qty_at_spec(from, to[i].price);
    lemma_ops(v, held, to[i].qty);
    lemma_ops(v, to[i].qty, held);
}

/// What a level holds more than before was added; a price that was not listed
/// was added whole.
pub proof fn lemma_added<T: Real>(
    v: Reading<T>,
    before: TopView<T>,
    after: TopView<T>,
    i: int,
    j: int,
)
    requires
        exact(v),
        before.bids.len() == MODEL_LEVELS,
        before.asks.len() == MODEL_LEVELS,
        after.bids.len() == MODEL_LEVELS,
        after.asks.len() == MODEL_LEVELS,
        0 <= i < MODEL_LEVELS,
    ensures
        ({
            let f = FlowView::of_delta(before, after);
            let (bid, ask) = (after.bids[i], after.asks[i]);
            &&& first_at(before.bids, bid.price, j) ==> v(f.add_bid[i]) == above_zero(
                v(bid.qty) - v(before.bids[j].qty),
            )
            &&& first_at(before.asks, ask.price, j) ==> v(f.add_ask[i]) == above_zero(
                v(ask.qty) - v(before.asks[j].qty),
            )
            &&& unlisted(before.bids, bid.price) ==> v(f.add_bid[i]) == above_zero(v(bid.qty))
            &&& unlisted(before.asks, ask.price) ==> v(f.add_ask[i]) == above_zero(v(ask.qty))
            &&& f.n_add_bid[i] == if v(f.add_bid[i]) > 0 as real {
                1u32
            } else {
                0u32
            }
            &&& f.n_add_ask[i] == if v(f.add_ask[i]) > 0 as real {
                1u32
            } else {
                0u32
            }
        }),
{
    lemma_constants(v);
    lemma_gained(v, before.bids, after.bids, i, j);
    lemma_gained(v, before.asks, after.asks, i, j);
    let (bid, ask) = (after.bids[i], after.asks[i]);
    let (hb, ha) = (qty_at_spec(before.bids, bid.price), qty_at_spec(before.asks, ask.price));
    lemma_ops(v, hb, bid.qty);
    lemma_ops(v, bid.qty, hb);
    lemma_ops(v, ha, ask.qty);
    lemma_ops(v, ask.qty, ha);
}

/// What a level holds less than before was cancelled where no trade explains
/// it; a price that is not listed any more was cancelled whole. Nothing was
/// executed.
pub proof fn lemma_cancelled<T: Real>(
    v: Reading<T>,
    before: TopView<T>,
    after: TopView<T>,
    i: int,
    j: int,
)
    requires
        exact(v),
        before.bids.len() == MODEL_LEVELS,
        before.asks.len() == MODEL_LEVELS,
        after.bids.len() == MODEL_LEVELS,
        after.asks.len() == MODEL_LEVELS,
        0 <= i < MODEL_LEVELS,
    ensures
        ({
            let f = FlowView::of_delta(before, after);
            let (bid, ask) = (before.bids[i], before.asks[i]);
            &&& first_at(after.bids, bid.price, j) ==> v(f.cancel_bid[i]) == above_zero(
                v(bid.qty) - v(after.bids[j].qty),
            )
            &&& first_at(after.asks, ask.price, j) ==> v(f.cancel_ask[i]) == above_zero(
                v(ask.qty) - v(after.asks[j].qty),
            )
            &&& unlisted(after.bids, bid.price) ==> v(f.cancel_bid[i]) == above_zero(v(bid.qty))
            &&& unlisted(after.asks, ask.price) ==> v(f.cancel_ask[i]) == above_zero(v(ask.qty))
            &&& f.n_cancel_bid[i] == if v(f.cancel_bid[i]) > 0 as real {
                1u32
            } else {
                0u32
            }
            &&& f.n_cancel_ask[i] == if v(f.cancel_ask[i]) > 0 as real {
                1u32
            } else {
                0u32
            }
            &&& v(f.exec_bid[i]) == 0 as real
            &&& v(f.exec_ask[i]) == 0 as real
        }),
{
    lemma_constants(v);
    lemma_gained(v, after.bids, before.bids, i, j);
    lemma_gained(v, after.asks, before.asks, i, j);
    let f = FlowView::of_delta(before, after);
    lemma_ops(v, zero_spec::<T>(), f.cancel_bid[i]);
    lemma_ops(v, zero_spec::<T>(), f.cancel_ask[i]);
}

/// What is added and what is left, taken together, is all that happened.
pub proof fn lemma_additions_apart<T: Real>(v: Reading<T>, f: FlowView<T>, i: int)
    requires
        exact(v),
        0 <= i < MODEL_LEVELS,
    ensures
        ({
            let (a, b) = (f.additions(), f.without_additions());
            &&& v(a.add_bid[i]) + v(b.add_bid[i]) == v(f.add_bid[i])
            &&& v(a.add_ask[i]) + v(b.add_ask[i]) == v(f.add_ask[i])
            &&& v(a.cancel_bid[i]) + v(b.cancel_bid[i]) == v(f.cancel_bid[i])
            &&& v(a.cancel_ask[i]) + v(b.cancel_ask[i]) == v(f.cancel_ask[i])
            &&& v(a.exec_bid[i]) + v(b.exec_bid[i]) == v(f.exec_bid[i])
            &&& v(a.exec_ask[i]) + v(b.exec_ask[i]) == v(f.exec_ask[i])
            &&& v(a.cancel_bid[i]) == 0 as real
            &&& v(a.cancel_ask[i]) == 0 as real
            &&& v(b.add_bid[i]) == 0 as real
            &&& v(b.add_ask[i]) == 0 as real
        }),
{
    lemma_constants(v);
}

/// Is this side sound after `n` trades, and does it account for all that the
/// levels lost?
spec fn accounts<T: Real>(v: Reading<T>, side: SideMatch<T>, lost: Seq<T>, n: int) -> bool {
    &&& side.dec.len() == MODEL_LEVELS
    &&& side.taken.len() == MODEL_LEVELS
    &&& side.n_exec.len() == MODEL_LEVELS
    &&& forall|i: int|
        0 <= i < MODEL_LEVELS ==> {
            &&& v(#[trigger] side.dec[i]) >= 0 as real
            &&& v(side.taken[i]) >= 0 as real
            &&& v(side.dec[i]) + v(side.taken[i]) == v(lost[i])
            &&& side.n_exec[i] <= n
            &&& side.n_exec[i] > 0 <==> v(side.taken[i]) > 0 as real
        }
}

proof fn lemma_side_after<T: Real>(
    v: Reading<T>,
    side: SideMatch<T>,
    lost: Seq<T>,
    levels: Seq<Level<T>>,
    price: T,
    qty: T,
    n: int,
)
    requires
        exact(v),
        accounts(v, side, lost, n),
        n < u32::MAX,
        levels.len() == MODEL_LEVELS,
        v(qty) >= 0 as real,
    ensures
        accounts(v, side.after(levels, price, qty), lost, n + 1),
        summed(read(v, side.after(levels, price, qty).taken)) + v(side.unmet(levels, price, qty))
            == summed(read(v, side.taken)) + v(qty),
        v(side.unmet(levels, price, qty)) >= 0 as real,
{
    lemma_constants(v);
    lemma_position(levels, price);
    let next = side.after(levels, price, qty);
    assert forall|k: int| 0 <= k < MODEL_LEVELS implies v(#[trigger] side.dec[k]) >= 0 as real
        && side.n_exec[k] <= n + 1 by {}
    if let Some(i) = position(levels, price) {
        let d = side.dec[i];
        let take = takes(qty, side.dec, i);
        lemma_ops(v, qty, qty);
        lemma_ops(v, d, d);
        lemma_ops(v, d, qty);
        lemma_ops(v, zero_spec::<T>(), take);
        lemma_ops(v, d, take);
        lemma_ops(v, qty, take);
        lemma_ops(v, side.taken[i], take);
        assert(v(side.dec[i]) >= 0 as real);
        if v(take) > 0 as real {
            assert forall|k: int| 0 <= k < MODEL_LEVELS implies {
                &&& v(#[trigger] next.dec[k]) >= 0 as real
                &&& v(next.taken[k]) >= 0 as real
                &&& v(next.dec[k]) + v(next.taken[k]) == v(lost[k])
                &&& next.n_exec[k] <= n + 1
                &&& next.n_exec[k] > 0 <==> v(next.taken[k]) > 0 as real
            } by {
                assert(v(side.dec[k]) >= 0 as real);
            }
            let more = |k: int|
                if k == i {
                    v(take)
                } else {
                    0 as real
                };
            lemma_sum_single(more, MODEL_LEVELS as int, i);
            crate::reals::lemma_sum_plus(
                read(v, side.taken),
                more,
                read(v, next.taken),
                MODEL_LEVELS as int,
            );
        }
    }
}

/// The quantities of trades.
pub open spec fn quantities<T>(v: Reading<T>, trades: Seq<PendingTrade<T>>) -> spec_fn(int) -> real {
    |i: int| v(trades[i].qty)
}

proof fn lemma_run<T: Real>(
    v: Reading<T>,
    before: TopView<T>,
    after: TopView<T>,
    trades: Seq<PendingTrade<T>>,
)
    requires
        exact(v),
        trades.len() <= u32::MAX,
        before.bids.len() == MODEL_LEVELS,
        before.asks.len() == MODEL_LEVELS,
        forall|i: int| 0 <= i < trades.len() ==> v((#[trigger] trades[i]).qty) >= 0 as real,
    ensures
        ({
            let m = Matching::run(before, after, trades);
            let n = trades.len() as int;
            let traded = big_sum(quantities(v, trades), n);
            let executed = summed(read(v, m.bid.taken)) + summed(read(v, m.ask.taken));
            let left = big_sum(quantities(v, m.leftover), m.leftover.len() as int);
            &&& accounts(v, m.bid, gained(after.bids, before.bids), n)
            &&& accounts(v, m.ask, gained(after.asks, before.asks), n)
            &&& executed + left <= traded
            &&& traded <= executed + left + n as real * fraction(1, 1_000_000_000_000)
        }),
    decreases trades.len(),
{
    lemma_constants(v);
    let tiny = fraction(1, 1_000_000_000_000);
    if trades.len() == 0 {
        let m = Matching::start(before, after);
        let (lb, la) = (gained(after.bids, before.bids), gained(after.asks, before.asks));
        assert forall|i: int| 0 <= i < MODEL_LEVELS implies {
            &&& v(#[trigger] m.bid.dec[i]) >= 0 as real
            &&& v(m.bid.taken[i]) >= 0 as real
            &&& v(m.bid.dec[i]) + v(m.bid.taken[i]) == v(lb[i])
            &&& m.bid.n_exec[i] <= 0
            &&& m.bid.n_exec[i] > 0 <==> v(m.bid.taken[i]) > 0 as real
        } by {
            lemma_gained(v, after.bids, before.bids, i, 0);
        }
        assert forall|i: int| 0 <= i < MODEL_LEVELS implies {
            &&& v(#[trigger] m.ask.dec[i]) >= 0 as real
            &&& v(m.ask.taken[i]) >= 0 as real
            &&& v(m.ask.dec[i]) + v(m.ask.taken[i]) == v(la[i])
            &&& m.ask.n_exec[i] <= 0
            &&& m.ask.n_exec[i] > 0 <==> v(m.ask.taken[i]) > 0 as real
        } by {
            lemma_gained(v, after.asks, before.asks, i, 0);
        }
        lemma_sum_zero(read(v, nothing::<T>()), MODEL_LEVELS as int);
        crate::laws::arithmetic::lemma_times_zero(tiny);
    } else {
        let front = trades.drop_last();
        let t = trades.last();
        assert forall|i: int| 0 <= i < front.len() implies v((#[trigger] front[i]).qty)
            >= 0 as real by {
            assert(front[i] == trades[i]);
        }
        lemma_run(v, before, after, front);
        let m = Matching::run(before, after, front);
        assert(trades[trades.len() - 1] == t);
        let unmet = match t.aggressor {
            Aggressor::Sell => m.bid.unmet(before.bids, t.price, t.qty),
            Aggressor::Buy => m.ask.unmet(before.asks, t.price, t.qty),
        };
        match t.aggressor {
            Aggressor::Sell => {
                lemma_side_after(
                    v,
                    m.bid,
                    gained(after.bids, before.bids),
                    before.bids,
                    t.price,
                    t.qty,
                    front.len() as int,
                );
            },
            Aggressor::Buy => {
                lemma_side_after(
                    v,
                    m.ask,
                    gained(after.asks, before.asks),
                    before.asks,
                    t.price,
                    t.qty,
                    front.len() as int,
                );
            },
        }
        lemma_ops(v, crate::number::eps_spec::<T>(), unmet);
        lemma_sum_same(quantities(v, front), quantities(v, trades), front.len() as int);
        let next = m.step(before, t);
        lemma_sum_same(
            quantities(v, m.leftover),
            quantities(v, next.leftover),
            m.leftover.len() as int,
        );
        let k = front.len() as real;
        crate::laws::arithmetic::lemma_spread_out(tiny, k, 1 as real);
        crate::laws::arithmetic::lemma_times_one(tiny);
        assert(trades.len() as real == k + 1 as real);
    }
}

/// All that a level lost was either executed or cancelled, and neither is below
/// zero, whatever was traded.
pub proof fn lemma_losses_accounted<T: Real>(
    v: Reading<T>,
    before: TopView<T>,
    after: TopView<T>,
    trades: Seq<PendingTrade<T>>,
    i: int,
)
    requires
        exact(v),
        trades.len() <= u32::MAX,
        before.bids.len() == MODEL_LEVELS,
        before.asks.len() == MODEL_LEVELS,
        forall|i: int| 0 <= i < trades.len() ==> v((#[trigger] trades[i]).qty) >= 0 as real,
        0 <= i < MODEL_LEVELS,
    ensures
        ({
            let f = Matching::run(before, after, trades).flow(before, after);
            let alone = FlowView::of_delta(before, after);
            &&& v(f.cancel_bid[i]) + v(f.exec_bid[i]) == v(alone.cancel_bid[i])
            &&& v(f.cancel_ask[i]) + v(f.exec_ask[i]) == v(alone.cancel_ask[i])
            &&& v(f.cancel_bid[i]) >= 0 as real
            &&& v(f.cancel_ask[i]) >= 0 as real
            &&& v(f.exec_bid[i]) >= 0 as real
            &&& v(f.exec_ask[i]) >= 0 as real
            &&& v(f.add_bid[i]) == v(alone.add_bid[i])
            &&& v(f.add_ask[i]) == v(alone.add_ask[i])
            &&& f.n_exec_bid[i] > 0 <==> v(f.exec_bid[i]) > 0 as real
            &&& f.n_exec_ask[i] > 0 <==> v(f.exec_ask[i]) > 0 as real
            &&& f.n_exec_bid[i] <= trades.len()
            &&& f.n_exec_ask[i] <= trades.len()
        }),
{
    lemma_run(v, before, after, trades);
    let m = Matching::run(before, after, trades);
    assert(v(m.bid.dec[i]) >= 0 as real);
    assert(v(m.ask.dec[i]) >= 0 as real);
}

/// All that was traded was either executed or is left over, but for what is
/// next to nothing of each trade.
pub proof fn lemma_trades_accounted<T: Real>(
    v: Reading<T>,
    before: TopView<T>,
    after: TopView<T>,
    trades: Seq<PendingTrade<T>>,
)
    requires
        exact(v),
        trades.len() <= u32::MAX,
        before.bids.len() == MODEL_LEVELS,
        before.asks.len() == MODEL_LEVELS,
        forall|i: int| 0 <= i < trades.len() ==> v((#[trigger] trades[i]).qty) >= 0 as real,
    ensures
        ({
            let m = Matching::run(before, after, trades);
            let f = m.flow(before, after);
            let traded = big_sum(quantities(v, trades), trades.len() as int);
            let executed = summed(read(v, f.exec_bid)) + summed(read(v, f.exec_ask));
            let left = big_sum(quantities(v, m.leftover), m.leftover.len() as int);
            &&& executed + left <= traded
            &&& traded <= executed + left + trades.len() as real * fraction(1, 1_000_000_000_000)
        }),
{
    lemma_run(v, before, after, trades);
}

/// A trade on its own counts with its whole quantity: a buy at the asks, a sell
/// at the bids, at one level, and nothing else happens.
pub proof fn lemma_trade_alone<T: Real>(v: Reading<T>, top: TopView<T>, t: PendingTrade<T>)
    requires
        exact(v),
        top.bids.len() == MODEL_LEVELS,
        top.asks.len() == MODEL_LEVELS,
    ensures
        ({
            let f = FlowView::of_trade(top, t);
            let (bids, asks) = (summed(read(v, f.exec_bid)), summed(read(v, f.exec_ask)));
            &&& t.aggressor == Aggressor::Buy ==> asks == v(t.qty) && bids == 0 as real
            &&& t.aggressor == Aggressor::Sell ==> bids == v(t.qty) && asks == 0 as real
            &&& forall|i: int| #![auto]
                0 <= i < MODEL_LEVELS ==> {
                    &&& v(f.add_bid[i]) == 0 as real
                    &&& v(f.add_ask[i]) == 0 as real
                    &&& v(f.cancel_bid[i]) == 0 as real
                    &&& v(f.cancel_ask[i]) == 0 as real
                }
            &&& forall|i: int|
                first_at(top.asks, t.price, i) && t.aggressor == Aggressor::Buy ==> v(
                    #[trigger] f.exec_ask[i],
                ) == v(t.qty) && f.n_exec_ask[i] == 1
            &&& forall|i: int|
                first_at(top.bids, t.price, i) && t.aggressor == Aggressor::Sell ==> v(
                    #[trigger] f.exec_bid[i],
                ) == v(t.qty) && f.n_exec_bid[i] == 1
        }),
{
    lemma_constants(v);
    let f = FlowView::of_trade(top, t);
    let n = MODEL_LEVELS as int;
    lemma_sum_zero(read(v, nothing::<T>()), n);
    match t.aggressor {
        Aggressor::Buy => {
            lemma_target_exists(top.asks, t.price);
            let k = target(top.asks, t.price);
            lemma_position(top.asks, t.price);
            lemma_sum_single(read(v, f.exec_ask), n, k);
            assert forall|i: int| first_at(top.asks, t.price, i) implies v(
                #[trigger] f.exec_ask[i],
            ) == v(t.qty) && f.n_exec_ask[i] == 1 by {
                lemma_found(top.asks, t.price, i);
            }
        },
        Aggressor::Sell => {
            lemma_target_exists(top.bids, t.price);
            let k = target(top.bids, t.price);
            lemma_position(top.bids, t.price);
            lemma_sum_single(read(v, f.exec_bid), n, k);
            assert forall|i: int| first_at(top.bids, t.price, i) implies v(
                #[trigger] f.exec_bid[i],
            ) == v(t.qty) && f.n_exec_bid[i] == 1 by {
                lemma_found(top.bids, t.price, i);
            }
        },
    }
}

/// A trade takes back the cancels at its price and on the side that it hits, as
/// far as it goes; all other cancels stay.
pub proof fn lemma_cancels_taken_back<T: Real>(
    v: Reading<T>,
    f: FlowView<T>,
    before: TopView<T>,
    t: PendingTrade<T>,
    i: int,
)
    requires
        exact(v),
        before.bids.len() == MODEL_LEVELS,
        before.asks.len() == MODEL_LEVELS,
        f.cancel_bid.len() == MODEL_LEVELS,
        f.cancel_ask.len() == MODEL_LEVELS,
        f.n_cancel_bid.len() == MODEL_LEVELS,
        f.n_cancel_ask.len() == MODEL_LEVELS,
        0 <= i < MODEL_LEVELS,
        v(t.qty) >= 0 as real,
        v(f.cancel_bid[i]) >= 0 as real,
        v(f.cancel_ask[i]) >= 0 as real,
    ensures
        ({
            let after = f.excluding(before, t);
            &&& v(after.cancel_bid[i]) == if t.aggressor == Aggressor::Sell && first_at(
                before.bids,
                t.price,
                i,
            ) {
                above_zero(v(f.cancel_bid[i]) - v(t.qty))
            } else {
                v(f.cancel_bid[i])
            }
            &&& v(after.cancel_ask[i]) == if t.aggressor == Aggressor::Buy && first_at(
                before.asks,
                t.price,
                i,
            ) {
                above_zero(v(f.cancel_ask[i]) - v(t.qty))
            } else {
                v(f.cancel_ask[i])
            }
            &&& t.aggressor == Aggressor::Sell && first_at(before.bids, t.price, i) && v(t.qty)
                > 0 as real && v(f.cancel_bid[i]) > 0 as real ==> after.n_cancel_bid[i] == if v(
                f.cancel_bid[i],
            ) > v(t.qty) {
                1u32
            } else {
                0u32
            }
            &&& t.aggressor == Aggressor::Buy && first_at(before.asks, t.price, i) && v(t.qty)
                > 0 as real && v(f.cancel_ask[i]) > 0 as real ==> after.n_cancel_ask[i] == if v(
                f.cancel_ask[i],
            ) > v(t.qty) {
                1u32
            } else {
                0u32
            }
            &&& after.add_bid == f.add_bid && after.add_ask == f.add_ask
            &&& after.exec_bid == f.exec_bid && after.exec_ask == f.exec_ask
        }),
{
    lemma_constants(v);
    lemma_found(before.bids, t.price, i);
    lemma_found(before.asks, t.price, i);
    let cancels = f.cancels_hit(t);
    let c = cancels[i];
    let take = takes(t.qty, cancels, i);
    lemma_ops(v, t.qty, t.qty);
    lemma_ops(v, c, c);
    lemma_ops(v, c, t.qty);
    lemma_ops(v, zero_spec::<T>(), take);
    lemma_ops(v, c, take);
    let left = c.minus_spec(take);
    lemma_ops(v, zero_spec::<T>(), left);
}

/// A size above zero is a buy of that size, one below zero a sell of its
/// amount, and without a size nothing was traded.
pub proof fn lemma_side_of_trade<T: Real>(v: Reading<T>, t: PublicTrade<T>)
    requires
        exact(v),
    ensures
        match t.sided() {
            Some((Aggressor::Buy, qty)) => v(t.size) > 0 as real && v(qty) == v(t.size),
            Some((Aggressor::Sell, qty)) => v(t.size) < 0 as real && v(qty) == -v(t.size),
            None => v(t.size) == 0 as real,
        },
{
    lemma_constants(v);
    lemma_ops(v, t.size, zero_spec::<T>());
    lemma_ops(v, zero_spec::<T>(), t.size);
}

/// The middle is as far from the best bid as from the best ask.
pub proof fn lemma_middle<T: Real>(v: Reading<T>, top: TopView<T>)
    requires
        exact(v),
    ensures
        v(top.mid()) - v(top.bids[0].price) == v(top.asks[0].price) - v(top.mid()),
{
    let (b, a) = (top.bids[0].price, top.asks[0].price);
    lemma_ops(v, b, a);
    lemma_ratio(v, 1, 2);
    lemma_ops(v, b.plus_spec(a), T::ratio_spec(1, 2));
    let s = v(b) + v(a);
    assert(s * fraction(1, 2) + s * fraction(1, 2) == s) by (nonlinear_arith);
}

} // verus!
