//! What holds of the signal when it is computed with exact numbers.
use vstd::prelude::*;

#[allow(unused_imports)]
use crate::clock::since_spec;
#[allow(unused_imports)]
use crate::fixed::{abs_of, cut, held, Fixed, LIMIT, UNIT};
#[allow(unused_imports)]
use crate::market::book::{
    lemma_position, position, prices_eq_spec, BookState, Level, TopView, MODEL_LEVELS,
};
#[allow(unused_imports)]
use crate::market::flow::{
    gained, lemma_target, qty_at_spec, takes, Aggressor, FlowView, Matching, PendingTrade,
    PublicTrade, SideMatch,
};
#[allow(unused_imports)]
use crate::market::gate::EventView;
#[allow(unused_imports)]
use crate::number::{accumulate, eps_spec, larger_spec, zero_spec, Real};
#[allow(unused_imports)]
use crate::ridge::{reduced, Samples};
#[allow(unused_imports)]
use crate::signal::engine::{counted_trade, EngineState, TimedView, KEEP};
#[allow(unused_imports)]
use crate::signal::ewma::{lemma_scored_bounded, scored, EwmaState};
#[allow(unused_imports)]
use crate::signal::factors::DepthView;
#[allow(unused_imports)]
use crate::types::{products, FittedModel, FEATURE_COUNT};

verus! {

/// Zero has no steps.
proof fn lemma_zero()
    ensures
        zero_spec::<Fixed>()@ == 0,
{
    Fixed::lemma_of(0);
    assert(abs_of(0 * UNIT) == 0);
    assert(0int / 1int == 0);
}

/// The smallest distance is one step.
proof fn lemma_eps()
    ensures
        eps_spec::<Fixed>()@ == 1,
{
    assert(1 * UNIT == 1_000_000_000_000);
    assert(cut(1 * UNIT, 1_000_000_000_000) == 1);
    Fixed::lemma_of(1);
}

/// Two exact prices compare the same in either order.
proof fn lemma_prices_alike(a: Fixed, b: Fixed)
    ensures
        prices_eq_spec(a, b) == prices_eq_spec(b, a),
{
    broadcast use Fixed::lemma_of;

    Fixed::lemma_same(
        a.minus_spec(b).magnitude_spec(),
        b.minus_spec(a).magnitude_spec(),
    );
    Fixed::lemma_same(
        larger_spec(a.magnitude_spec(), b.magnitude_spec()),
        larger_spec(b.magnitude_spec(), a.magnitude_spec()),
    );
}

/// With exact numbers every incremental update keeps all quantities above zero
/// and all prices apart.
pub proof fn lemma_book_sound(
    s: BookState<Fixed>,
    bids: Seq<(Fixed, Fixed)>,
    asks: Seq<(Fixed, Fixed)>,
    start_u: u64,
    end_u: u64,
)
    requires
        s.sound(),
    ensures
        s.incremental(bids, asks, start_u, end_u).0.sound(),
{
    assert forall|a: Fixed, b: Fixed| #[trigger] prices_eq_spec(a, b) implies prices_eq_spec(
        b,
        a,
    ) by {
        lemma_prices_alike(a, b);
    }
    s.lemma_incremental_sound(bids, asks, start_u, end_u);
}

/// Is the quantity finite and not below zero?
pub open spec fn plain_qty(q: Fixed) -> bool {
    0 <= q@ < LIMIT
}

/// Are all quantities of a side finite and not below zero?
pub open spec fn plain_side(side: Seq<Level<Fixed>>) -> bool {
    forall|i: int| 0 <= i < side.len() ==> plain_qty((#[trigger] side[i]).qty)
}

/// The best levels of a book, with quantities that are finite and not below zero.
pub open spec fn plain_top(top: TopView<Fixed>) -> bool {
    &&& top.bids.len() == MODEL_LEVELS
    &&& top.asks.len() == MODEL_LEVELS
    &&& plain_side(top.bids)
    &&& plain_side(top.asks)
}

/// The decreases and what was taken of them are not below zero, and together
/// they are what the decreases were at first.
spec fn conserved(s: SideMatch<Fixed>, start: Seq<Fixed>) -> bool {
    &&& s.dec.len() == start.len()
    &&& s.taken.len() == start.len()
    &&& forall|i: int|
        0 <= i < start.len() ==> {
            &&& 0 <= (#[trigger] s.dec[i])@
            &&& 0 <= s.taken[i]@
            &&& s.dec[i]@ + s.taken[i]@ == start[i]@
            &&& start[i]@ < LIMIT
        }
}

/// What a level lost is finite and not below zero, and the exact difference.
proof fn lemma_gained(from: Seq<Level<Fixed>>, to: Seq<Level<Fixed>>, i: int)
    requires
        0 <= i < to.len(),
        plain_side(from),
        plain_side(to),
    ensures
        plain_qty(gained(from, to)[i]),
        plain_qty(qty_at_spec(from, to[i].price)),
        gained(from, to)[i]@ == (if qty_at_spec(from, to[i].price)@ < to[i].qty@ {
            to[i].qty@ - qty_at_spec(from, to[i].price)@
        } else {
            0
        }),
{
    broadcast use Fixed::lemma_of;

    lemma_zero();
    lemma_position(from, to[i].price);
}

proof fn lemma_side_step(
    s: SideMatch<Fixed>,
    start: Seq<Fixed>,
    levels: Seq<Level<Fixed>>,
    price: Fixed,
    qty: Fixed,
)
    requires
        conserved(s, start),
        levels.len() == start.len(),
    ensures
        conserved(s.after(levels, price, qty), start),
{
    broadcast use Fixed::lemma_of;

    lemma_zero();
    lemma_position(levels, price);
    if let Some(i) = position(levels, price) {
        let take = takes(qty, s.dec, i);
        if 0 < take@ {
            assert(0 <= s.dec[i]@);
            assert(take@ <= s.dec[i]@);
            assert(s.dec[i].minus_spec(take)@ == s.dec[i]@ - take@);
            assert(s.taken[i].plus_spec(take)@ == s.taken[i]@ + take@);
            let t = s.after(levels, price, qty);
            assert forall|k: int| 0 <= k < start.len() implies {
                &&& 0 <= (#[trigger] t.dec[k])@
                &&& 0 <= t.taken[k]@
                &&& t.dec[k]@ + t.taken[k]@ == start[k]@
                &&& start[k]@ < LIMIT
            } by {
                assert(0 <= s.dec[k]@);
            }
        }
    }
}

/// Conservation: at each level, what was executed and what was cancelled
/// together are what the book lost there, whatever the trades.
pub proof fn lemma_decrease_conserved(
    before: TopView<Fixed>,
    after: TopView<Fixed>,
    trades: Seq<PendingTrade<Fixed>>,
    i: int,
)
    requires
        plain_top(before),
        plain_top(after),
        0 <= i < MODEL_LEVELS,
    ensures
        ({
            let f = Matching::run(before, after, trades).flow(before, after);
            &&& f.exec_bid[i]@ + f.cancel_bid[i]@ == gained(after.bids, before.bids)[i]@
            &&& f.exec_ask[i]@ + f.cancel_ask[i]@ == gained(after.asks, before.asks)[i]@
            &&& 0 <= f.exec_bid[i]@
            &&& 0 <= f.cancel_bid[i]@
            &&& 0 <= f.exec_ask[i]@
            &&& 0 <= f.cancel_ask[i]@
        }),
{
    lemma_run_conserved(before, after, trades);
    let m = Matching::run(before, after, trades);
    assert(m.bid.dec[i]@ + m.bid.taken[i]@ == gained(after.bids, before.bids)[i]@);
    assert(m.ask.dec[i]@ + m.ask.taken[i]@ == gained(after.asks, before.asks)[i]@);
}

proof fn lemma_run_conserved(
    before: TopView<Fixed>,
    after: TopView<Fixed>,
    trades: Seq<PendingTrade<Fixed>>,
)
    requires
        plain_top(before),
        plain_top(after),
    ensures
        conserved(
            Matching::run(before, after, trades).bid,
            gained(after.bids, before.bids),
        ),
        conserved(
            Matching::run(before, after, trades).ask,
            gained(after.asks, before.asks),
        ),
    decreases trades.len(),
{
    lemma_zero();
    if trades.len() == 0 {
        assert forall|i: int| 0 <= i < MODEL_LEVELS implies plain_qty(
            #[trigger] gained(after.bids, before.bids)[i],
        ) by {
            lemma_gained(after.bids, before.bids, i);
        }
        assert forall|i: int| 0 <= i < MODEL_LEVELS implies plain_qty(
            #[trigger] gained(after.asks, before.asks)[i],
        ) by {
            lemma_gained(after.asks, before.asks, i);
        }
    } else {
        let m = Matching::run(before, after, trades.drop_last());
        let t = trades.last();
        lemma_run_conserved(before, after, trades.drop_last());
        match t.aggressor {
            Aggressor::Sell => {
                lemma_side_step(
                    m.bid,
                    gained(after.bids, before.bids),
                    before.bids,
                    t.price,
                    t.qty,
                );
            },
            Aggressor::Buy => {
                lemma_side_step(
                    m.ask,
                    gained(after.asks, before.asks),
                    before.asks,
                    t.price,
                    t.qty,
                );
            },
        }
    }
}

/// A trade is met in part, and the rest of it stays unmet: nothing is lost
/// and nothing counted twice.
pub proof fn lemma_trade_split(
    s: SideMatch<Fixed>,
    levels: Seq<Level<Fixed>>,
    price: Fixed,
    qty: Fixed,
    i: int,
)
    requires
        levels.len() == s.dec.len(),
        levels.len() == s.taken.len(),
        position(levels, price) == Some(i),
        plain_qty(qty),
        plain_qty(s.dec[i]),
        0 <= s.taken[i]@,
        s.dec[i]@ + s.taken[i]@ < LIMIT,
    ensures
        s.after(levels, price, qty).taken[i]@ - s.taken[i]@ + s.unmet(levels, price, qty)@
            == qty@,
{
    broadcast use Fixed::lemma_of;

    lemma_zero();
    lemma_position(levels, price);
}

/// Are the quantities of all trades finite and not below zero?
pub open spec fn plain_trades(trades: Seq<PendingTrade<Fixed>>) -> bool {
    forall|k: int| 0 <= k < trades.len() ==> plain_qty((#[trigger] trades[k]).qty)
}

/// The quantity of all trades on one side, in steps.
pub open spec fn traded(trades: Seq<PendingTrade<Fixed>>, aggressor: Aggressor) -> int
    decreases trades.len(),
{
    if trades.len() == 0 {
        0
    } else {
        let rest = traded(trades.drop_last(), aggressor);
        if trades.last().aggressor == aggressor {
            rest + trades.last().qty@
        } else {
            rest
        }
    }
}

/// The sum of numbers, in steps.
pub open spec fn sum_of(s: Seq<Fixed>) -> int
    decreases s.len(),
{
    if s.len() == 0 {
        0
    } else {
        sum_of(s.drop_last()) + s.last()@
    }
}

/// The side that an aggressor hits.
pub open spec fn side_hit(m: Matching<Fixed>, aggressor: Aggressor) -> SideMatch<Fixed> {
    match aggressor {
        Aggressor::Sell => m.bid,
        Aggressor::Buy => m.ask,
    }
}

proof fn lemma_sum_update(s: Seq<Fixed>, i: int, x: Fixed)
    requires
        0 <= i < s.len(),
    ensures
        sum_of(s.update(i, x)) == sum_of(s) - s[i]@ + x@,
    decreases s.len(),
{
    let r = s.update(i, x);
    if i == s.len() - 1 {
        assert(r.drop_last() =~= s.drop_last());
    } else {
        assert(r.drop_last() =~= s.drop_last().update(i, x));
        lemma_sum_update(s.drop_last(), i, x);
    }
}

proof fn lemma_sum_nothing(n: nat)
    ensures
        sum_of(Seq::new(n, |i: int| zero_spec::<Fixed>())) == 0,
    decreases n,
{
    lemma_zero();
    if n > 0 {
        let s = Seq::new(n, |i: int| zero_spec::<Fixed>());
        let m = (n - 1) as nat;
        assert(s.drop_last() =~= Seq::new(m, |i: int| zero_spec::<Fixed>()));
        lemma_sum_nothing(m);
    }
}

/// What one trade takes from a side and what it leaves unmet make up the trade,
/// and what it leaves is not below zero.
proof fn lemma_side_balance(
    s: SideMatch<Fixed>,
    start: Seq<Fixed>,
    levels: Seq<Level<Fixed>>,
    price: Fixed,
    qty: Fixed,
)
    requires
        conserved(s, start),
        levels.len() == start.len(),
        plain_qty(qty),
    ensures
        sum_of(s.after(levels, price, qty).taken) - sum_of(s.taken) + s.unmet(
            levels,
            price,
            qty,
        )@ == qty@,
        0 <= s.unmet(levels, price, qty)@ <= qty@,
{
    broadcast use Fixed::lemma_of;

    lemma_zero();
    lemma_position(levels, price);
    if let Some(i) = position(levels, price) {
        assert(0 <= s.dec[i]@ && 0 <= s.taken[i]@ && s.dec[i]@ + s.taken[i]@ == start[i]@
            && start[i]@ < LIMIT);
        lemma_trade_split(s, levels, price, qty, i);
        let take = takes(qty, s.dec, i);
        if 0 < take@ {
            lemma_sum_update(s.taken, i, s.taken[i].plus_spec(take));
        }
    }
}

/// Nothing gets lost over a whole list of trades: on each side, what was traded
/// is what was executed and what is left over, up to what is next to nothing of
/// each trade.
pub proof fn lemma_trades_balance(
    before: TopView<Fixed>,
    after: TopView<Fixed>,
    trades: Seq<PendingTrade<Fixed>>,
    aggressor: Aggressor,
)
    requires
        plain_top(before),
        plain_top(after),
        plain_trades(trades),
    ensures
        ({
            let m = Matching::run(before, after, trades);
            let lost = traded(trades, aggressor) - sum_of(side_hit(m, aggressor).taken) - traded(
                m.leftover,
                aggressor,
            );
            0 <= lost <= trades.len() * eps_spec::<Fixed>()@
        }),
    decreases trades.len(),
{
    lemma_zero();
    lemma_eps();
    if trades.len() == 0 {
        lemma_sum_nothing(MODEL_LEVELS as nat);
    } else {
        let front = trades.drop_last();
        let t = trades[trades.len() - 1];
        assert forall|k: int| 0 <= k < front.len() implies plain_qty(
            (#[trigger] front[k]).qty,
        ) by {
            assert(front[k] == trades[k]);
        }
        lemma_trades_balance(before, after, front, aggressor);
        lemma_run_conserved(before, after, front);
        let was = Matching::run(before, after, front);
        let m = Matching::run(before, after, trades);
        match t.aggressor {
            Aggressor::Sell => lemma_side_balance(
                was.bid,
                gained(after.bids, before.bids),
                before.bids,
                t.price,
                t.qty,
            ),
            Aggressor::Buy => lemma_side_balance(
                was.ask,
                gained(after.asks, before.asks),
                before.asks,
                t.price,
                t.qty,
            ),
        }
        if m.leftover.len() > was.leftover.len() {
            assert(m.leftover.drop_last() =~= was.leftover);
        }
    }
}

/// What is left over of a trade is more than next to nothing, and no more than
/// the trade.
pub proof fn lemma_left_over_no_more(
    before: TopView<Fixed>,
    after: TopView<Fixed>,
    trades: Seq<PendingTrade<Fixed>>,
    j: int,
)
    requires
        plain_top(before),
        plain_top(after),
        plain_trades(trades),
        0 <= j < Matching::run(before, after, trades).leftover.len(),
    ensures
        ({
            let left = Matching::run(before, after, trades).leftover[j];
            let at = Matching::left_from(before, after, trades);
            &&& 0 <= at[j] < trades.len()
            &&& eps_spec::<Fixed>()@ < left.qty@ <= trades[at[j]].qty@
        }),
    decreases trades.len(),
{
    Matching::lemma_left_over_in_order(before, after, trades);
    let front = trades.drop_last();
    let t = trades[trades.len() - 1];
    assert forall|k: int| 0 <= k < front.len() implies plain_qty((#[trigger] front[k]).qty) by {
        assert(front[k] == trades[k]);
    }
    let was = Matching::run(before, after, front);
    Matching::lemma_left_over_in_order(before, after, front);
    if j < was.leftover.len() {
        lemma_left_over_no_more(before, after, front, j);
        let at = Matching::left_from(before, after, trades);
        assert(at[j] == Matching::left_from(before, after, front)[j]);
        assert(front[at[j]] == trades[at[j]]);
    } else {
        lemma_run_conserved(before, after, front);
        match t.aggressor {
            Aggressor::Sell => lemma_side_balance(
                was.bid,
                gained(after.bids, before.bids),
                before.bids,
                t.price,
                t.qty,
            ),
            Aggressor::Buy => lemma_side_balance(
                was.ask,
                gained(after.asks, before.asks),
                before.asks,
                t.price,
                t.qty,
            ),
        }
    }
}

/// The smaller of two amounts.
pub open spec fn least(a: int, b: int) -> int {
    if a <= b {
        a
    } else {
        b
    }
}

/// A trade takes back the cancels at its price, as far as it goes: what is
/// left of them and what the trade took together are what they were, so
/// nothing is counted as both executed and cancelled. All other cancels stay.
pub proof fn lemma_excluded_once(
    f: FlowView<Fixed>,
    before: TopView<Fixed>,
    t: PendingTrade<Fixed>,
    i: int,
)
    requires
        before.bids.len() == MODEL_LEVELS,
        before.asks.len() == MODEL_LEVELS,
        f.cancel_bid.len() == MODEL_LEVELS,
        f.cancel_ask.len() == MODEL_LEVELS,
        FlowView::level_of(before, t) == Some(i),
        plain_qty(t.qty),
        plain_qty(f.cancels_hit(t)[i]),
    ensures
        ({
            let g = f.excluding(before, t);
            let c = f.cancels_hit(t)[i]@;
            &&& 0 <= i < MODEL_LEVELS
            &&& g.cancels_hit(t)[i]@ == c - least(t.qty@, c)
            &&& forall|k: int|
                0 <= k < MODEL_LEVELS && k != i ==> #[trigger] g.cancels_hit(t)[k]
                    == f.cancels_hit(t)[k]
            &&& t.aggressor is Sell ==> g.cancel_ask == f.cancel_ask
            &&& t.aggressor is Buy ==> g.cancel_bid == f.cancel_bid
            &&& g.exec_bid == f.exec_bid
            &&& g.exec_ask == f.exec_ask
        }),
{
    broadcast use Fixed::lemma_of;

    lemma_zero();
    lemma_position(before.bids, t.price);
    lemma_position(before.asks, t.price);
}

/// What was executed at level `i` of the side that an aggressor hits.
pub open spec fn executed_in(f: FlowView<Fixed>, aggressor: Aggressor, i: int) -> int {
    match aggressor {
        Aggressor::Sell => f.exec_bid[i]@,
        Aggressor::Buy => f.exec_ask[i]@,
    }
}

/// What was cancelled at level `i` of the side that an aggressor hits.
pub open spec fn cancelled_in(f: FlowView<Fixed>, aggressor: Aggressor, i: int) -> int {
    match aggressor {
        Aggressor::Sell => f.cancel_bid[i]@,
        Aggressor::Buy => f.cancel_ask[i]@,
    }
}

/// What was executed in all events.
pub open spec fn executed_in_all(
    events: Seq<TimedView<Fixed>>,
    aggressor: Aggressor,
    i: int,
) -> int
    decreases events.len(),
{
    if events.len() == 0 {
        0
    } else {
        executed_in_all(events.drop_last(), aggressor, i) + executed_in(
            events.last().flow,
            aggressor,
            i,
        )
    }
}

/// What was cancelled in all events.
pub open spec fn cancelled_in_all(
    events: Seq<TimedView<Fixed>>,
    aggressor: Aggressor,
    i: int,
) -> int
    decreases events.len(),
{
    if events.len() == 0 {
        0
    } else {
        cancelled_in_all(events.drop_last(), aggressor, i) + cancelled_in(
            events.last().flow,
            aggressor,
            i,
        )
    }
}

/// All that an engine holds for executed at a level, open changes too.
pub open spec fn executed(s: EngineState<Fixed>, aggressor: Aggressor, i: int) -> int {
    executed_in_all(s.events, aggressor, i) + match s.pending_book {
        Some(open) => executed_in(open.flow, aggressor, i),
        None => 0,
    }
}

/// All that an engine holds for cancelled at a level, open changes too.
pub open spec fn cancelled(s: EngineState<Fixed>, aggressor: Aggressor, i: int) -> int {
    cancelled_in_all(s.events, aggressor, i) + match s.pending_book {
        Some(open) => cancelled_in(open.flow, aggressor, i),
        None => 0,
    }
}

/// What the side that an aggressor hits lost at level `i`.
pub open spec fn lost(
    before: TopView<Fixed>,
    after: TopView<Fixed>,
    aggressor: Aggressor,
    i: int,
) -> int {
    match aggressor {
        Aggressor::Sell => gained(after.bids, before.bids)[i]@,
        Aggressor::Buy => gained(after.asks, before.asks)[i]@,
    }
}

proof fn lemma_pushed(
    events: Seq<TimedView<Fixed>>,
    e: TimedView<Fixed>,
    aggressor: Aggressor,
    i: int,
)
    ensures
        executed_in_all(events.push(e), aggressor, i) == executed_in_all(events, aggressor, i)
            + executed_in(e.flow, aggressor, i),
        cancelled_in_all(events.push(e), aggressor, i) == cancelled_in_all(events, aggressor, i)
            + cancelled_in(e.flow, aggressor, i),
{
    assert(events.push(e).drop_last() =~= events);
}

/// A trade at a listed price counts as executed in full there, and nothing
/// as cancelled.
proof fn lemma_trade_flow(before: TopView<Fixed>, t: PendingTrade<Fixed>, i: int)
    requires
        before.bids.len() == MODEL_LEVELS,
        before.asks.len() == MODEL_LEVELS,
        FlowView::level_of(before, t) == Some(i),
    ensures
        0 <= i < MODEL_LEVELS,
        executed_in(FlowView::of_trade(before, t), t.aggressor, i) == t.qty@,
        cancelled_in(FlowView::of_trade(before, t), t.aggressor, i) == 0,
{
    lemma_zero();
    lemma_position(before.bids, t.price);
    lemma_position(before.asks, t.price);
    match t.aggressor {
        Aggressor::Sell => lemma_target(before.bids, t.price, i),
        Aggressor::Buy => lemma_target(before.asks, t.price, i),
    }
}

/// What is open of a change, less what a trade explains.
proof fn lemma_open_flow(
    before: TopView<Fixed>,
    after: TopView<Fixed>,
    t: PendingTrade<Fixed>,
    i: int,
)
    requires
        plain_top(before),
        plain_top(after),
        plain_qty(t.qty),
        FlowView::level_of(before, t) == Some(i),
    ensures
        ({
            let delta = FlowView::of_delta(before, after);
            let open = delta.without_additions().excluding(before, t);
            let d = lost(before, after, t.aggressor, i);
            &&& executed_in(open, t.aggressor, i) == 0
            &&& cancelled_in(open, t.aggressor, i) == d - least(t.qty@, d)
            &&& executed_in(delta.additions(), t.aggressor, i) == 0
            &&& cancelled_in(delta.additions(), t.aggressor, i) == 0
        }),
{
    lemma_zero();
    lemma_position(before.bids, t.price);
    lemma_position(before.asks, t.price);
    lemma_gained(after.bids, before.bids, i);
    lemma_gained(after.asks, before.asks, i);
    lemma_excluded_once(FlowView::of_delta(before, after).without_additions(), before, t, i);
}

/// Where the trade comes before the change of the book: it is executed in
/// full, and of what the book lost only the rest is cancelled.
#[verifier::spinoff_prover]
pub proof fn lemma_trade_first(
    s: EngineState<Fixed>,
    t: PublicTrade<Fixed>,
    trade: PendingTrade<Fixed>,
    ev: EventView<Fixed>,
    before: TopView<Fixed>,
    after: TopView<Fixed>,
    i: int,
    now: u64,
    later: u64,
    shares: (Fixed, Fixed),
)
    requires
        s.events.len() == 0,
        s.pending.len() == 0,
        s.pending_book is None,
        s.last_top == Some(before),
        counted_trade(s.seen, t) == Some(trade),
        s.updates_to(ev, after),
        !s.late(later),
        since_spec(later, now) <= KEEP,
        plain_top(before),
        plain_top(after),
        plain_qty(trade.qty),
        FlowView::level_of(before, trade) == Some(i),
    ensures
        ({
            let end = s.after(EventView::Trade(t), now, shares.0).after(ev, later, shares.1);
            let d = lost(before, after, trade.aggressor, i);
            &&& executed(end, trade.aggressor, i) == trade.qty@
            &&& cancelled(end, trade.aggressor, i) == d - least(trade.qty@, d)
            &&& end.pending.len() == 0
        }),
{
    let one = s.after(EventView::Trade(t), now, shares.0);
    let cancels = FlowView::of_delta(before, after).without_additions();
    s.lemma_trade_waits(t, trade, before, now, shares.0);
    assert(one.updates_to(ev, after));
    one.lemma_update_opens(ev, before, after, later, shares.1);
    lemma_trade_flow(before, trade, i);
    lemma_open_flow(before, after, trade, i);
    assert(one.pending =~= Seq::<PendingTrade<Fixed>>::empty().push(trade));
    assert(one.pending.drop_last() =~= Seq::<PendingTrade<Fixed>>::empty());
    assert(cancels.excluding_all(before, one.pending.drop_last()) == cancels);
    let e = TimedView {
        at: now,
        flow: FlowView::of_trade(before, trade),
        depth_after: DepthView::of_top(before),
    };
    assert(one.events == s.events.push(e));
    lemma_pushed(s.events, e, trade.aggressor, i);
    let a = TimedView {
        at: later,
        flow: FlowView::of_delta(before, after).additions(),
        depth_after: DepthView::of_top(after),
    };
    assert(one.events.push(a)[0] == e);
    lemma_pushed(one.events, a, trade.aggressor, i);
}

/// Where the change of the book comes before the trade: the same.
#[verifier::spinoff_prover]
pub proof fn lemma_book_first(
    s: EngineState<Fixed>,
    t: PublicTrade<Fixed>,
    trade: PendingTrade<Fixed>,
    ev: EventView<Fixed>,
    before: TopView<Fixed>,
    after: TopView<Fixed>,
    i: int,
    now: u64,
    later: u64,
    shares: (Fixed, Fixed),
)
    requires
        s.events.len() == 0,
        s.pending.len() == 0,
        s.pending_book is None,
        s.last_top == Some(before),
        counted_trade(s.seen, t) == Some(trade),
        s.updates_to(ev, after),
        !s.late(now),
        since_spec(later, now) <= KEEP,
        plain_top(before),
        plain_top(after),
        plain_qty(trade.qty),
        FlowView::level_of(before, trade) == Some(i),
    ensures
        ({
            let end = s.after(ev, now, shares.0).after(EventView::Trade(t), later, shares.1);
            let d = lost(before, after, trade.aggressor, i);
            &&& executed(end, trade.aggressor, i) == trade.qty@
            &&& cancelled(end, trade.aggressor, i) == d - least(trade.qty@, d)
        }),
{
    let one = s.after(ev, now, shares.0);
    let cancels = FlowView::of_delta(before, after).without_additions();
    s.lemma_update_opens(ev, before, after, now, shares.0);
    assert(s.pending =~= Seq::<PendingTrade<Fixed>>::empty());
    assert(cancels.excluding_all(before, s.pending) == cancels);
    one.lemma_trade_explains(t, trade, one.pending_book->0, after, later, shares.1);
    lemma_trade_flow(before, trade, i);
    lemma_open_flow(before, after, trade, i);
    let a = TimedView {
        at: now,
        flow: FlowView::of_delta(before, after).additions(),
        depth_after: DepthView::of_top(after),
    };
    assert(s.events.push(a)[0] == a);
    lemma_pushed(s.events, a, trade.aggressor, i);
    let e = TimedView {
        at: later,
        flow: FlowView::of_trade(before, trade),
        depth_after: DepthView::of_top(after),
    };
    assert(one.events.push(e).len() > 0);
    lemma_pushed(one.events, e, trade.aggressor, i);
}

/// Between minus one and one.
pub open spec fn in_unit(x: Fixed) -> bool {
    -UNIT <= x@ <= UNIT
}

/// A normalised factor lies between minus one and one.
pub proof fn lemma_scored_in_unit(raw: Fixed, mean: Fixed, var: Fixed)
    ensures
        in_unit(scored(raw, mean, var)),
{
    broadcast use Fixed::lemma_of;

    lemma_scored_bounded(raw, mean, var);
    assert(1 * UNIT == 1_000_000_000_000 && -1 * UNIT == -1_000_000_000_000);
    assert(abs_of(1) == 1);
    assert(cut(1 * UNIT, 1) == UNIT);
    assert(cut(-1 * UNIT, 1) == -UNIT);
}

/// Whatever was taken in before, every factor comes out of an update between
/// minus one and one.
pub proof fn lemma_output_in_unit(
    s: EwmaState<Fixed>,
    raw: Seq<Fixed>,
    dt: u64,
    alpha: Fixed,
    k: int,
)
    requires
        0 <= k < FEATURE_COUNT,
    ensures
        in_unit(s.output(raw, dt, alpha)[k]),
{
    lemma_zero();
    if s.initialized {
        let next = s.next(raw, dt, alpha);
        lemma_scored_in_unit(raw[k], next.mean[k], next.var[k]);
    }
}

/// Do all factors that the engine shows lie between minus one and one?
pub open spec fn factors_in_unit(s: EngineState<Fixed>) -> bool {
    forall|k: int| 0 <= k < FEATURE_COUNT ==> in_unit(#[trigger] s.last_x[k])
}

/// All factors that an engine shows lie between minus one and one, whatever
/// happens.
pub proof fn lemma_factors_in_unit(
    s: EngineState<Fixed>,
    ev: EventView<Fixed>,
    now: u64,
    alpha: Fixed,
)
    requires
        factors_in_unit(s),
    ensures
        factors_in_unit(s.after(ev, now, alpha)),
{
    let t = s.after(ev, now, alpha);
    assert forall|k: int| 0 <= k < FEATURE_COUNT implies in_unit(#[trigger] t.last_x[k]) by {
        assert(in_unit(s.last_x[k]));
        lemma_last_x(s, ev, now, alpha, k);
    }
}

proof fn lemma_recomputed_in_unit(
    s: EngineState<Fixed>,
    top: TopView<Fixed>,
    now: u64,
    dt: u64,
    alpha: Fixed,
    k: int,
)
    requires
        0 <= k < FEATURE_COUNT,
        in_unit(s.last_x[k]),
    ensures
        in_unit(s.recomputed_if(top, now, dt, alpha).last_x[k]),
{
    if let Some(tick) = s.tick_size {
        lemma_output_in_unit(s.ewma, s.raw_at(top, tick, now), dt, alpha, k);
    }
}

proof fn lemma_last_x(
    s: EngineState<Fixed>,
    ev: EventView<Fixed>,
    now: u64,
    alpha: Fixed,
    k: int,
)
    requires
        0 <= k < FEATURE_COUNT,
        in_unit(s.last_x[k]),
    ensures
        in_unit(s.after(ev, now, alpha).last_x[k]),
{
    assert forall|e: EngineState<Fixed>, top: TopView<Fixed>, dt: u64|
        e.last_x == s.last_x implies in_unit(
        (#[trigger] e.recomputed_if(top, now, dt, alpha)).last_x[k],
    ) by {
        lemma_recomputed_in_unit(e, top, now, dt, alpha, k);
    }
}

/// Another model keeps them there.
pub proof fn lemma_model_in_unit(
    s: EngineState<Fixed>,
    model: FittedModel<Fixed>,
    now: u64,
    alpha: Fixed,
)
    requires
        factors_in_unit(s),
    ensures
        factors_in_unit(s.with_model(model, now, alpha)),
{
    let t = s.with_model(model, now, alpha);
    assert forall|k: int| 0 <= k < FEATURE_COUNT implies in_unit(#[trigger] t.last_x[k]) by {
        assert(in_unit(s.last_x[k]));
        if let Some(top) = s.last_top {
            lemma_recomputed_in_unit(EngineState { model, ..s }, top, now, 0, alpha, k);
        }
    }
}

/// A new engine shows factors of zero.
pub proof fn lemma_fresh_in_unit(
    warm_period: u64,
    model: FittedModel<Fixed>,
    weights: Seq<Fixed>,
)
    ensures
        factors_in_unit(EngineState::fresh(warm_period, model, weights)),
{
    lemma_zero();
}

/// No fitted coefficient is below zero.
pub proof fn lemma_beta_not_negative(s: Samples<Fixed>, prior: Seq<Fixed>, lambda: Fixed, k: int)
    requires
        0 <= k < FEATURE_COUNT,
    ensures
        s.beta(prior, lambda)[k]@ >= 0,
{
    lemma_zero();
    crate::ridge::lemma_beta_not_below_zero(s, prior, lambda, k);
}

/// The sum of the sizes of numbers, in steps.
pub open spec fn weight_of(s: Seq<Fixed>) -> int
    decreases s.len(),
{
    if s.len() == 0 {
        0
    } else {
        weight_of(s.drop_last()) + abs_of(s.last()@)
    }
}

proof fn lemma_weight(s: Seq<Fixed>)
    ensures
        abs_of(sum_of(s)) <= weight_of(s),
    decreases s.len(),
{
    if s.len() > 0 {
        lemma_weight(s.drop_last());
    }
}

/// Numbers taken off one after another, none of them beyond the bound.
proof fn lemma_reduced_exact(init: Fixed, s: Seq<Fixed>)
    requires
        abs_of(init@) + weight_of(s) < LIMIT,
    ensures
        reduced(init, s)@ == init@ - sum_of(s),
    decreases s.len(),
{
    broadcast use Fixed::lemma_of;

    if s.len() > 0 {
        lemma_weight(s);
        lemma_weight(s.drop_last());
        lemma_reduced_exact(init, s.drop_last());
    }
}

/// Numbers added up that end within the bound and cannot leave it on the way.
proof fn lemma_accumulate_exact(init: Fixed, s: Seq<Fixed>)
    requires
        abs_of(init@ + sum_of(s)) + weight_of(s) < LIMIT,
    ensures
        accumulate(init, s)@ == init@ + sum_of(s),
    decreases s.len(),
{
    broadcast use Fixed::lemma_of;

    if s.len() > 0 {
        lemma_weight(s);
        lemma_weight(s.drop_last());
        lemma_accumulate_exact(init, s.drop_last());
    }
}

/// A fit passes through the mean point, whatever its coefficients: at the mean
/// factors it predicts the mean outcome. Nothing on the way may leave the
/// bound.
pub proof fn lemma_mean_point(s: Samples<Fixed>, beta: Seq<Fixed>)
    requires
        abs_of(s.y_mean()@) + weight_of(products(beta, s.x_means())) < LIMIT,
    ensures
        accumulate(s.intercept(beta), products(beta, s.x_means())) == s.y_mean(),
{
    let terms = products(beta, s.x_means());
    lemma_weight(terms);
    lemma_reduced_exact(s.y_mean(), terms);
    lemma_accumulate_exact(s.intercept(beta), terms);
    Fixed::lemma_same(accumulate(s.intercept(beta), terms), s.y_mean());
}

} // verus!
