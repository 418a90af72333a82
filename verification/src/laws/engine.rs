//! What an engine says after it has reckoned anew, in real numbers.
use vstd::prelude::*;

#[allow(unused_imports)]
use crate::laws::normaliser::{is_deviation, is_normalised, lemma_output_normalised};
#[allow(unused_imports)]
use crate::laws::prediction::{lemma_predictions, parts};
#[allow(unused_imports)]
use crate::laws::flow::lemma_additions_apart;
#[allow(unused_imports)]
use crate::laws::windows::lemma_kept;
#[allow(unused_imports)]
use crate::market::book::TopView;
#[allow(unused_imports)]
use crate::market::flow::FlowView;
#[allow(unused_imports)]
use crate::market::gate::EventView;
#[allow(unused_imports)]
use crate::number::{zero_spec, Real};
#[allow(unused_imports)]
use crate::reals::{big_sum, exact, lemma_constants, lemma_ops, Reading};
#[allow(unused_imports)]
use crate::signal::engine::{kept, EngineState, PendingBookView, TimedView};
#[allow(unused_imports)]
use crate::signal::factors::DepthView;
#[allow(unused_imports)]
use crate::types::{DataQuality, FittedModel, FEATURE_COUNT};

verus! {

/// Predictions are made by the model in force from the factors of the moment,
/// one for each horizon.
pub proof fn lemma_engine_predicts<T: Real>(
    v: Reading<T>,
    s: EngineState<T>,
    top: TopView<T>,
    tick: T,
    now: u64,
    dt: u64,
    alpha: T,
)
    requires
        exact(v),
    ensures
        ({
            let after = s.recomputed(top, tick, now, dt, alpha);
            let (m, x) = (s.model, after.last_x);
            &&& after.last_pred.len() == 3
            &&& v(after.last_pred[0]) == v(m.h10.intercept) + big_sum(parts(v, m.h10.beta@, x), 17)
            &&& v(after.last_pred[1]) == v(m.h25.intercept) + big_sum(parts(v, m.h25.beta@, x), 17)
            &&& v(after.last_pred[2]) == v(m.h50.intercept) + big_sum(parts(v, m.h50.beta@, x), 17)
            &&& after.model == s.model
        }),
{
    let after = s.recomputed(top, tick, now, dt, alpha);
    lemma_predictions(v, s.model, after.last_x);
}

/// The factors of the moment are the raw ones, normalised by a mean and a
/// variance that they have gone into.
pub proof fn lemma_engine_normalises<T: Real>(
    v: Reading<T>,
    s: EngineState<T>,
    top: TopView<T>,
    tick: T,
    now: u64,
    dt: u64,
    alpha: T,
    k: int,
    deviation: real,
)
    requires
        exact(v),
        s.ewma.initialized,
        0 <= k < FEATURE_COUNT,
        is_deviation(deviation, v(s.recomputed(top, tick, now, dt, alpha).ewma.var[k])),
    ensures
        ({
            let after = s.recomputed(top, tick, now, dt, alpha);
            &&& after.last_raw == s.raw_at(top, tick, now)
            &&& v(after.ewma.mean[k]) == (1 as real - v(alpha)) * v(s.ewma.mean[k]) + v(alpha) * v(
                after.last_raw[k],
            )
            &&& is_normalised(
                v(after.last_x[k]),
                v(after.last_raw[k]) - v(after.ewma.mean[k]),
                deviation,
            )
        }),
{
    let raw = s.raw_at(top, tick, now);
    crate::laws::normaliser::lemma_mean_is_average(v, s.ewma, raw, dt, alpha, k);
    lemma_output_normalised(v, s.ewma, raw, dt, alpha, k, deviation);
}

/// The time of a step goes into the mean, no time at all as a millisecond; the
/// first step begins at nothing.
pub proof fn lemma_time_goes_in<T: Real>(
    s: EngineState<T>,
    top: TopView<T>,
    tick: T,
    now: u64,
    dt: u64,
    alpha: T,
)
    requires
        s.ewma.accumulated <= u64::MAX / 2,
        dt <= u64::MAX / 4,
    ensures
        ({
            let after = s.recomputed(top, tick, now, dt, alpha);
            &&& after.ewma.initialized
            &&& !s.ewma.initialized ==> after.ewma.accumulated == 0
            &&& s.ewma.initialized && dt > 0 ==> after.ewma.accumulated - s.ewma.accumulated == dt
            &&& s.ewma.initialized && dt == 0 ==> after.ewma.accumulated - s.ewma.accumulated
                == 1_000_000
            &&& s.interrupted && !after.interrupted ==> after.ewma.accumulated >= s.warm_period
                && s.tick_size is Some && s.book.usable()
            &&& !s.interrupted ==> !after.interrupted
        }),
{
}

/// Data are good exactly where the tick size and the best levels are known, no
/// interruption is being made up for, the mean has had its time, and the book
/// is at most two seconds old.
pub proof fn lemma_good_exactly<T: Real>(s: EngineState<T>, now: u64)
    ensures
        s.quality(now) == DataQuality::Good <==> {
            &&& s.tick_size is Some
            &&& s.book.valid
            &&& s.book.bids.len() >= 10
            &&& s.book.asks.len() >= 10
            &&& s.last_top is Some
            &&& !s.interrupted
            &&& s.ewma.accumulated >= s.warm_period
            &&& s.last_book_at matches Some(at) ==> now - at <= 2_000_000_000
        },
        s.quality(now) == DataQuality::NoTickSize <==> s.tick_size is None,
        s.quality(now) == DataQuality::Stale ==> {
            &&& s.last_book_at is Some
            &&& now - s.last_book_at->0 > 2_000_000_000
        },
{
}

proof fn lemma_newest_kept<T>(events: Seq<TimedView<T>>, e: TimedView<T>, now: u64)
    requires
        e.at == now,
    ensures
        kept(events.push(e), now).len() > 0,
        kept(events.push(e), now).last() == e,
{
    let all = events.push(e);
    lemma_kept(all, now);
    let last = all.len() - 1;
    assert(now - all[last].at == 0);
}

/// What was taken away and no trade has explained counts as cancelled when the
/// book changes again, all of it and at that moment.
pub proof fn lemma_cancels_count<T: Real>(
    v: Reading<T>,
    s: EngineState<T>,
    p: PendingBookView<T>,
    now: u64,
    i: int,
)
    requires
        exact(v),
        s.pending_book == Some(p),
        0 <= i < p.flow.cancel_bid.len(),
        0 <= i < p.flow.cancel_ask.len(),
        v(p.flow.cancel_bid[i]) > 0 as real || v(p.flow.cancel_ask[i]) > 0 as real,
    ensures
        s.settled(now).pending_book is None,
        s.settled(now).events.len() > 0,
        s.settled(now).events.last() == (TimedView {
            at: now,
            flow: p.flow,
            depth_after: p.depth_after,
        }),
{
    lemma_constants(v);
    lemma_ops(v, zero_spec::<T>(), p.flow.cancel_bid[i]);
    lemma_ops(v, zero_spec::<T>(), p.flow.cancel_ask[i]);
    let e = TimedView { at: now, flow: p.flow, depth_after: p.depth_after };
    lemma_newest_kept(s.events, e, now);
    assert(p.flow.has_cancels());
}

/// With a change of the book all that was added counts at once, the middle is
/// that of the new best levels, and what was taken away waits for trades.
pub proof fn lemma_change<T: Real>(
    v: Reading<T>,
    s: EngineState<T>,
    before: TopView<T>,
    after: TopView<T>,
    now: u64,
    i: int,
)
    requires
        exact(v),
        s.pending.len() == 0,
        before.bids.len() == 10,
        before.asks.len() == 10,
        after.bids.len() == 10,
        after.asks.len() == 10,
        0 <= i < 10,
    ensures
        ({
            let n = s.changed(before, after, now);
            let delta = FlowView::of_delta(before, after);
            &&& n.last_top == Some(after)
            &&& n.last_mid == Some(after.mid())
            &&& n.pending_book is Some
            &&& n.pending_book->0.before == before
            &&& v(n.pending_book->0.flow.cancel_bid[i]) == v(delta.cancel_bid[i])
            &&& v(n.pending_book->0.flow.cancel_ask[i]) == v(delta.cancel_ask[i])
            &&& v(n.pending_book->0.flow.add_bid[i]) == 0 as real
            &&& v(n.pending_book->0.flow.add_ask[i]) == 0 as real
            &&& v(delta.add_bid[i]) > 0 as real || v(delta.add_ask[i]) > 0 as real ==> {
                let e = n.events.last();
                &&& n.events.len() > 0
                &&& e.at == now
                &&& v(e.flow.add_bid[i]) == v(delta.add_bid[i])
                &&& v(e.flow.add_ask[i]) == v(delta.add_ask[i])
                &&& v(e.flow.cancel_bid[i]) == 0 as real
                &&& v(e.flow.cancel_ask[i]) == 0 as real
            }
        }),
{
    lemma_constants(v);
    let delta = FlowView::of_delta(before, after);
    lemma_additions_apart(v, delta, i);
    let a = delta.additions();
    lemma_ops(v, zero_spec::<T>(), a.add_bid[i]);
    lemma_ops(v, zero_spec::<T>(), a.add_ask[i]);
    let e = TimedView { at: now, flow: a, depth_after: DepthView::of_top(after) };
    lemma_newest_kept(s.events, e, now);
    if v(delta.add_bid[i]) > 0 as real || v(delta.add_ask[i]) > 0 as real {
        assert(a.has_additions());
    }
    assert(delta.without_additions().excluding_all(before, s.pending)
        == delta.without_additions());
}

/// A book that was not updated for more than two seconds starts everything over
/// when it is; within two seconds nothing is interrupted.
pub proof fn lemma_late_update<T: Real>(
    s: EngineState<T>,
    top: TopView<T>,
    prev: u64,
    now: u64,
    alpha: T,
)
    requires
        s.book.top() == Some(top),
        s.last_top is Some,
        s.last_book_at == Some(prev),
    ensures
        ({
            let n = s.book_updated(now, alpha);
            &&& n.last_top == Some(top)
            &&& n.last_mid == Some(top.mid())
            &&& n.last_book_at == Some(now)
            &&& n.last_event_at == Some(now)
            &&& now - prev > 2_000_000_000 ==> {
                &&& n.interrupted
                &&& n.events.len() == 0
                &&& n.pending.len() == 0
                &&& n.pending_book is None
                &&& !n.ewma.initialized
                &&& n.ewma.accumulated == 0
            }
            &&& now - prev <= 2_000_000_000 ==> (n.interrupted ==> s.interrupted)
            &&& now - prev <= 2_000_000_000 ==> n.pending_book is Some
        }),
{
}

/// The first step of a mean that follows on nothing counts as a millisecond for
/// a trade and as 20 ms for the book; later ones count for the time since the
/// last event.
pub proof fn lemma_elapsed<T: Real>(s: EngineState<T>, ev: EventView<T>, now: u64)
    requires
        s.last_event_at matches Some(at) ==> at < now,
    ensures
        s.last_event_at is None && ev is Trade ==> s.step_at(ev, now) == 1_000_000,
        s.last_event_at is None && ev is DepthIncremental ==> s.step_at(ev, now) == 20_000_000,
        s.last_event_at matches Some(at) ==> ev is Trade || ev is DepthIncremental ==> s.step_at(
            ev,
            now,
        ) == now - at,
{
}

/// With another model the factors of the moment are used at once to predict with
/// it.
pub proof fn lemma_new_model<T: Real>(
    v: Reading<T>,
    s: EngineState<T>,
    m: FittedModel<T>,
    now: u64,
    alpha: T,
)
    requires
        exact(v),
        s.last_top is Some,
        s.tick_size is Some,
    ensures
        ({
            let after = s.with_model(m, now, alpha);
            let x = after.last_x;
            &&& after.model == m
            &&& v(after.last_pred[0]) == v(m.h10.intercept) + big_sum(parts(v, m.h10.beta@, x), 17)
            &&& v(after.last_pred[1]) == v(m.h25.intercept) + big_sum(parts(v, m.h25.beta@, x), 17)
            &&& v(after.last_pred[2]) == v(m.h50.intercept) + big_sum(parts(v, m.h50.beta@, x), 17)
            &&& after.book == s.book
            &&& after.events == s.events
        }),
{
    let next = EngineState { model: m, ..s };
    lemma_engine_predicts(v, next, s.last_top->0, s.tick_size->0, now, 0, alpha);
}

/// A new book starts everything over: nothing has happened, no trade waits, no
/// time has gone into the mean, and the middle is that of the new best levels.
pub proof fn lemma_new_book<T: Real>(s: EngineState<T>, top: TopView<T>, now: u64, alpha: T)
    requires
        s.book.top() == Some(top),
    ensures
        ({
            let n = s.book_replaced(now, alpha);
            &&& n.events.len() == 0
            &&& n.pending.len() == 0
            &&& n.pending_book is None
            &&& n.ewma.accumulated == 0
            &&& s.warm_period > 0 ==> n.interrupted
            &&& n.last_top == Some(top)
            &&& n.last_mid == Some(top.mid())
            &&& n.last_book_at == Some(now)
            &&& n.model == s.model
            &&& s.tick_size is Some ==> n.ewma.initialized && n.ewma.mean == n.last_raw
            &&& s.tick_size is None ==> !n.ewma.initialized
        }),
{
}

/// Where the warming starts over all that happened is forgotten, and the book,
/// the tick size and the model stay.
pub proof fn lemma_forgets<T: Real>(s: EngineState<T>)
    ensures
        ({
            let n = s.warming();
            &&& n.interrupted
            &&& n.events.len() == 0
            &&& n.pending.len() == 0
            &&& n.pending_book is None
            &&& n.last_top is None
            &&& n.last_mid is None
            &&& n.last_event_at is None
            &&& n.last_book_at is None
            &&& !n.ewma.initialized
            &&& n.ewma.accumulated == 0
            &&& n.model == s.model
            &&& n.tick_size == s.tick_size
            &&& n.book == s.book
        }),
{
}

} // verus!
