//! What counts in a window, and how long what happened is kept.
use vstd::prelude::*;

#[allow(unused_imports)]
use crate::clock::since_spec;
#[allow(unused_imports)]
use crate::laws::factors::{
    amounts, amounts_of, depth_of, gone_ask, gone_bid, is_contrast, lemma_depletion, lemma_ofi,
    part_of, push_at, sane_book, sane_window, tiny, weighed, whole_window, Kind,
};
#[allow(unused_imports)]
use crate::market::book::{TopView, MODEL_LEVELS};
#[allow(unused_imports)]
use crate::market::flow::{nothing, FlowView};
#[allow(unused_imports)]
use crate::number::Real;
#[allow(unused_imports)]
use crate::reals::{
    big_sum, exact, fraction, lemma_constants, lemma_ops, lemma_sum_same, read, Reading,
};
#[allow(unused_imports)]
use crate::signal::engine::{depth_by, kept, window_spec, EngineState, TimedView, SHORT_WINDOW};
#[allow(unused_imports)]
use crate::signal::factors::{tallied, AggView, DepthView};

verus! {

/// The amounts of one kind of flow.
pub open spec fn flow_of<T>(f: FlowView<T>, kind: Kind) -> Seq<T> {
    match kind {
        Kind::AddBid => f.add_bid,
        Kind::AddAsk => f.add_ask,
        Kind::CancelBid => f.cancel_bid,
        Kind::CancelAsk => f.cancel_ask,
        Kind::ExecBid => f.exec_bid,
        Kind::ExecAsk => f.exec_ask,
    }
}

/// Is a moment at most `len` ago?
pub open spec fn recent(now: u64, at: u64, len: int) -> bool {
    now - at <= len
}

/// What event `e` counts for at level `i`, if it is recent enough.
pub open spec fn counted_at<T>(
    v: Reading<T>,
    events: Seq<TimedView<T>>,
    now: u64,
    len: int,
    kind: Kind,
    i: int,
) -> spec_fn(int) -> real {
    |e: int|
        if recent(now, events[e].at, len) {
            v(flow_of(events[e].flow, kind)[i])
        } else {
            0 as real
        }
}

/// A window holds, of each kind and at each level, the sum of what happened in
/// it, and nothing that is older.
pub proof fn lemma_window<T: Real>(
    v: Reading<T>,
    events: Seq<TimedView<T>>,
    now: u64,
    len: u64,
    kind: Kind,
    i: int,
)
    requires
        exact(v),
        0 <= i < MODEL_LEVELS,
    ensures
        whole_window(window_spec(events, now, len)),
        v(amounts_of(window_spec(events, now, len), kind)[i]) == big_sum(
            counted_at(v, events, now, len as int, kind, i),
            events.len() as int,
        ),
    decreases events.len(),
{
    lemma_constants(v);
    if events.len() > 0 {
        let front = events.drop_last();
        lemma_window(v, front, now, len, kind, i);
        lemma_sum_same(
            counted_at(v, front, now, len as int, kind, i),
            counted_at(v, events, now, len as int, kind, i),
            front.len() as int,
        );
        let before = window_spec(front, now, len);
        lemma_ops(v, amounts_of(before, kind)[i], flow_of(events.last().flow, kind)[i]);
    }
}

/// What a flow pushes up at level `i`, less what it pushes down.
pub open spec fn push_of<T>(v: Reading<T>, f: FlowView<T>, i: int) -> real {
    v(f.add_bid[i]) + v(f.cancel_ask[i]) + v(f.exec_ask[i]) - v(f.add_ask[i]) - v(f.cancel_bid[i])
        - v(f.exec_bid[i])
}

/// What event `e` pushes at level `i`, if it is recent enough.
pub open spec fn pushes<T>(
    v: Reading<T>,
    events: Seq<TimedView<T>>,
    now: u64,
    len: int,
    i: int,
) -> spec_fn(int) -> real {
    |e: int|
        if recent(now, events[e].at, len) {
            push_of(v, events[e].flow, i)
        } else {
            0 as real
        }
}

proof fn lemma_window_push<T: Real>(
    v: Reading<T>,
    events: Seq<TimedView<T>>,
    now: u64,
    len: u64,
    i: int,
)
    requires
        exact(v),
        0 <= i < MODEL_LEVELS,
    ensures
        push_at(v, window_spec(events, now, len))(i) == big_sum(
            pushes(v, events, now, len as int, i),
            events.len() as int,
        ),
    decreases events.len(),
{
    lemma_constants(v);
    if events.len() > 0 {
        let front = events.drop_last();
        lemma_window_push(v, front, now, len, i);
        lemma_window(v, front, now, len, Kind::AddBid, i);
        lemma_sum_same(
            pushes(v, front, now, len as int, i),
            pushes(v, events, now, len as int, i),
            front.len() as int,
        );
        let w = window_spec(front, now, len);
        let f = events.last().flow;
        lemma_ops(v, w.add_bid[i], f.add_bid[i]);
        lemma_ops(v, w.add_ask[i], f.add_ask[i]);
        lemma_ops(v, w.cancel_bid[i], f.cancel_bid[i]);
        lemma_ops(v, w.cancel_ask[i], f.cancel_ask[i]);
        lemma_ops(v, w.exec_bid[i], f.exec_bid[i]);
        lemma_ops(v, w.exec_ask[i], f.exec_ask[i]);
    }
}

/// The pushes of all recent events at each level.
pub open spec fn pushed<T>(
    v: Reading<T>,
    events: Seq<TimedView<T>>,
    now: u64,
    len: int,
) -> spec_fn(int) -> real {
    |i: int| big_sum(pushes(v, events, now, len, i), events.len() as int)
}

proof fn lemma_pushed<T: Real>(
    v: Reading<T>,
    events: Seq<TimedView<T>>,
    now: u64,
    len: u64,
    weights: Seq<T>,
)
    requires
        exact(v),
    ensures
        weighed(v, weights, push_at(v, window_spec(events, now, len))) == weighed(
            v,
            weights,
            pushed(v, events, now, len as int),
        ),
{
    let f = push_at(v, window_spec(events, now, len));
    let g = pushed(v, events, now, len as int);
    let wf = |i: int| v(weights[i]) * f(i);
    let wg = |i: int| v(weights[i]) * g(i);
    assert forall|i: int| 0 <= i < MODEL_LEVELS implies #[trigger] wf(i) == wg(i) by {
        lemma_window_push(v, events, now, len, i);
    }
    lemma_sum_same(wf, wg, MODEL_LEVELS as int);
}

/// The order flow of an engine is what all events of the last 10 ms pushed, and
/// the longer one what those of the last 50 ms did, by the weights of the
/// levels, relative to time and depth.
pub proof fn lemma_engine_ofi<T: Real>(
    v: Reading<T>,
    s: EngineState<T>,
    top: TopView<T>,
    tick: T,
    now: u64,
)
    requires
        exact(v),
        sane_book(v, top),
        amounts(v, s.weights),
    ensures
        ({
            let raw = s.raw_at(top, tick, now);
            let by = depth_of(v, top, s.weights);
            &&& v(raw[6]) * (fraction(10, 1000) * by + tiny()) == weighed(
                v,
                s.weights,
                pushed(v, s.events, now, 10_000_000),
            )
            &&& v(raw[7]) * (fraction(50, 1000) * by + tiny()) == weighed(
                v,
                s.weights,
                pushed(v, s.events, now, 50_000_000),
            )
        }),
{
    let short = window_spec(s.events, now, 10_000_000);
    let long = window_spec(s.events, now, 50_000_000);
    lemma_window(v, s.events, now, 10_000_000, Kind::AddBid, 0);
    lemma_window(v, s.events, now, 50_000_000, Kind::AddBid, 0);
    lemma_ofi(v, top, tick, short, long, s.depth_ago(now, SHORT_WINDOW), s.weights);
    lemma_pushed(v, s.events, now, 10_000_000, s.weights);
    lemma_pushed(v, s.events, now, 50_000_000, s.weights);
}

/// The book at a moment is that after the last event by then, or else the one
/// that is given.
pub proof fn lemma_depth_by<T: Real>(
    events: Seq<TimedView<T>>,
    target: u64,
    otherwise: DepthView<T>,
    j: int,
)
    requires
        -1 <= j < events.len(),
        j >= 0 ==> events[j].at <= target,
        forall|k: int| j < k < events.len() ==> (#[trigger] events[k]).at > target,
    ensures
        depth_by(events, target, otherwise) == if j >= 0 {
            events[j].depth_after
        } else {
            otherwise
        },
    decreases events.len(),
{
    if events.len() > 0 && j < events.len() - 1 {
        assert(events[events.len() - 1].at > target);
        let front = events.drop_last();
        assert forall|k: int| j < k < front.len() implies (#[trigger] front[k]).at > target by {
            assert(events[k].at > target);
        }
        lemma_depth_by(front, target, otherwise, j);
    }
}

/// Depletion is measured against the book of 10 ms ago.
pub proof fn lemma_engine_depletion<T: Real>(
    v: Reading<T>,
    s: EngineState<T>,
    top: TopView<T>,
    tick: T,
    now: u64,
    j: int,
)
    requires
        exact(v),
        amounts(v, s.weights),
        now >= 10_000_000,
        0 <= j < s.events.len(),
        s.events[j].at <= now - 10_000_000,
        forall|k: int|
            j < k < s.events.len() ==> (#[trigger] s.events[k]).at > now - 10_000_000,
        sane_window(v, window_spec(s.events, now, 10_000_000)),
        amounts(v, s.events[j].depth_after.bid),
        amounts(v, s.events[j].depth_after.ask),
    ensures
        ({
            let w = window_spec(s.events, now, 10_000_000);
            let d = s.events[j].depth_after;
            is_contrast(
                v(s.raw_at(top, tick, now)[13]),
                part_of(
                    weighed(v, s.weights, gone_ask(v, w)),
                    weighed(v, s.weights, read(v, d.ask)),
                ),
                part_of(
                    weighed(v, s.weights, gone_bid(v, w)),
                    weighed(v, s.weights, read(v, d.bid)),
                ),
            )
        }),
{
    let otherwise = match s.last_top {
        Some(top) => DepthView::of_top(top),
        None => DepthView::blank(),
    };
    lemma_depth_by(s.events, (now - 10_000_000) as u64, otherwise, j);
    lemma_depletion(
        v,
        top,
        tick,
        window_spec(s.events, now, 10_000_000),
        window_spec(s.events, now, 50_000_000),
        s.events[j].depth_after,
        s.weights,
    );
}

/// Only events from the front are dropped, each of them more than 70 ms old,
/// and the first one that is kept is not.
pub proof fn lemma_kept<T>(events: Seq<TimedView<T>>, now: u64)
    ensures
        ({
            let gone = events.len() - kept(events, now).len();
            &&& 0 <= gone <= events.len()
            &&& kept(events, now) == events.skip(gone)
            &&& forall|i: int| 0 <= i < gone ==> now - (#[trigger] events[i]).at > 70_000_000
            &&& gone < events.len() ==> now - events[gone].at <= 70_000_000
        }),
    decreases events.len(),
{
    if events.len() > 0 && since_spec(now, events[0].at) > 70_000_000 {
        let rest = events.drop_first();
        lemma_kept(rest, now);
        let gone = events.len() - kept(events, now).len();
        assert(kept(events, now) =~= events.skip(gone));
        assert forall|i: int| 0 <= i < gone implies now - (#[trigger] events[i]).at
            > 70_000_000 by {
            if i > 0 {
                assert(rest[i - 1] == events[i]);
            }
        }
        if gone < events.len() {
            assert(rest[gone - 1] == events[gone]);
        }
    } else {
        assert(events.skip(0) =~= events);
    }
}

/// `f(0) + f(1) + .. + f(n - 1)`, of whole numbers.
pub open spec fn whole_sum(f: spec_fn(int) -> int, n: int) -> int
    decreases n,
{
    if n <= 0 {
        0
    } else {
        whole_sum(f, n - 1) + f(n - 1)
    }
}

proof fn lemma_whole_same(f: spec_fn(int) -> int, g: spec_fn(int) -> int, n: int)
    requires
        forall|i: int| 0 <= i < n ==> #[trigger] f(i) == g(i),
    ensures
        whole_sum(f, n) == whole_sum(g, n),
    decreases n,
{
    if n > 0 {
        lemma_whole_same(f, g, n - 1);
        assert(f(n - 1) == g(n - 1));
    }
}

/// How often each level was touched by one kind of flow.
pub open spec fn times_of<T>(f: FlowView<T>, kind: Kind) -> Seq<u32> {
    match kind {
        Kind::AddBid => f.n_add_bid,
        Kind::AddAsk => f.n_add_ask,
        Kind::CancelBid => f.n_cancel_bid,
        Kind::CancelAsk => f.n_cancel_ask,
        Kind::ExecBid => f.n_exec_bid,
        Kind::ExecAsk => f.n_exec_ask,
    }
}

/// How often one kind of flow occurred in a window.
pub open spec fn times_in<T>(w: AggView<T>, kind: Kind) -> int {
    match kind {
        Kind::AddBid => w.n_add_bid as int,
        Kind::AddAsk => w.n_add_ask as int,
        Kind::CancelBid => w.n_cancel_bid as int,
        Kind::CancelAsk => w.n_cancel_ask as int,
        Kind::ExecBid => w.n_exec_bid as int,
        Kind::ExecAsk => w.n_exec_ask as int,
    }
}

/// All levels together.
pub open spec fn all_levels(counts: Seq<u32>) -> int {
    whole_sum(|i: int| counts[i] as int, counts.len() as int)
}

/// How often event `e` counts, if it is recent enough.
pub open spec fn times_at<T>(
    events: Seq<TimedView<T>>,
    now: u64,
    len: int,
    kind: Kind,
) -> spec_fn(int) -> int {
    |e: int|
        if recent(now, events[e].at, len) {
            all_levels(times_of(events[e].flow, kind))
        } else {
            0
        }
}

proof fn lemma_tallied(n: u32, counts: Seq<u32>)
    ensures
        tallied(n, counts) == (n + all_levels(counts)) % 0x1_0000_0000,
    decreases counts.len(),
{
    if counts.len() > 0 {
        let front = counts.drop_last();
        lemma_tallied(n, front);
        lemma_whole_same(|i: int| front[i] as int, |i: int| counts[i] as int, front.len() as int);
    }
}

/// A window counts every event in it once, at each level that it touched,
/// around 2^32.
pub proof fn lemma_window_counts<T: Real>(
    events: Seq<TimedView<T>>,
    now: u64,
    len: u64,
    kind: Kind,
)
    ensures
        times_in(window_spec(events, now, len), kind) == whole_sum(
            times_at(events, now, len as int, kind),
            events.len() as int,
        ) % 0x1_0000_0000,
    decreases events.len(),
{
    if events.len() > 0 {
        let front = events.drop_last();
        lemma_window_counts(front, now, len, kind);
        lemma_whole_same(
            times_at(front, now, len as int, kind),
            times_at(events, now, len as int, kind),
            front.len() as int,
        );
        let before = window_spec(front, now, len);
        let counts = times_of(events.last().flow, kind);
        let n = times_in(before, kind) as u32;
        lemma_tallied(n, counts);
        assert(times_in(before.plus_flow(events.last().flow), kind) == tallied(n, counts));
        let all = whole_sum(times_at(events, now, len as int, kind), front.len() as int);
        assert(n == all % 0x1_0000_0000);
        lemma_around(all, all_levels(counts));
    }
}

proof fn lemma_around(a: int, b: int)
    ensures
        (a % 0x1_0000_0000 + b) % 0x1_0000_0000 == (a + b) % 0x1_0000_0000,
{
}

} // verus!
