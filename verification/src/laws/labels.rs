//! What samples are labelled with, and when.
use vstd::prelude::*;

#[allow(unused_imports)]
use crate::clock::since_spec;
#[allow(unused_imports)]
use crate::eval::{
    lemma_pruned, pruned, lemma_latest_before, lemma_leading, ready, waiting, EvalState, MidPoint,
    PendingView,
};
#[allow(unused_imports)]
use crate::number::Real;
#[allow(unused_imports)]
use crate::reals::{exact, lemma_divide, lemma_ops, Reading};
#[allow(unused_imports)]
use crate::signal::engine::EngineState;
#[allow(unused_imports)]
use crate::types::{DataQuality, Horizon};

verus! {

/// How long after a sample its label `k` is due, in nanoseconds: 10, 25 and
/// 50 ms.
pub open spec fn delay(k: int) -> int {
    if k == 0 {
        10_000_000
    } else if k == 1 {
        25_000_000
    } else {
        50_000_000
    }
}

/// Is `i` the last middle before `target`, of middles in the order of time?
pub open spec fn last_one_before<T>(mids: Seq<MidPoint<T>>, target: int, i: int) -> bool {
    &&& 0 <= i < mids.len()
    &&& mids[i].mono < target
    &&& i + 1 < mids.len() ==> mids[i + 1].mono >= target
    &&& forall|j: int, k: int| 0 <= j <= k < mids.len() ==> mids[j].mono <= mids[k].mono
}

/// A label is the move of the middle from the sample until the label is due, in
/// ticks. It is filled in as soon as it is due.
pub proof fn lemma_label<T: Real>(
    v: Reading<T>,
    p: PendingView<T>,
    mids: Seq<MidPoint<T>>,
    now: u64,
    k: int,
    i: int,
)
    requires
        exact(v),
        p.wf(),
        0 <= k < 3,
        !p.done[k],
        p.quality == DataQuality::Good,
        v(p.tick_size) != 0 as real,
        now >= p.sampled_at + delay(k),
        last_one_before(mids, p.sampled_at + delay(k), i),
    ensures
        ({
            let after = p.labelled(mids, now);
            &&& after.done[k]
            &&& after.valid[k]
            &&& after.actual[k] is Some
            &&& v(after.actual[k]->0) * v(p.tick_size) == v(mids[i].mid) - v(p.mid)
        }),
{
    let due = p.due(Horizon::all_spec()[k]);
    assert(due == p.sampled_at + delay(k));
    lemma_latest_before(mids, p.mid, p.tick_size, due, i);
    let moved = mids[i].mid.minus_spec(p.mid);
    lemma_ops(v, mids[i].mid, p.mid);
    lemma_ops(v, moved, p.tick_size);
    lemma_divide(v(moved), v(p.tick_size));
}

/// Before a label is due nothing is known of it.
pub proof fn lemma_label_waits<T: Real>(
    p: PendingView<T>,
    mids: Seq<MidPoint<T>>,
    now: u64,
    k: int,
)
    requires
        p.wf(),
        0 <= k < 3,
        now < p.sampled_at + delay(k),
    ensures
        p.labelled(mids, now).done[k] == p.done[k],
        p.labelled(mids, now).valid[k] == p.valid[k],
        p.labelled(mids, now).actual[k] == p.actual[k],
{
    assert(p.due(Horizon::all_spec()[k]) == p.sampled_at + delay(k));
}

/// Without a middle before it is due, a label is waited for 200 ms and then
/// given up. A sample of bad data gets no label at all.
pub proof fn lemma_label_given_up<T: Real>(
    p: PendingView<T>,
    mids: Seq<MidPoint<T>>,
    now: u64,
    k: int,
)
    requires
        p.wf(),
        0 <= k < 3,
        !p.done[k],
        now >= p.sampled_at + delay(k),
        p.quality != DataQuality::Good || mids.len() == 0 || mids[0].mono >= p.sampled_at + delay(k),
    ensures
        ({
            let after = p.labelled(mids, now);
            let waited = now - (p.sampled_at + delay(k)) <= 200_000_000;
            &&& p.quality == DataQuality::Good && waited ==> !after.done[k] && after.valid[k]
                == p.valid[k] && after.actual[k] == p.actual[k]
            &&& !(p.quality == DataQuality::Good && waited) ==> after.done[k] && !after.valid[k]
                && after.actual[k] is None
        }),
{
    let due = p.due(Horizon::all_spec()[k]);
    assert(due == p.sampled_at + delay(k));
    lemma_leading(mids, due, 0);
}

/// A sample is stored with the time, middle, factors and model that it was
/// taken with, with its predictions if its data were good, and with those labels
/// that are valid.
pub proof fn lemma_completed<T: Real>(p: PendingView<T>, k: int)
    requires
        0 <= k < 3,
    ensures
        ({
            let c = p.completed();
            &&& c.ts_ms == p.ts_ms
            &&& c.mid == p.mid
            &&& c.tick_size == p.tick_size
            &&& c.factors == p.factors
            &&& c.model_version == p.model_version
            &&& p.quality == DataQuality::Good ==> c.pred[k] == Some(p.pred[k])
            &&& p.quality != DataQuality::Good ==> c.pred[k] is None
            &&& p.valid[k] ==> c.actual[k] == p.actual[k]
            &&& !p.valid[k] ==> c.actual[k] is None
        }),
{
}

/// Are the places in order, and within bounds?
pub open spec fn are_places(places: Seq<int>, n: int) -> bool {
    &&& forall|i: int| 0 <= i < places.len() ==> 0 <= #[trigger] places[i] < n
    &&& forall|i: int, j: int| 0 <= i < j < places.len() ==> places[i] < places[j]
}

/// The samples that wait on are those that are not complete, in their order.
/// Returns their places.
pub proof fn lemma_waiting<T: Real>(
    pending: Seq<PendingView<T>>,
    mids: Seq<MidPoint<T>>,
    now: u64,
) -> (places: Seq<int>)
    ensures
        ({
            let left = waiting(pending, mids, now);
            &&& are_places(places, pending.len() as int)
            &&& places.len() == left.len()
            &&& forall|j: int|
                0 <= j < places.len() ==> left[j] == pending[#[trigger] places[j]].labelled(
                    mids,
                    now,
                ) && !left[j].all_done()
            &&& forall|i: int|
                0 <= i < pending.len() && !(#[trigger] pending[i]).labelled(mids, now).all_done()
                    ==> places.contains(i)
        }),
    decreases pending.len(),
{
    if pending.len() == 0 {
        Seq::empty()
    } else {
        let front = pending.drop_last();
        let before = lemma_waiting(front, mids, now);
        let last = pending.len() - 1;
        let out = if pending.last().labelled(mids, now).all_done() {
            before
        } else {
            before.push(last)
        };
        assert forall|i: int|
            0 <= i < pending.len() && !(#[trigger] pending[i]).labelled(
                mids,
                now,
            ).all_done() implies out.contains(i) by {
            if i < last {
                assert(front[i] == pending[i]);
                let j = choose|j: int| 0 <= j < before.len() && before[j] == i;
                assert(out[j] == i);
            } else {
                assert(out[before.len() as int] == i);
            }
        }
        out
    }
}

/// The samples that are stored are those that are complete, in their order.
/// Returns their places.
pub proof fn lemma_ready<T: Real>(
    pending: Seq<PendingView<T>>,
    mids: Seq<MidPoint<T>>,
    now: u64,
) -> (places: Seq<int>)
    ensures
        ({
            let stored = ready(pending, mids, now);
            &&& are_places(places, pending.len() as int)
            &&& places.len() == stored.len()
            &&& forall|j: int|
                0 <= j < places.len() ==> {
                    let p = pending[#[trigger] places[j]].labelled(mids, now);
                    stored[j] == p.completed() && p.all_done()
                }
            &&& forall|i: int|
                0 <= i < pending.len() && (#[trigger] pending[i]).labelled(mids, now).all_done()
                    ==> places.contains(i)
        }),
    decreases pending.len(),
{
    if pending.len() == 0 {
        Seq::empty()
    } else {
        let front = pending.drop_last();
        let before = lemma_ready(front, mids, now);
        let last = pending.len() - 1;
        let out = if pending.last().labelled(mids, now).all_done() {
            before.push(last)
        } else {
            before
        };
        assert forall|i: int|
            0 <= i < pending.len() && (#[trigger] pending[i]).labelled(
                mids,
                now,
            ).all_done() implies out.contains(i) by {
            if i < last {
                assert(front[i] == pending[i]);
                let j = choose|j: int| 0 <= j < before.len() && before[j] == i;
                assert(out[j] == i);
            } else {
                assert(out[before.len() as int] == i);
            }
        }
        out
    }
}

/// A frame goes out first of all, and then as soon as a period has passed since
/// the last one, but not before. The middle of the book is noted with every
/// event.
pub proof fn lemma_frames_apart<T: Real>(
    s: EvalState<T>,
    engine: EngineState<T>,
    now: u64,
    wall_ms: i64,
    period: u64,
)
    requires
        s.last_publish matches Some(at) ==> at <= now,
    ensures
        ({
            let after = s.after_event(engine, now, wall_ms, period);
            &&& s.last_publish is None ==> after.last_publish == Some(now)
            &&& s.last_publish matches Some(at) ==> now - at >= period ==> after.last_publish
                == Some(now)
            &&& s.last_publish matches Some(at) ==> now - at < period ==> after.last_publish
                == Some(at)
            &&& after.pending == s.pending
            &&& engine.last_mid matches Some(mid) ==> after.mids.len() > 0 && after.mids.last()
                == (MidPoint { mono: now, wall_ms, mid })
        }),
{
    if let Some(mid) = engine.last_mid {
        let m = MidPoint { mono: now, wall_ms, mid };
        lemma_last_stays(s.mids.push(m), now);
    }
}

proof fn lemma_last_stays<T>(mids: Seq<MidPoint<T>>, now: u64)
    requires
        mids.len() > 0,
        mids.last().mono == now,
    ensures
        crate::eval::pruned(mids, now).len() > 0,
        crate::eval::pruned(mids, now).last() == mids.last(),
    decreases mids.len(),
{
    if since_spec(now, mids[0].mono) > crate::eval::MID_KEEP {
        assert(mids.len() > 1);
        lemma_last_stays(mids.drop_first(), now);
    }
}

/// Middles in the order of time are dropped from the front once they are more
/// than five seconds old, and not before.
pub proof fn lemma_middles_kept<T>(mids: Seq<MidPoint<T>>, now: u64, i: int)
    requires
        forall|j: int, k: int| 0 <= j <= k < mids.len() ==> mids[j].mono <= mids[k].mono,
        0 <= i < mids.len(),
    ensures
        ({
            let gone = mids.len() - pruned(mids, now).len();
            &&& pruned(mids, now) == mids.skip(gone)
            &&& i < gone <==> now - mids[i].mono > 5_000_000_000
        }),
{
    lemma_pruned(mids, now, i);
}

/// A sample is taken of the engine as it is: its middle, tick size, factors and
/// predictions, with the model that made them. None of its labels is known.
pub proof fn lemma_sample<T: Real>(engine: EngineState<T>, now: u64, wall_ms: i64, k: int)
    requires
        0 <= k < 3,
    ensures
        ({
            let p = EvalState::sample_of(engine, now, wall_ms);
            &&& p.sampled_at == now
            &&& p.ts_ms == wall_ms
            &&& engine.last_mid matches Some(mid) ==> p.mid == mid
            &&& engine.tick_size matches Some(tick) ==> p.tick_size == tick
            &&& p.factors == engine.last_x
            &&& p.pred == engine.last_pred
            &&& p.model_version == engine.model.version@
            &&& p.quality == engine.quality(now)
            &&& !p.done[k]
            &&& !p.valid[k]
            &&& p.actual[k] is None
        }),
{
}

} // verus!
