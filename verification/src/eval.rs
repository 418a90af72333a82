//! Samples, and what came of their predictions.
use std::collections::VecDeque;
use vstd::prelude::*;

use crate::clock::{now_ms, since, MILLISECOND};
#[allow(unused_imports)]
use crate::clock::{millis_spec, since_spec};
use crate::market::gate::MarketEvent;
#[allow(unused_imports)]
use crate::market::gate::EventView;
use crate::number::{zero, Real};
#[allow(unused_imports)]
use crate::number::zero_spec;
use crate::signal::engine::{EngineSnapshot, SignalEngine};
#[allow(unused_imports)]
use crate::signal::engine::EngineState;
use crate::text::same_text;
use crate::types::{DataQuality, FittedModel, Horizon, RunPhase, FEATURE_COUNT, FEATURE_VERSION};

verus! {

/// How long a middle is kept.
pub const MID_KEEP: u64 = 5_000_000_000;

/// How long a label may wait for a middle.
pub const LABEL_STALE: u64 = 200_000_000;

/// The last moment at which a sample can be taken: its labels are due within
/// the range of the clock.
pub const LATEST_SAMPLE: u64 = 18_446_744_073_659_551_615;

/// The middle of the book at some moment.
#[derive(Clone, Copy, Debug)]
pub struct MidPoint<T> {
    pub mono: u64,
    pub wall_ms: i64,
    pub mid: T,
}

/// A sample that waits for its labels.
#[derive(Clone, Debug)]
pub struct PendingSample<T> {
    pub ts_ms: i64,
    pub sampled_at: u64,
    pub mid: T,
    pub tick_size: T,
    pub factors: [T; FEATURE_COUNT],
    pub model_version: String,
    pub pred: [T; 3],
    pub quality: DataQuality,
    pub actual: [Option<T>; 3],
    pub valid: [bool; 3],
    pub done: [bool; 3],
}

/// What a [`PendingSample`] holds.
#[verifier::ext_equal]
pub struct PendingView<T> {
    pub ts_ms: i64,
    pub sampled_at: u64,
    pub mid: T,
    pub tick_size: T,
    pub factors: Seq<T>,
    pub model_version: Seq<char>,
    pub pred: Seq<T>,
    pub quality: DataQuality,
    pub actual: Seq<Option<T>>,
    pub valid: Seq<bool>,
    pub done: Seq<bool>,
}

impl<T: Real> View for PendingSample<T> {
    type V = PendingView<T>;

    open spec fn view(&self) -> PendingView<T> {
        PendingView {
            ts_ms: self.ts_ms,
            sampled_at: self.sampled_at,
            mid: self.mid,
            tick_size: self.tick_size,
            factors: self.factors@,
            model_version: self.model_version@,
            pred: self.pred@,
            quality: self.quality,
            actual: self.actual@,
            valid: self.valid@,
            done: self.done@,
        }
    }
}

/// A sample with its labels.
#[derive(Clone, Debug)]
pub struct CompletedSample<T> {
    pub ts_ms: i64,
    pub mid: T,
    pub tick_size: T,
    pub factors: [T; FEATURE_COUNT],
    pub model_version: String,
    pub feature_version: String,
    pub pred: [Option<T>; 3],
    pub actual: [Option<T>; 3],
    pub quality: String,
}

/// What a [`CompletedSample`] holds.
#[verifier::ext_equal]
pub struct CompletedView<T> {
    pub ts_ms: i64,
    pub mid: T,
    pub tick_size: T,
    pub factors: Seq<T>,
    pub model_version: Seq<char>,
    pub feature_version: Seq<char>,
    pub pred: Seq<Option<T>>,
    pub actual: Seq<Option<T>>,
    pub quality: Seq<char>,
}

impl<T: Real> View for CompletedSample<T> {
    type V = CompletedView<T>;

    open spec fn view(&self) -> CompletedView<T> {
        CompletedView {
            ts_ms: self.ts_ms,
            mid: self.mid,
            tick_size: self.tick_size,
            factors: self.factors@,
            model_version: self.model_version@,
            feature_version: self.feature_version@,
            pred: self.pred@,
            actual: self.actual@,
            quality: self.quality@,
        }
    }
}

/// What came of a prediction.
#[derive(Clone, Copy, Debug)]
pub struct HorizonLabel<T> {
    pub actual: Option<T>,
    pub valid: bool,
}

/// How many of the middles come before the first that is not before `target`.
pub open spec fn leading<T>(mids: Seq<MidPoint<T>>, target: u64) -> nat
    decreases mids.len(),
{
    if mids.len() > 0 && mids[0].mono < target {
        1 + leading(mids.drop_first(), target)
    } else {
        0
    }
}

/// The last middle before `target`.
pub open spec fn last_before<T>(mids: Seq<MidPoint<T>>, target: u64) -> Option<T> {
    let n = leading(mids, target);
    if n > 0 {
        Some(mids[n - 1].mid)
    } else {
        None
    }
}

/// By how many ticks the middle had moved before `target`.
pub open spec fn label_spec<T: Real>(
    mids: Seq<MidPoint<T>>,
    sample_mid: T,
    tick: T,
    target: u64,
) -> Option<T> {
    match last_before(mids, target) {
        Some(mid) => Some(mid.minus_spec(sample_mid).over_spec(tick)),
        None => None,
    }
}

/// Middles up to the one before `n` lie before `target`, and the one at `n` does not.
pub open spec fn leads<T>(mids: Seq<MidPoint<T>>, target: u64, n: int) -> bool {
    &&& 0 <= n <= mids.len()
    &&& forall|i: int| 0 <= i < n ==> (#[trigger] mids[i]).mono < target
    &&& n < mids.len() ==> mids[n].mono >= target
}

/// There is just one place where the middles stop lying before `target`.
pub proof fn lemma_leading<T>(mids: Seq<MidPoint<T>>, target: u64, n: int)
    ensures
        leads(mids, target, n) <==> leading(mids, target) == n,
    decreases mids.len(),
{
    if mids.len() > 0 && mids[0].mono < target {
        let rest = mids.drop_first();
        lemma_leading(rest, target, n - 1);
        if leads(mids, target, n) {
            assert(n != 0);
            assert forall|i: int| 0 <= i < n - 1 implies (#[trigger] rest[i]).mono < target by {
                assert(mids[i + 1].mono < target);
            }
        }
        if leads(rest, target, n - 1) {
            assert forall|i: int| 0 <= i < n implies (#[trigger] mids[i]).mono < target by {
                if i > 0 {
                    assert(rest[i - 1].mono < target);
                }
            }
        }
    } else if leads(mids, target, n) && n > 0 {
        assert(mids[0].mono < target);
    }
}

/// No look-ahead: middles at or after `target` have no influence on the label.
pub proof fn lemma_no_look_ahead<T: Real>(
    before: Seq<MidPoint<T>>,
    after: Seq<MidPoint<T>>,
    sample_mid: T,
    tick: T,
    target: u64,
)
    requires
        forall|i: int| 0 <= i < after.len() ==> (#[trigger] after[i]).mono >= target,
    ensures
        label_spec(before + after, sample_mid, tick, target) == label_spec(
            before,
            sample_mid,
            tick,
            target,
        ),
{
    let n = leading(before, target) as int;
    lemma_leading(before, target, n);
    assert forall|i: int| 0 <= i < n implies (#[trigger] (before + after)[i]).mono < target by {
        assert(before[i].mono < target);
    }
    assert(leads(before + after, target, n)) by {
        if n < (before + after).len() && n >= before.len() {
            assert((before + after)[n] == after[n - before.len()]);
        }
    }
    lemma_leading(before + after, target, n);
}

/// Where the middles are in order, the label comes from the last one that
/// lies before `target`, wherever it stands.
pub proof fn lemma_latest_before<T: Real>(
    mids: Seq<MidPoint<T>>,
    sample_mid: T,
    tick: T,
    target: u64,
    i: int,
)
    requires
        forall|j: int, k: int| 0 <= j <= k < mids.len() ==> mids[j].mono <= mids[k].mono,
        0 <= i < mids.len(),
        mids[i].mono < target,
        i + 1 < mids.len() ==> mids[i + 1].mono >= target,
    ensures
        label_spec(mids, sample_mid, tick, target) == Some(
            mids[i].mid.minus_spec(sample_mid).over_spec(tick),
        ),
{
    assert forall|j: int| 0 <= j < i + 1 implies (#[trigger] mids[j]).mono < target by {
        assert(mids[j].mono <= mids[i].mono);
    }
    lemma_leading(mids, target, i + 1);
}

/// Last valid mid with time strictly before `target`. No look-ahead.
pub fn label_from_mids<T: Real>(
    mids: &[MidPoint<T>],
    sample_mid: T,
    tick: T,
    target: u64,
) -> (r: HorizonLabel<T>)
    ensures
        r.actual == label_spec(mids@, sample_mid, tick, target),
        r.valid == (r.actual is Some),
{
    let mut last: Option<T> = None;
    let mut i: usize = 0;
    while i < mids.len() && mids[i].mono < target
        invariant
            0 <= i <= mids@.len(),
            forall|k: int| 0 <= k < i ==> (#[trigger] mids@[k]).mono < target,
            last == (if i > 0 {
                Some(mids@[i - 1].mid)
            } else {
                None
            }),
        decreases mids@.len() - i,
    {
        last = Some(mids[i].mid);
        i = i + 1;
    }
    proof {
        lemma_leading(mids@, target, i as int);
    }
    match last {
        Some(mid) => HorizonLabel { actual: Some(mid.minus(sample_mid).over(tick)), valid: true },
        None => HorizonLabel { actual: None, valid: false },
    }
}

/// What is known of one horizon.
pub struct HorizonState<T> {
    pub actual: Option<T>,
    pub valid: bool,
    pub done: bool,
}

impl<T: Real> PendingView<T> {
    /// Labels can be due only within the range of the clock.
    pub open spec fn wf(self) -> bool {
        &&& self.sampled_at <= LATEST_SAMPLE
        &&& self.actual.len() == 3
        &&& self.valid.len() == 3
        &&& self.done.len() == 3
    }

    /// When the label of a horizon is due.
    pub open spec fn due(self, h: Horizon) -> u64 {
        (self.sampled_at + h.ms_spec() * MILLISECOND) as u64
    }

    pub open spec fn horizon(self, i: int) -> HorizonState<T> {
        HorizonState { actual: self.actual[i], valid: self.valid[i], done: self.done[i] }
    }

    /// What is known of horizon `i` once the middles are: a label that is due
    /// is the move until then. Without a middle it is waited for a while, and
    /// then there is none. A sample of bad data gets none at once.
    pub open spec fn horizon_after(
        self,
        i: int,
        mids: Seq<MidPoint<T>>,
        now: u64,
    ) -> HorizonState<T> {
        let due = self.due(Horizon::all_spec()[i]);
        let none = HorizonState { actual: None, valid: false, done: true };
        if self.done[i] || now < due {
            self.horizon(i)
        } else if self.quality == DataQuality::Good {
            match label_spec(mids, self.mid, self.tick_size, due) {
                Some(actual) => HorizonState { actual: Some(actual), valid: true, done: true },
                None => if since_spec(now, due) > LABEL_STALE {
                    none
                } else {
                    self.horizon(i)
                },
            }
        } else {
            none
        }
    }

    pub open spec fn labelled(self, mids: Seq<MidPoint<T>>, now: u64) -> Self {
        PendingView {
            actual: Seq::new(3, |i: int| self.horizon_after(i, mids, now).actual),
            valid: Seq::new(3, |i: int| self.horizon_after(i, mids, now).valid),
            done: Seq::new(3, |i: int| self.horizon_after(i, mids, now).done),
            ..self
        }
    }

    pub open spec fn all_done(self) -> bool {
        self.done[0] && self.done[1] && self.done[2]
    }

    /// The sample as it is stored: predictions only of good data, labels only
    /// where they are valid.
    pub open spec fn completed(self) -> CompletedView<T> {
        CompletedView {
            ts_ms: self.ts_ms,
            mid: self.mid,
            tick_size: self.tick_size,
            factors: self.factors,
            model_version: self.model_version,
            feature_version: FEATURE_VERSION@,
            pred: Seq::new(
                3,
                |i: int|
                    if self.quality == DataQuality::Good {
                        Some(self.pred[i])
                    } else {
                        None
                    },
            ),
            actual: Seq::new(
                3,
                |i: int|
                    if self.valid[i] {
                        self.actual[i]
                    } else {
                        None
                    },
            ),
            quality: self.quality.name(),
        }
    }

    /// A label that is known does not change any more.
    pub proof fn lemma_label_stays(self, mids: Seq<MidPoint<T>>, now: u64, i: int)
        requires
            0 <= i < 3,
            self.done[i],
        ensures
            self.labelled(mids, now).horizon(i) == self.horizon(i),
    {
    }

    /// Once every label is overdue, a sample is complete, whatever the middles.
    pub proof fn lemma_completes(self, mids: Seq<MidPoint<T>>, now: u64)
        requires
            self.wf(),
            now > self.due(Horizon::H50) + LABEL_STALE,
        ensures
            self.labelled(mids, now).all_done(),
    {
    }

    /// A sample of bad data is stored without predictions and without labels.
    pub proof fn lemma_bad_data(self, mids: Seq<MidPoint<T>>, now: u64, i: int)
        requires
            0 <= i < 3,
            self.quality != DataQuality::Good,
            !self.valid[i],
        ensures
            self.labelled(mids, now).completed().pred[i] is None,
            self.labelled(mids, now).completed().actual[i] is None,
    {
    }
}

/// Fills in the labels that are due. Says whether all of them are known.
pub fn complete_labels<T: Real>(
    pending: &mut PendingSample<T>,
    mids: &[MidPoint<T>],
    now: u64,
) -> (r: bool)
    requires
        old(pending)@.wf(),
    ensures
        final(pending)@ == old(pending)@.labelled(mids@, now),
        final(pending)@.wf(),
        r == final(pending)@.all_done(),
{
    let ghost was = pending@;
    let all = Horizon::all();
    let mut i: usize = 0;
    while i < 3
        invariant
            0 <= i <= 3,
            all@ == Horizon::all_spec(),
            was.wf(),
            pending@ == (PendingView {
                actual: pending@.actual,
                valid: pending@.valid,
                done: pending@.done,
                ..was
            }),
            forall|k: int|
                0 <= k < i ==> (#[trigger] pending@.horizon(k)) == was.horizon_after(k, mids@, now),
            forall|k: int| i <= k < 3 ==> (#[trigger] pending@.horizon(k)) == was.horizon(k),
        decreases 3 - i,
    {
        let ghost before = pending@;
        assert(before.horizon(i as int) == was.horizon(i as int));
        if !pending.done[i] {
            let due: u64 = pending.sampled_at + all[i].ms() * MILLISECOND;
            if now >= due {
                if pending.quality.allows_valid_sample() {
                    let lab = label_from_mids(mids, pending.mid, pending.tick_size, due);
                    if lab.valid {
                        pending.actual[i] = lab.actual;
                        pending.valid[i] = true;
                        pending.done[i] = true;
                    } else if since(now, due) > LABEL_STALE {
                        pending.actual[i] = None;
                        pending.valid[i] = false;
                        pending.done[i] = true;
                    }
                } else {
                    pending.actual[i] = None;
                    pending.valid[i] = false;
                    pending.done[i] = true;
                }
            }
        }
        assert forall|k: int| 0 <= k < 3 && k != i implies (#[trigger] pending@.horizon(k))
            == before.horizon(k) by {}
        assert(pending@.horizon(i as int) == was.horizon_after(i as int, mids@, now));
        i = i + 1;
    }
    proof {
        let goal = was.labelled(mids@, now);
        assert(pending@.horizon(0) == was.horizon_after(0, mids@, now));
        assert(pending@.horizon(1) == was.horizon_after(1, mids@, now));
        assert(pending@.horizon(2) == was.horizon_after(2, mids@, now));
        assert(pending@.actual =~= goal.actual);
        assert(pending@.valid =~= goal.valid);
        assert(pending@.done =~= goal.done);
        assert(pending@ =~= was.labelled(mids@, now));
    }
    pending.done[0] && pending.done[1] && pending.done[2]
}

/// The sample as it is stored.
pub fn to_completed<T: Real>(p: &PendingSample<T>) -> (r: CompletedSample<T>)
    ensures
        r@ == p@.completed(),
{
    let mut pred: [Option<T>; 3] = [None, None, None];
    let mut actual: [Option<T>; 3] = [None, None, None];
    let mut i: usize = 0;
    while i < 3
        invariant
            0 <= i <= 3,
            forall|k: int| 0 <= k < i ==> (#[trigger] pred@[k]) == p@.completed().pred[k],
            forall|k: int| 0 <= k < i ==> (#[trigger] actual@[k]) == p@.completed().actual[k],
            forall|k: int| i <= k < 3 ==> (#[trigger] pred@[k]) is None,
            forall|k: int| i <= k < 3 ==> (#[trigger] actual@[k]) is None,
        decreases 3 - i,
    {
        if p.quality.allows_valid_sample() {
            pred[i] = Some(p.pred[i]);
        }
        if p.valid[i] {
            actual[i] = p.actual[i];
        }
        i = i + 1;
    }
    let r = CompletedSample {
        ts_ms: p.ts_ms,
        mid: p.mid,
        tick_size: p.tick_size,
        factors: p.factors,
        model_version: p.model_version.clone(),
        feature_version: FEATURE_VERSION.to_string(),
        pred,
        actual,
        quality: p.quality.as_str().to_string(),
    };
    assert(r@ =~= p@.completed());
    r
}

/// The wall time in milliseconds.
pub fn wall_ms() -> (r: i64)
    ensures
        exists|since_epoch: Option<u128>| r == #[trigger] millis_spec(since_epoch),
{
    now_ms()
}

/// Connection label after applying a market event. Disconnected / tick-size
/// failure must not be overwritten to "connected".
pub open spec fn connection_spec<T>(ev: EventView<T>, gap: bool) -> Seq<char> {
    if gap {
        "resubscribing"@
    } else {
        match ev {
            EventView::Disconnected(_) => "reconnecting"@,
            EventView::TickSizeFailed(_) => "tick_size_failed"@,
            _ => "connected"@,
        }
    }
}

/// Only an event that arrived on a sound connection is labelled "connected".
pub proof fn lemma_connected<T>(ev: EventView<T>, gap: bool)
    ensures
        connection_spec(ev, gap) == "connected"@ <==> !(gap || ev is Disconnected
            || ev is TickSizeFailed),
{
    reveal_strlit("resubscribing");
    reveal_strlit("reconnecting");
    reveal_strlit("tick_size_failed");
    reveal_strlit("connected");
    assert("connected"@.len() == 9);
    assert("resubscribing"@.len() == 13);
    assert("reconnecting"@.len() == 12);
    assert("tick_size_failed"@.len() == 16);
}

pub fn connection_after_event<T: Real>(ev: &MarketEvent<T>, gap: bool) -> (r: &'static str)
    ensures
        r@ == connection_spec(ev@, gap),
{
    if gap {
        "resubscribing"
    } else {
        match ev {
            MarketEvent::Disconnected(_) => "reconnecting",
            MarketEvent::TickSizeFailed(_) => "tick_size_failed",
            _ => "connected",
        }
    }
}

/// The middles without those at the front that are too old.
pub open spec fn pruned<T>(mids: Seq<MidPoint<T>>, now: u64) -> Seq<MidPoint<T>>
    decreases mids.len(),
{
    if mids.len() > 0 && since_spec(now, mids[0].mono) > MID_KEEP {
        pruned(mids.drop_first(), now)
    } else {
        mids
    }
}

/// Of middles in order, just those are kept that are at most five seconds old.
pub proof fn lemma_pruned<T>(mids: Seq<MidPoint<T>>, now: u64, i: int)
    requires
        forall|j: int, k: int| 0 <= j <= k < mids.len() ==> mids[j].mono <= mids[k].mono,
        0 <= i < mids.len(),
    ensures
        ({
            let gone = mids.len() - pruned(mids, now).len();
            &&& 0 <= gone <= mids.len()
            &&& pruned(mids, now) == mids.skip(gone)
            &&& i >= gone <==> since_spec(now, mids[i].mono) <= MID_KEEP
        }),
    decreases mids.len(),
{
    if since_spec(now, mids[0].mono) > MID_KEEP {
        let rest = mids.drop_first();
        assert forall|j: int, k: int| 0 <= j <= k < rest.len() implies rest[j].mono
            <= rest[k].mono by {
            assert(mids[j + 1].mono <= mids[k + 1].mono);
        }
        if rest.len() > 0 {
            lemma_pruned(
                rest,
                now,
                if i > 0 {
                    i - 1
                } else {
                    0
                },
            );
        }
        let gone = mids.len() - pruned(mids, now).len();
        assert(pruned(mids, now) =~= mids.skip(gone));
    } else {
        assert(mids.skip(0) =~= mids);
        assert(mids[0].mono <= mids[i].mono);
    }
}

fn prune_mids<T: Real>(mids: &mut VecDeque<MidPoint<T>>, now: u64)
    ensures
        final(mids)@ == pruned(old(mids)@, now),
{
    while mids.len() > 0 && since(now, mids[0].mono) > MID_KEEP
        invariant
            pruned(mids@, now) == pruned(old(mids)@, now),
        decreases mids@.len(),
    {
        let ghost before = mids@;
        mids.pop_front();
        assert(mids@ =~= before.drop_first());
    }
}

/// The middles and samples of a run, and when the last frame went out.
#[derive(Debug)]
pub struct Evaluator<T> {
    mids: VecDeque<MidPoint<T>>,
    pending: VecDeque<PendingSample<T>>,
    last_publish: Option<u64>,
}

/// What an [`Evaluator`] holds.
#[verifier::ext_equal]
pub struct EvalState<T> {
    pub mids: Seq<MidPoint<T>>,
    pub pending: Seq<PendingView<T>>,
    pub last_publish: Option<u64>,
}

/// What the samples of a list hold.
pub open spec fn pending_views<T: Real>(pending: Seq<PendingSample<T>>) -> Seq<PendingView<T>> {
    pending.map_values(|p: PendingSample<T>| p@)
}

/// What the rows of a list hold.
pub open spec fn completed_views<T: Real>(rows: Seq<CompletedSample<T>>) -> Seq<CompletedView<T>> {
    rows.map_values(|r: CompletedSample<T>| r@)
}

impl<T: Real> View for Evaluator<T> {
    type V = EvalState<T>;

    closed spec fn view(&self) -> EvalState<T> {
        EvalState {
            mids: self.mids@,
            pending: pending_views(self.pending@),
            last_publish: self.last_publish,
        }
    }
}

/// The samples that still wait after the labels that are due were filled in.
pub open spec fn waiting<T: Real>(
    pending: Seq<PendingView<T>>,
    mids: Seq<MidPoint<T>>,
    now: u64,
) -> Seq<PendingView<T>>
    decreases pending.len(),
{
    if pending.len() == 0 {
        Seq::empty()
    } else {
        let rest = waiting(pending.drop_last(), mids, now);
        let p = pending.last().labelled(mids, now);
        if p.all_done() {
            rest
        } else {
            rest.push(p)
        }
    }
}

/// The samples that are complete after the labels that are due were filled in.
pub open spec fn ready<T: Real>(
    pending: Seq<PendingView<T>>,
    mids: Seq<MidPoint<T>>,
    now: u64,
) -> Seq<CompletedView<T>>
    decreases pending.len(),
{
    if pending.len() == 0 {
        Seq::empty()
    } else {
        let rest = ready(pending.drop_last(), mids, now);
        let p = pending.last().labelled(mids, now);
        if p.all_done() {
            rest.push(p.completed())
        } else {
            rest
        }
    }
}

/// No sample is lost: each is complete or waits on.
pub proof fn lemma_none_lost<T: Real>(
    pending: Seq<PendingView<T>>,
    mids: Seq<MidPoint<T>>,
    now: u64,
)
    ensures
        waiting(pending, mids, now).len() + ready(pending, mids, now).len() == pending.len(),
    decreases pending.len(),
{
    if pending.len() > 0 {
        lemma_none_lost(pending.drop_last(), mids, now);
    }
}

/// The phase that the process is in when a sample is taken.
pub open spec fn phase_spec(degraded: bool, quality: DataQuality) -> RunPhase {
    if degraded {
        RunPhase::Degraded
    } else if quality == DataQuality::Good {
        RunPhase::Running
    } else {
        RunPhase::Warming
    }
}

impl<T: Real> EvalState<T> {
    pub open spec fn blank() -> Self {
        EvalState { mids: Seq::empty(), pending: Seq::empty(), last_publish: None }
    }

    /// The labels of every sample are due within the range of the clock.
    pub open spec fn wf(self) -> bool {
        forall|i: int| 0 <= i < self.pending.len() ==> (#[trigger] self.pending[i]).wf()
    }

    /// Is it time for a frame?
    pub open spec fn publish_due(self, now: u64, period: u64) -> bool {
        match self.last_publish {
            Some(at) => since_spec(now, at) >= period,
            None => true,
        }
    }

    /// After an event that left the engine in this state.
    pub open spec fn after_event(
        self,
        engine: EngineState<T>,
        now: u64,
        wall_ms: i64,
        period: u64,
    ) -> Self {
        EvalState {
            mids: pruned(
                match engine.last_mid {
                    Some(mid) => self.mids.push(MidPoint { mono: now, wall_ms, mid }),
                    None => self.mids,
                },
                now,
            ),
            pending: self.pending,
            last_publish: if self.publish_due(now, period) {
                Some(now)
            } else {
                self.last_publish
            },
        }
    }

    /// The sample of an engine in this state.
    pub open spec fn sample_of(engine: EngineState<T>, now: u64, wall_ms: i64) -> PendingView<T> {
        PendingView {
            ts_ms: wall_ms,
            sampled_at: now,
            mid: match engine.last_mid {
                Some(mid) => mid,
                None => zero_spec(),
            },
            tick_size: match engine.tick_size {
                Some(tick) => tick,
                None => zero_spec(),
            },
            factors: engine.last_x,
            model_version: engine.model.version@,
            pred: engine.last_pred,
            quality: engine.quality(now),
            actual: seq![None, None, None],
            valid: seq![false, false, false],
            done: seq![false, false, false],
        }
    }

    /// After the labels that are due were filled in.
    pub open spec fn after_labels(self, now: u64) -> Self {
        let mids = pruned(self.mids, now);
        EvalState { mids, pending: waiting(self.pending, mids, now), ..self }
    }
}

/// The engine with the model that is in force.
pub open spec fn brought_up_to_date<T: Real>(
    engine: EngineState<T>,
    model: FittedModel<T>,
    now: u64,
    alpha: T,
) -> EngineState<T> {
    if engine.model.version@ != model.version@ {
        engine.with_model(model, now, alpha)
    } else {
        engine
    }
}

/// What follows from a market event: how the connection is labelled, and
/// the frame to send where one is due.
#[derive(Debug)]
pub struct EventOutcome<T> {
    pub connection: &'static str,
    pub publish: Option<EngineSnapshot<T>>,
}

/// What follows when storing samples begins or ceases to fail.
#[derive(Clone, Copy, Debug, PartialEq, Eq, Structural)]
pub enum DegradedChange {
    /// The phase becomes degraded, and the alarm is raised.
    Raise,
    /// The alarm is cleared.
    Clear,
}

/// The alarm that is raised when samples cannot be stored.
pub const WRITE_ALARM: &'static str = "sqlite write failed; training paused";

/// Storing samples begins or ceases to fail.
pub fn degraded_change(failing: bool) -> (r: DegradedChange)
    ensures
        r == (if failing {
            DegradedChange::Raise
        } else {
            DegradedChange::Clear
        }),
{
    if failing {
        DegradedChange::Raise
    } else {
        DegradedChange::Clear
    }
}

/// The phase that the process is in when a sample is taken.
pub fn phase_of(degraded: bool, quality: DataQuality) -> (r: RunPhase)
    ensures
        r == phase_spec(degraded, quality),
{
    if degraded {
        RunPhase::Degraded
    } else if quality.allows_valid_sample() {
        RunPhase::Running
    } else {
        RunPhase::Warming
    }
}

impl<T: Real> Evaluator<T> {
    pub fn new() -> (r: Self)
        ensures
            r@ == EvalState::<T>::blank(),
            r@.wf(),
    {
        let r = Evaluator { mids: VecDeque::new(), pending: VecDeque::new(), last_publish: None };
        assert(r@ =~= EvalState::<T>::blank());
        r
    }

    /// Takes an event into the engine, and notes the middle after it. `alpha`
    /// is the share for the step that the engine asks for.
    pub fn on_event(
        &mut self,
        engine: &mut SignalEngine<T>,
        ev: MarketEvent<T>,
        now: u64,
        wall_ms: i64,
        period: u64,
        alpha: T,
    ) -> (r: EventOutcome<T>)
        ensures
            final(engine)@ == old(engine)@.after(ev@, now, alpha),
            final(self)@ == old(self)@.after_event(final(engine)@, now, wall_ms, period),
            r.connection@ == connection_spec(ev@, old(engine)@.gap_at(ev@)),
            r.publish is Some == old(self)@.publish_due(now, period),
            r.publish matches Some(snap) ==> snap.shows(final(engine)@, now),
            old(self)@.wf() ==> final(self)@.wf(),
    {
        let connected = connection_after_event(&ev, false);
        let gap: bool = engine.apply(ev, now, alpha);
        let snap = engine.snapshot(now);
        if let Some(mid) = snap.mid {
            self.mids.push_back(MidPoint { mono: now, wall_ms, mid });
        }
        prune_mids(&mut self.mids, now);
        let due: bool = match self.last_publish {
            Some(at) => since(now, at) >= period,
            None => true,
        };
        if due {
            self.last_publish = Some(now);
        }
        EventOutcome {
            connection: if gap {
                "resubscribing"
            } else {
                connected
            },
            publish: if due {
                Some(snap)
            } else {
                None
            },
        }
    }

    /// Takes a sample of the engine, with the model that is in force. Says
    /// which phase the process is in. `alpha` is the share for the step of no time.
    pub fn on_sample(
        &mut self,
        engine: &mut SignalEngine<T>,
        model: &FittedModel<T>,
        degraded: bool,
        now: u64,
        wall_ms: i64,
        alpha: T,
    ) -> (r: RunPhase)
        requires
            old(self)@.wf(),
            now <= LATEST_SAMPLE,
        ensures
            final(engine)@ == brought_up_to_date(old(engine)@, *model, now, alpha),
            final(self)@ == (EvalState {
                pending: old(self)@.pending.push(
                    EvalState::sample_of(final(engine)@, now, wall_ms),
                ),
                ..old(self)@
            }),
            final(self)@.wf(),
            r == phase_spec(degraded, final(engine)@.quality(now)),
    {
        if !same_text(engine.model().version.as_str(), model.version.as_str()) {
            engine.set_model(model.clone(), now, alpha);
        }
        let snap = engine.snapshot(now);
        let phase = phase_of(degraded, snap.quality);
        let ghost before = self.pending@;
        let sample = PendingSample {
            ts_ms: wall_ms,
            sampled_at: now,
            mid: match snap.mid {
                Some(mid) => mid,
                None => zero(),
            },
            tick_size: match snap.tick_size {
                Some(tick) => tick,
                None => zero(),
            },
            factors: snap.factors,
            model_version: snap.model_version,
            pred: snap.preds,
            quality: snap.quality,
            actual: [None, None, None],
            valid: [false, false, false],
            done: [false, false, false],
        };
        assert(sample@ =~= EvalState::sample_of(engine@, now, wall_ms));
        self.pending.push_back(sample);
        assert(pending_views(self.pending@) =~= pending_views(before).push(sample@));
        phase
    }

    /// Fills in the labels that are due, and returns the samples that are
    /// complete, in the order in which they were taken.
    pub fn on_labels(&mut self, now: u64) -> (r: Vec<CompletedSample<T>>)
        requires
            old(self)@.wf(),
        ensures
            final(self)@ == old(self)@.after_labels(now),
            final(self)@.wf(),
            completed_views(r@) == ready(old(self)@.pending, pruned(old(self)@.mids, now), now),
    {
        prune_mids(&mut self.mids, now);
        let mids = points_of(&self.mids);
        let ghost all = self@.pending;
        let mut out: Vec<CompletedSample<T>> = Vec::new();
        let n: usize = self.pending.len();
        let mut i: usize = 0;
        proof {
            assert(all.take(0) =~= Seq::<PendingView<T>>::empty());
            assert(all.skip(0) =~= all);
            assert(all =~= all.skip(0) + Seq::<PendingView<T>>::empty());
            assert(completed_views(out@) =~= Seq::<CompletedView<T>>::empty());
        }
        while i < n
            invariant
                0 <= i <= n,
                n == all.len(),
                mids@ == self.mids@,
                forall|k: int| 0 <= k < all.len() ==> (#[trigger] all[k]).wf(),
                self@.mids == self.mids@,
                self@.mids == pruned(old(self)@.mids, now),
                self@.last_publish == old(self)@.last_publish,
                self@.pending == pending_views(self.pending@),
                self@.pending == all.skip(i as int) + waiting(all.take(i as int), mids@, now),
                completed_views(out@) == ready(all.take(i as int), mids@, now),
                self@.wf(),
            decreases n - i,
        {
            let ghost before = self.pending@;
            proof {
                assert(pending_views(before)[0] == before[0]@);
                assert(pending_views(before)[0] == all.skip(i as int)[0]);
                assert(all.take(i + 1).drop_last() =~= all.take(i as int));
                assert(all.take(i + 1).last() == all[i as int]);
            }
            if let Some(front) = self.pending.pop_front() {
                let mut p = front;
                assert(p@ == all[i as int]);
                assert(pending_views(self.pending@) =~= pending_views(before).drop_first());
                let ghost rest = self.pending@;
                assert(pending_views(rest) =~= all.skip(i + 1) + waiting(
                    all.take(i as int),
                    mids@,
                    now,
                ));
                if complete_labels(&mut p, mids.as_slice(), now) {
                    let ghost rows = out@;
                    let row = to_completed(&p);
                    out.push(row);
                    assert(completed_views(out@) =~= completed_views(rows).push(row@));
                } else {
                    self.pending.push_back(p);
                    assert(pending_views(self.pending@) =~= pending_views(rest).push(p@));
                    assert(pending_views(self.pending@) =~= all.skip(i + 1) + waiting(
                        all.take(i + 1),
                        mids@,
                        now,
                    ));
                }
                assert forall|k: int| 0 <= k < self@.pending.len() implies (
                #[trigger] self@.pending[k]).wf() by {
                    if k < rest.len() {
                        assert(self@.pending[k] == pending_views(before)[k + 1]);
                    } else {
                        assert(self@.pending[k] == p@);
                    }
                }
            }
            i = i + 1;
        }
        proof {
            assert(all.take(n as int) =~= all);
            assert(all.skip(n as int) =~= Seq::<PendingView<T>>::empty());
            assert(self@ =~= old(self)@.after_labels(now));
        }
        out
    }
}

/// The middles as a list.
fn points_of<T: Real>(mids: &VecDeque<MidPoint<T>>) -> (r: Vec<MidPoint<T>>)
    ensures
        r@ == mids@,
{
    let mut out: Vec<MidPoint<T>> = Vec::new();
    let mut i: usize = 0;
    while i < mids.len()
        invariant
            0 <= i <= mids@.len(),
            out@ == mids@.take(i as int),
        decreases mids@.len() - i,
    {
        out.push(mids[i]);
        assert(mids@.take(i + 1) =~= mids@.take(i as int).push(mids@[i as int]));
        i = i + 1;
    }
    assert(mids@.take(i as int) =~= mids@);
    out
}

} // verus!
