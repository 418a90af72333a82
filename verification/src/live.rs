//! What is shown of a run while it goes on.
use vstd::prelude::*;

use crate::clock::since;
#[allow(unused_imports)]
use crate::clock::since_spec;
use crate::number::{zero, Real};
#[allow(unused_imports)]
use crate::number::zero_spec;
use crate::signal::engine::EngineSnapshot;
use crate::signal::factors::factor_names;
#[allow(unused_imports)]
use crate::signal::factors::factor_names_spec;
use crate::types::{
    DataQuality, FittedModel, Horizon, RunPhase, DEPTH_GRANULARITY_MS, DEPTH_GRANULARITY_NOTE,
    FEATURE_COUNT, FEATURE_VERSION,
};
#[allow(unused_imports)]
use crate::types::{products, shares};

verus! {

/// Milliseconds until the first training, as long as nothing else is known.
pub const FIRST_TRAIN_MS: i64 = 86_400_000;

/// The contract that is shown.
pub const SYMBOL: &'static str = "BTC-USDT";

/// The connection before anything was heard of it.
pub const NOT_CONNECTED: &'static str = "disconnected";

/// The state of a run.
#[derive(Clone, Debug)]
pub struct StatusBody<T> {
    pub phase: RunPhase,
    pub training: bool,
    pub connection: String,
    pub data_age_ms: Option<u64>,
    pub model_version: String,
    pub model_status: String,
    pub next_train_ms: i64,
    pub tick_size: Option<T>,
    pub mid: Option<T>,
    pub preds: [T; 3],
    pub alarm: Option<String>,
    pub depth_granularity_ms: u32,
    pub depth_granularity_note: String,
    pub symbol: String,
    pub feature_version: String,
}

/// The factors and predictions at some moment, and what each factor adds.
#[derive(Clone, Debug)]
pub struct StreamFrame<T> {
    pub ts_ms: i64,
    pub mid: Option<T>,
    pub tick_size: Option<T>,
    pub preds: [T; 3],
    pub factors: [T; FEATURE_COUNT],
    pub factor_names: [&'static str; FEATURE_COUNT],
    pub weights: [[T; FEATURE_COUNT]; 3],
    pub contributions: [[T; FEATURE_COUNT]; 3],
    pub quality: String,
    pub model_version: String,
    pub phase: RunPhase,
}

/// What a run shows beside the engine.
#[derive(Debug)]
pub struct LiveState<T> {
    phase: RunPhase,
    connection: String,
    alarm: Option<String>,
    last_event: Option<u64>,
    last_sample_ms: i64,
    next_train_ms: i64,
    training: bool,
    publish_seq: u64,
    snapshot: EngineSnapshot<T>,
    symbol: String,
}

/// What a [`LiveState`] holds.
pub struct LiveView<T> {
    pub phase: RunPhase,
    pub connection: Seq<char>,
    pub alarm: Option<Seq<char>>,
    pub last_event: Option<u64>,
    pub last_sample_ms: i64,
    pub next_train_ms: i64,
    pub training: bool,
    pub publish_seq: u64,
    pub snapshot: EngineSnapshot<T>,
    pub symbol: Seq<char>,
}

/// The characters of an optional text.
pub open spec fn chars_of(s: Option<String>) -> Option<Seq<char>> {
    match s {
        Some(t) => Some(t@),
        None => None,
    }
}

impl<T: Real> View for LiveState<T> {
    type V = LiveView<T>;

    closed spec fn view(&self) -> LiveView<T> {
        LiveView {
            phase: self.phase,
            connection: self.connection@,
            alarm: chars_of(self.alarm),
            last_event: self.last_event,
            last_sample_ms: self.last_sample_ms,
            next_train_ms: self.next_train_ms,
            training: self.training,
            publish_seq: self.publish_seq,
            snapshot: self.snapshot,
            symbol: self.symbol@,
        }
    }
}

/// Is this a snapshot of an engine that has seen nothing?
pub open spec fn is_blank_snapshot<T: Real>(
    s: EngineSnapshot<T>,
    model: FittedModel<T>,
    now: u64,
) -> bool {
    &&& s.quality == DataQuality::NoTickSize
    &&& s.mid is None
    &&& s.tick_size is None
    &&& s.factors@ == Seq::new(FEATURE_COUNT as nat, |i: int| zero_spec::<T>())
    &&& s.raw@ == Seq::new(FEATURE_COUNT as nat, |i: int| zero_spec::<T>())
    &&& s.preds@ == Seq::new(3, |i: int| zero_spec::<T>())
    &&& s.model_version == model.version
    &&& s.model == model
    &&& s.event_at == now
}

impl<T: Real> LiveView<T> {
    /// How old the data are, in milliseconds.
    pub open spec fn data_age(self, now: u64) -> Option<u64> {
        match self.last_event {
            Some(t) => Some((since_spec(now, t) / 1_000_000) as u64),
            None => None,
        }
    }
}

impl<T: Real> StatusBody<T> {
    /// Is this the state of the run?
    pub open spec fn shows(self, s: LiveView<T>, now: u64) -> bool {
        &&& self.phase == s.phase
        &&& self.training == s.training
        &&& self.connection@ == s.connection
        &&& self.data_age_ms == s.data_age(now)
        &&& self.model_version@ == s.snapshot.model_version@
        &&& self.model_status@ == s.snapshot.model.status.name()
        &&& self.next_train_ms == s.next_train_ms
        &&& self.tick_size == s.snapshot.tick_size
        &&& self.mid == s.snapshot.mid
        &&& self.preds == s.snapshot.preds
        &&& chars_of(self.alarm) == s.alarm
        &&& self.depth_granularity_ms == DEPTH_GRANULARITY_MS
        &&& self.depth_granularity_note@ == DEPTH_GRANULARITY_NOTE@
        &&& self.symbol@ == s.symbol
        &&& self.feature_version@ == FEATURE_VERSION@
    }
}

impl<T: Real> StreamFrame<T> {
    /// Is this the frame of the snapshot?
    pub open spec fn shows(self, snap: EngineSnapshot<T>, phase: RunPhase, ts_ms: i64) -> bool {
        &&& self.ts_ms == ts_ms
        &&& self.mid == snap.mid
        &&& self.tick_size == snap.tick_size
        &&& self.preds == snap.preds
        &&& self.factors == snap.factors
        &&& self.factor_names@.map_values(|n: &'static str| n@) == factor_names_spec()
        &&& forall|h: Horizon|
            (#[trigger] self.weights@[h.index_spec()])@ == shares(snap.model.params_spec(h).beta@)
        &&& forall|h: Horizon|
            (#[trigger] self.contributions@[h.index_spec()])@ == products(
                snap.model.params_spec(h).beta@,
                snap.factors@,
            )
        &&& self.quality@ == snap.quality.name()
        &&& self.model_version@ == snap.model_version@
        &&& self.phase == phase
    }
}

/// What each factor adds to the prediction of a horizon.
fn contributions_of<T: Real>(beta: &[T; FEATURE_COUNT], factors: &[T; FEATURE_COUNT]) -> (r: [T;
    FEATURE_COUNT])
    ensures
        r@ == products(beta@, factors@),
{
    let mut out = [zero::<T>(); FEATURE_COUNT];
    let mut k: usize = 0;
    while k < FEATURE_COUNT
        invariant
            0 <= k <= FEATURE_COUNT,
            forall|c: int| 0 <= c < k ==> (#[trigger] out@[c]) == products(beta@, factors@)[c],
        decreases FEATURE_COUNT - k,
    {
        out[k] = beta[k].times(factors[k]);
        k = k + 1;
    }
    assert(out@ =~= products(beta@, factors@));
    out
}

/// The frame of a snapshot.
pub fn frame_from<T: Real>(snap: &EngineSnapshot<T>, phase: RunPhase, ts_ms: i64) -> (r: StreamFrame<T>)
    ensures
        r.shows(*snap, phase, ts_ms),
{
    let (_, w10) = snap.model.h10.scale_and_weights();
    let (_, w25) = snap.model.h25.scale_and_weights();
    let (_, w50) = snap.model.h50.scale_and_weights();
    StreamFrame {
        ts_ms,
        mid: snap.mid,
        tick_size: snap.tick_size,
        preds: snap.preds,
        factors: snap.factors,
        factor_names: factor_names(),
        weights: [w10, w25, w50],
        contributions: [
            contributions_of(&snap.model.h10.beta, &snap.factors),
            contributions_of(&snap.model.h25.beta, &snap.factors),
            contributions_of(&snap.model.h50.beta, &snap.factors),
        ],
        quality: snap.quality.as_str().to_string(),
        model_version: snap.model_version.clone(),
        phase,
    }
}

impl<T: Real> LiveState<T> {
    /// A run that begins at `now`, with this model. Training is expected in a day.
    pub fn new(model: FittedModel<T>, now: u64, wall_ms: i64) -> (r: Self)
        requires
            wall_ms <= i64::MAX - FIRST_TRAIN_MS,
        ensures
            r@.phase == RunPhase::Warming,
            r@.connection == NOT_CONNECTED@,
            r@.alarm is None,
            r@.last_event is None,
            r@.last_sample_ms == 0,
            r@.next_train_ms == wall_ms + FIRST_TRAIN_MS,
            !r@.training,
            r@.publish_seq == 0,
            is_blank_snapshot(r@.snapshot, model, now),
            r@.symbol == SYMBOL@,
    {
        let z = [zero::<T>(); FEATURE_COUNT];
        let preds = [zero::<T>(); 3];
        assert(z@ =~= Seq::new(FEATURE_COUNT as nat, |i: int| zero_spec::<T>()));
        assert(preds@ =~= Seq::new(3, |i: int| zero_spec::<T>()));
        LiveState {
            phase: RunPhase::Warming,
            connection: NOT_CONNECTED.to_string(),
            alarm: None,
            last_event: None,
            last_sample_ms: 0,
            next_train_ms: wall_ms + FIRST_TRAIN_MS,
            training: false,
            publish_seq: 0,
            snapshot: EngineSnapshot {
                quality: DataQuality::NoTickSize,
                mid: None,
                tick_size: None,
                factors: z,
                raw: z,
                preds,
                model_version: model.version.clone(),
                model,
                event_at: now,
            },
            symbol: SYMBOL.to_string(),
        }
    }

    pub fn set_phase(&mut self, p: RunPhase)
        ensures
            final(self)@ == (LiveView { phase: p, ..old(self)@ }),
    {
        self.phase = p;
    }

    pub fn phase(&self) -> (r: RunPhase)
        ensures
            r == self@.phase,
    {
        self.phase
    }

    pub fn set_connection(&mut self, s: &str)
        ensures
            final(self)@ == (LiveView { connection: s@, ..old(self)@ }),
    {
        self.connection = s.to_string();
    }

    pub fn set_alarm(&mut self, msg: &str)
        ensures
            final(self)@ == (LiveView { alarm: Some(msg@), ..old(self)@ }),
    {
        self.alarm = Some(msg.to_string());
    }

    pub fn clear_alarm(&mut self)
        ensures
            final(self)@ == (LiveView { alarm: None, ..old(self)@ }),
    {
        self.alarm = None;
    }

    pub fn set_training(&mut self, on: bool)
        ensures
            final(self)@ == (LiveView { training: on, ..old(self)@ }),
    {
        self.training = on;
    }

    pub fn training(&self) -> (r: bool)
        ensures
            r == self@.training,
    {
        self.training
    }

    pub fn set_next_train_ms(&mut self, ms: i64)
        ensures
            final(self)@ == (LiveView { next_train_ms: ms, ..old(self)@ }),
    {
        self.next_train_ms = ms;
    }

    pub fn next_train_ms(&self) -> (r: i64)
        ensures
            r == self@.next_train_ms,
    {
        self.next_train_ms
    }

    /// A sample was taken at this time.
    pub fn note_sample(&mut self, wall_ms: i64)
        ensures
            final(self)@ == (LiveView { last_sample_ms: wall_ms, ..old(self)@ }),
    {
        self.last_sample_ms = wall_ms;
    }

    /// Takes over what the engine says, and returns the frame to show.
    pub fn publish_from_engine(
        &mut self,
        snap: &EngineSnapshot<T>,
        training: bool,
        now: u64,
        wall_ms: i64,
    ) -> (r: StreamFrame<T>)
        ensures
            final(self)@ == (LiveView {
                snapshot: *snap,
                training,
                last_event: Some(now),
                publish_seq: old(self)@.publish_seq.wrapping_add(1),
                ..old(self)@
            }),
            r.shows(*snap, old(self)@.phase, wall_ms),
    {
        self.snapshot = snap.clone();
        self.training = training;
        self.last_event = Some(now);
        self.publish_seq = self.publish_seq.wrapping_add(1);
        frame_from(snap, self.phase, wall_ms)
    }

    /// The frame of what the engine said last.
    pub fn frame(&self, wall_ms: i64) -> (r: StreamFrame<T>)
        ensures
            r.shows(self@.snapshot, self@.phase, wall_ms),
    {
        frame_from(&self.snapshot, self.phase, wall_ms)
    }

    /// The state of the run.
    pub fn status(&self, now: u64) -> (r: StatusBody<T>)
        ensures
            r.shows(self@, now),
    {
        StatusBody {
            phase: self.phase,
            training: self.training,
            connection: self.connection.clone(),
            data_age_ms: self.data_age_ms(now),
            model_version: self.snapshot.model_version.clone(),
            model_status: self.snapshot.model.status.as_str().to_string(),
            next_train_ms: self.next_train_ms,
            tick_size: self.snapshot.tick_size,
            mid: self.snapshot.mid,
            preds: self.snapshot.preds,
            alarm: match &self.alarm {
                Some(a) => Some(a.clone()),
                None => None,
            },
            depth_granularity_ms: DEPTH_GRANULARITY_MS,
            depth_granularity_note: DEPTH_GRANULARITY_NOTE.to_string(),
            symbol: self.symbol.clone(),
            feature_version: FEATURE_VERSION.to_string(),
        }
    }

    /// How old the data are, in milliseconds.
    pub fn data_age_ms(&self, now: u64) -> (r: Option<u64>)
        ensures
            r == self@.data_age(now),
    {
        match self.last_event {
            Some(t) => Some(since(now, t) / 1_000_000),
            None => None,
        }
    }
}

} // verus!
