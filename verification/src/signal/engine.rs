//! The engine: market events in, factors and predictions out.
use std::collections::VecDeque;
use vstd::prelude::*;

use crate::clock::{since, MILLISECOND, SECOND};
#[allow(unused_imports)]
use crate::clock::since_spec;
use crate::config::Config;
use crate::market::book::{BookApply, LocalBook, Top10, MODEL_LEVELS};
#[allow(unused_imports)]
use crate::market::book::{BookState, TopView};
use crate::market::flow::{MatchedFlow, PendingTrade, PublicTrade, TradeDeduper};
#[allow(unused_imports)]
use crate::market::flow::{
    lemma_once, let_through, lost_to, remembered, unexplained, FlowView,
};
use crate::market::gate::MarketEvent;
#[allow(unused_imports)]
use crate::market::gate::EventView;
use crate::number::{zero, Real};
#[allow(unused_imports)]
use crate::number::zero_spec;
use crate::signal::ewma::{step_of, EwmaNorm};
#[allow(unused_imports)]
use crate::signal::ewma::{step_spec, zeros, EwmaState};
use crate::signal::factors::{compute_raw, level_weights, DepthAt, WindowAgg};
#[allow(unused_imports)]
use crate::signal::factors::{level_weights_spec, raw_factors, AggView, DepthView};
use crate::types::{DataQuality, FittedModel, FEATURE_COUNT};

verus! {

/// The short window.
pub const SHORT_WINDOW: u64 = 10_000_000;

/// The long window.
pub const LONG_WINDOW: u64 = 50_000_000;

/// How long what happened is kept: the long window and 20 ms.
pub const KEEP: u64 = 70_000_000;

/// A book that is older is stale.
pub const LONG_GAP: u64 = 2_000_000_000;

/// What is taken for the time since the last event where there was none.
pub const FIRST_TRADE_STEP: u64 = 1_000_000;

pub const FIRST_BOOK_STEP: u64 = 20_000_000;

/// Something that happened, when, and the book after it.
#[derive(Clone, Copy, Debug)]
pub struct TimedFlow<T> {
    pub at: u64,
    pub flow: MatchedFlow<T>,
    pub depth_after: DepthAt<T>,
}

/// What a [`TimedFlow`] holds.
#[verifier::ext_equal]
pub struct TimedView<T> {
    pub at: u64,
    pub flow: FlowView<T>,
    pub depth_after: DepthView<T>,
}

impl<T: Real> View for TimedFlow<T> {
    type V = TimedView<T>;

    open spec fn view(&self) -> TimedView<T> {
        TimedView { at: self.at, flow: self.flow@, depth_after: self.depth_after@ }
    }
}

/// The last change of the book, while trades may still explain its cancels.
#[derive(Clone, Copy, Debug)]
pub struct PendingBookFlow<T> {
    pub before: Top10<T>,
    pub flow: MatchedFlow<T>,
    pub depth_after: DepthAt<T>,
}

/// What a [`PendingBookFlow`] holds.
#[verifier::ext_equal]
pub struct PendingBookView<T> {
    pub before: TopView<T>,
    pub flow: FlowView<T>,
    pub depth_after: DepthView<T>,
}

impl<T: Real> View for PendingBookFlow<T> {
    type V = PendingBookView<T>;

    open spec fn view(&self) -> PendingBookView<T> {
        PendingBookView {
            before: self.before@,
            flow: self.flow@,
            depth_after: self.depth_after@,
        }
    }
}

/// What a list of events holds.
pub open spec fn timed_views<T: Real>(events: Seq<TimedFlow<T>>) -> Seq<TimedView<T>> {
    events.map_values(|e: TimedFlow<T>| e@)
}

/// What an optional best of the book holds.
pub open spec fn top_view<T: Real>(top: Option<Top10<T>>) -> Option<TopView<T>> {
    match top {
        Some(t) => Some(t@),
        None => None,
    }
}

/// The events without those at the front that are too old.
pub open spec fn kept<T>(events: Seq<TimedView<T>>, now: u64) -> Seq<TimedView<T>>
    decreases events.len(),
{
    if events.len() > 0 && since_spec(now, events[0].at) > KEEP {
        kept(events.drop_first(), now)
    } else {
        events
    }
}

/// What happened in the last `len`.
pub open spec fn window_spec<T: Real>(events: Seq<TimedView<T>>, now: u64, len: u64) -> AggView<T>
    decreases events.len(),
{
    if events.len() == 0 {
        AggView::blank()
    } else {
        let before = window_spec(events.drop_last(), now, len);
        if since_spec(now, events.last().at) <= len {
            before.plus_flow(events.last().flow)
        } else {
            before
        }
    }
}

/// The book after the last event that is not later than `target`, or
/// `otherwise` where there is none.
pub open spec fn depth_by<T: Real>(
    events: Seq<TimedView<T>>,
    target: u64,
    otherwise: DepthView<T>,
) -> DepthView<T>
    decreases events.len(),
{
    if events.len() == 0 {
        otherwise
    } else if events.last().at <= target {
        events.last().depth_after
    } else {
        depth_by(events.drop_last(), target, otherwise)
    }
}

/// What a [`SignalEngine`] holds.
#[verifier::ext_equal]
pub struct EngineState<T> {
    pub warm_period: u64,
    pub book: BookState<T>,
    pub seen: Set<u64>,
    pub pending: Seq<PendingTrade<T>>,
    pub pending_book: Option<PendingBookView<T>>,
    pub events: Seq<TimedView<T>>,
    pub ewma: EwmaState<T>,
    pub model: FittedModel<T>,
    pub tick_size: Option<T>,
    pub last_top: Option<TopView<T>>,
    pub last_event_at: Option<u64>,
    pub last_book_at: Option<u64>,
    pub interrupted: bool,
    pub last_raw: Seq<T>,
    pub last_x: Seq<T>,
    pub last_pred: Seq<T>,
    pub last_mid: Option<T>,
    pub weights: Seq<T>,
}

impl<T: Real> EngineState<T> {
    /// Nothing has happened yet.
    pub open spec fn fresh(warm_period: u64, model: FittedModel<T>, weights: Seq<T>) -> Self {
        EngineState {
            warm_period,
            book: BookState::blank(),
            seen: Set::empty(),
            pending: Seq::empty(),
            pending_book: None,
            events: Seq::empty(),
            ewma: EwmaState::blank(),
            model,
            tick_size: None,
            last_top: None,
            last_event_at: None,
            last_book_at: None,
            interrupted: true,
            last_raw: zeros(),
            last_x: zeros(),
            last_pred: Seq::new(3, |i: int| zero_spec::<T>()),
            last_mid: None,
            weights,
        }
    }

    /// The time since the last event.
    pub open spec fn elapsed_or(self, now: u64, otherwise: u64) -> u64 {
        match self.last_event_at {
            Some(at) => since_spec(now, at),
            None => otherwise,
        }
    }

    /// The time that the factors after an event count for.
    pub open spec fn step_at(self, ev: EventView<T>, now: u64) -> u64 {
        match ev {
            EventView::Trade(_) => step_spec(self.elapsed_or(now, FIRST_TRADE_STEP)),
            EventView::DepthIncremental { .. } => step_spec(self.elapsed_or(now, FIRST_BOOK_STEP)),
            _ => step_spec(0),
        }
    }

    /// Forgets everything but the book, the tick size and the model.
    pub open spec fn warming(self) -> Self {
        EngineState {
            interrupted: true,
            ewma: EwmaState::blank(),
            events: Seq::empty(),
            pending: Seq::empty(),
            pending_book: None,
            seen: Set::empty(),
            last_top: None,
            last_mid: None,
            last_event_at: None,
            last_book_at: None,
            ..self
        }
    }

    /// Adds what happened now, and drops what is too old.
    pub open spec fn with_flow(self, now: u64, flow: FlowView<T>, depth: DepthView<T>) -> Self {
        EngineState {
            events: kept(self.events.push(TimedView { at: now, flow, depth_after: depth }), now),
            ..self
        }
    }

    /// The book of a while ago.
    pub open spec fn depth_ago(self, now: u64, ago: u64) -> DepthView<T> {
        depth_by(
            self.events,
            if now >= ago {
                (now - ago) as u64
            } else {
                now
            },
            match self.last_top {
                Some(top) => DepthView::of_top(top),
                None => DepthView::blank(),
            },
        )
    }

    /// The factors before they are normalised.
    pub open spec fn raw_at(self, top: TopView<T>, tick: T, now: u64) -> Seq<T> {
        raw_factors(
            top,
            tick,
            window_spec(self.events, now, SHORT_WINDOW),
            window_spec(self.events, now, LONG_WINDOW),
            self.depth_ago(now, SHORT_WINDOW),
            self.weights,
        )
    }

    /// New factors and predictions, `dt` after the last ones. The factors get
    /// the share `alpha` in the moving mean. Once enough time has gone into
    /// the mean, the interruption is over.
    pub open spec fn recomputed(
        self,
        top: TopView<T>,
        tick: T,
        now: u64,
        dt: u64,
        alpha: T,
    ) -> Self {
        let raw = self.raw_at(top, tick, now);
        let ewma = self.ewma.next(raw, dt, alpha);
        let x = self.ewma.output(raw, dt, alpha);
        EngineState {
            last_raw: raw,
            ewma,
            last_x: x,
            last_pred: self.model.predict_all_spec(x),
            interrupted: self.interrupted && !(ewma.accumulated >= self.warm_period
                && self.tick_size is Some && self.book.usable()),
            ..self
        }
    }

    /// New factors and predictions, if the tick size is known.
    pub open spec fn recomputed_if(self, top: TopView<T>, now: u64, dt: u64, alpha: T) -> Self {
        match self.tick_size {
            Some(tick) => self.recomputed(top, tick, now, dt, alpha),
            None => self,
        }
    }

    /// The book has been replaced: everything that came before is forgotten.
    pub open spec fn book_replaced(self, now: u64, alpha: T) -> Self {
        let cleared = EngineState {
            events: Seq::empty(),
            pending: Seq::empty(),
            pending_book: None,
            ewma: EwmaState::blank(),
            interrupted: true,
            ..self
        };
        match self.book.top() {
            Some(top) => EngineState {
                last_top: Some(top),
                last_mid: Some(top.mid()),
                last_event_at: Some(now),
                last_book_at: Some(now),
                ..cleared
            }.recomputed_if(top, now, 0, alpha),
            None => EngineState { last_top: None, last_mid: None, ..cleared },
        }
    }

    /// A trade: where the last change of the book is still open, the trade
    /// takes back the cancels that it explains; else it waits for the book.
    /// Either way it counts at once.
    pub open spec fn traded(self, t: PendingTrade<T>, now: u64, alpha: T) -> Self {
        let noted = match self.pending_book {
            Some(p) => EngineState {
                pending_book: Some(
                    PendingBookView { flow: p.flow.excluding(p.before, t), ..p },
                ),
                pending: if p.flow.explained_by(p.before, t) {
                    self.pending
                } else {
                    self.pending.push(t)
                },
                ..self
            },
            None => EngineState { pending: self.pending.push(t), ..self },
        };
        let reference = match self.pending_book {
            Some(p) => Some(p.before),
            None => self.last_top,
        };
        match reference {
            None => noted,
            Some(top) => {
                let current = match self.last_top {
                    Some(c) => c,
                    None => top,
                };
                EngineState {
                    last_event_at: Some(now),
                    ..noted.with_flow(
                        now,
                        FlowView::of_trade(top, t),
                        DepthView::of_top(current),
                    ).recomputed_if(current, now, self.elapsed_or(now, FIRST_TRADE_STEP), alpha)
                }
            },
        }
    }

    /// The cancels of the last change of the book that no trade has explained.
    pub open spec fn settled(self, now: u64) -> Self {
        let cleared = EngineState { pending_book: None, ..self };
        match self.pending_book {
            Some(p) => if p.flow.has_cancels() {
                cleared.with_flow(now, p.flow, p.depth_after)
            } else {
                cleared
            },
            None => cleared,
        }
    }

    /// A change of the book: what was added counts at once; what was taken
    /// away waits for the trades that explain it.
    pub open spec fn changed(self, before: TopView<T>, after: TopView<T>, now: u64) -> Self {
        let delta = FlowView::of_delta(before, after);
        let depth_after = DepthView::of_top(after);
        let added = if delta.additions().has_additions() {
            self.with_flow(now, delta.additions(), depth_after)
        } else {
            self
        };
        EngineState {
            pending_book: Some(
                PendingBookView {
                    before,
                    flow: delta.without_additions().excluding_all(before, self.pending),
                    depth_after,
                },
            ),
            pending: Seq::empty(),
            last_top: Some(after),
            last_mid: Some(after.mid()),
            ..added
        }
    }

    /// The book was updated. After too long a time without an update
    /// everything starts over.
    pub open spec fn book_updated(self, now: u64, alpha: T) -> Self {
        match (self.book.top(), self.last_top) {
            (None, _) => EngineState { last_top: None, ..self },
            (Some(after), None) => EngineState {
                last_top: Some(after),
                last_mid: Some(after.mid()),
                ..self
            },
            (Some(after), Some(before)) => if self.last_book_at matches Some(prev) && since_spec(
                now,
                prev,
            ) > LONG_GAP {
                EngineState {
                    last_top: Some(after),
                    last_mid: Some(after.mid()),
                    last_event_at: Some(now),
                    last_book_at: Some(now),
                    ..self.warming()
                }
            } else {
                EngineState {
                    last_event_at: Some(now),
                    last_book_at: Some(now),
                    ..self.settled(now).changed(before, after, now).recomputed_if(
                        after,
                        now,
                        self.elapsed_or(now, FIRST_BOOK_STEP),
                        alpha,
                    )
                }
            },
        }
    }

    /// An update of the book, which may leave a gap or find no book.
    pub open spec fn book_amended(
        self,
        bids: Seq<(T, T)>,
        asks: Seq<(T, T)>,
        start_u: u64,
        end_u: u64,
        now: u64,
        alpha: T,
    ) -> Self {
        let (book, applied) = self.book.incremental(bids, asks, start_u, end_u);
        let next = EngineState { book, ..self };
        match applied {
            BookApply::Gap => next.warming(),
            BookApply::Applied => next.book_updated(now, alpha),
            _ => next,
        }
    }

    /// A trade that is reported: it counts if it is let through.
    pub open spec fn trade_seen(self, t: PublicTrade<T>, now: u64, alpha: T) -> Self {
        let next = EngineState { seen: remembered(self.seen, t), ..self };
        match let_through(self.seen, t) {
            Some((aggressor, qty)) => next.traded(
                PendingTrade { price: t.price, qty, aggressor },
                now,
                alpha,
            ),
            None => next,
        }
    }

    /// Does the event leave a gap in the book?
    pub open spec fn gap_at(self, ev: EventView<T>) -> bool {
        crate::market::gate::leaves_gap(self.book, ev)
    }

    /// The state after an event.
    pub open spec fn after(self, ev: EventView<T>, now: u64, alpha: T) -> Self {
        match ev {
            EventView::TickSize(t) => EngineState { tick_size: Some(t), ..self },
            EventView::TickSizeFailed(_) => EngineState { tick_size: None, ..self }.warming(),
            EventView::Disconnected(_) => EngineState {
                book: BookState::blank(),
                ..self
            }.warming(),
            EventView::DepthSnapshot { bids, asks, u, .. } => EngineState {
                book: BookState::snapshot(bids, asks, u),
                ..self
            }.book_replaced(now, alpha),
            EventView::DepthIncremental { bids, asks, start_u, end_u, .. } => self.book_amended(
                bids,
                asks,
                start_u,
                end_u,
                now,
                alpha,
            ),
            EventView::Trade(t) => self.trade_seen(t, now, alpha),
        }
    }

    /// How far the data can be relied on.
    pub open spec fn quality(self, now: u64) -> DataQuality {
        if self.tick_size is None {
            DataQuality::NoTickSize
        } else if !self.book.usable() || self.last_top is None {
            DataQuality::IncompleteBook
        } else if self.interrupted || self.ewma.accumulated < self.warm_period {
            DataQuality::Warming
        } else if self.last_book_at matches Some(at) && since_spec(now, at) > LONG_GAP {
            DataQuality::Stale
        } else {
            DataQuality::Good
        }
    }

    /// The state with another model.
    pub open spec fn with_model(self, model: FittedModel<T>, now: u64, alpha: T) -> Self {
        let next = EngineState { model, ..self };
        match self.last_top {
            Some(top) => next.recomputed_if(top, now, 0, alpha),
            None => next,
        }
    }
}

/// Turns market events into factors and predictions.
pub struct SignalEngine<T> {
    warm_period: u64,
    book: LocalBook<T>,
    trades: TradeDeduper,
    pending: Vec<PendingTrade<T>>,
    pending_book: Option<PendingBookFlow<T>>,
    events: VecDeque<TimedFlow<T>>,
    ewma: EwmaNorm<T>,
    model: FittedModel<T>,
    tick_size: Option<T>,
    last_top: Option<Top10<T>>,
    last_event_at: Option<u64>,
    last_book_at: Option<u64>,
    interrupted: bool,
    last_raw: [T; FEATURE_COUNT],
    last_x: [T; FEATURE_COUNT],
    last_pred: [T; 3],
    last_mid: Option<T>,
    weights: [T; MODEL_LEVELS],
}

impl<T: Real> View for SignalEngine<T> {
    type V = EngineState<T>;

    closed spec fn view(&self) -> EngineState<T> {
        EngineState {
            warm_period: self.warm_period,
            book: self.book@,
            seen: self.trades@,
            pending: self.pending@,
            pending_book: match self.pending_book {
                Some(p) => Some(p@),
                None => None,
            },
            events: timed_views(self.events@),
            ewma: self.ewma@,
            model: self.model,
            tick_size: self.tick_size,
            last_top: top_view(self.last_top),
            last_event_at: self.last_event_at,
            last_book_at: self.last_book_at,
            interrupted: self.interrupted,
            last_raw: self.last_raw@,
            last_x: self.last_x@,
            last_pred: self.last_pred@,
            last_mid: self.last_mid,
            weights: self.weights@,
        }
    }
}

/// What the engine says at some moment.
#[derive(Debug)]
pub struct EngineSnapshot<T> {
    pub quality: DataQuality,
    pub mid: Option<T>,
    pub tick_size: Option<T>,
    pub factors: [T; FEATURE_COUNT],
    pub raw: [T; FEATURE_COUNT],
    pub preds: [T; 3],
    pub model_version: String,
    pub model: FittedModel<T>,
    pub event_at: u64,
}

impl<T: Real> Clone for EngineSnapshot<T> {
    fn clone(&self) -> (r: Self)
        ensures
            r == *self,
    {
        EngineSnapshot {
            quality: self.quality,
            mid: self.mid,
            tick_size: self.tick_size,
            factors: self.factors,
            raw: self.raw,
            preds: self.preds,
            model_version: self.model_version.clone(),
            model: self.model.clone(),
            event_at: self.event_at,
        }
    }
}

impl<T: Real> EngineSnapshot<T> {
    /// Is this what an engine in this state says?
    pub open spec fn shows(self, s: EngineState<T>, now: u64) -> bool {
        &&& self.quality == s.quality(now)
        &&& self.mid == s.last_mid
        &&& self.tick_size == s.tick_size
        &&& self.factors@ == s.last_x
        &&& self.raw@ == s.last_raw
        &&& self.preds@ == s.last_pred
        &&& self.model_version == s.model.version
        &&& self.model == s.model
        &&& self.event_at == (match s.last_event_at {
            Some(at) => at,
            None => now,
        })
    }
}

impl<T: Real> SignalEngine<T> {
    /// An engine that has seen nothing. `decays` says how much each level
    /// counts: `e^(-0.35 i)` for level `i`.
    pub fn new(cfg: Config<T>, model: FittedModel<T>, decays: &[T; MODEL_LEVELS]) -> (r: Self)
        ensures
            r@ == EngineState::fresh(cfg.warm_period, model, level_weights_spec(decays@)),
    {
        let z = [zero::<T>(); FEATURE_COUNT];
        let r = SignalEngine {
            warm_period: cfg.warm_period,
            book: LocalBook::new(),
            trades: TradeDeduper::new(),
            pending: Vec::new(),
            pending_book: None,
            events: VecDeque::new(),
            ewma: EwmaNorm::new(),
            model,
            tick_size: None,
            last_top: None,
            last_event_at: None,
            last_book_at: None,
            interrupted: true,
            last_raw: z,
            last_x: z,
            last_pred: [zero::<T>(); 3],
            last_mid: None,
            weights: level_weights(decays),
        };
        assert(r@ =~= EngineState::fresh(cfg.warm_period, model, level_weights_spec(decays@)));
        r
    }

    pub fn model(&self) -> (r: &FittedModel<T>)
        ensures
            *r == self@.model,
    {
        &self.model
    }

    pub fn tick_size(&self) -> (r: Option<T>)
        ensures
            r == self@.tick_size,
    {
        self.tick_size
    }

    /// What happened in the last moments.
    pub fn events(&self) -> (r: &VecDeque<TimedFlow<T>>)
        ensures
            timed_views(r@) == self@.events,
    {
        &self.events
    }

    /// The trades that wait for the book.
    pub fn pending(&self) -> (r: &Vec<PendingTrade<T>>)
        ensures
            r@ == self@.pending,
    {
        &self.pending
    }

    /// The change of the book that waits for trades.
    pub fn pending_book(&self) -> (r: Option<PendingBookFlow<T>>)
        ensures
            match r {
                Some(p) => self@.pending_book == Some(p@),
                None => self@.pending_book is None,
            },
    {
        self.pending_book
    }

    /// Puts another model in place. `alpha` is the share for [`step_of`] no time.
    pub fn set_model(&mut self, model: FittedModel<T>, now: u64, alpha: T)
        ensures
            final(self)@ == old(self)@.with_model(model, now, alpha),
    {
        self.model = model;
        if let (Some(top), Some(tick)) = (self.last_top, self.tick_size) {
            self.recompute(top, tick, now, 0, alpha);
        }
    }

    /// Forgets everything but the book, the tick size and the model.
    pub fn enter_warming(&mut self)
        ensures
            final(self)@ == old(self)@.warming(),
    {
        self.interrupted = true;
        self.ewma.reset();
        self.events.clear();
        self.pending.clear();
        self.pending_book = None;
        self.trades.clear();
        self.last_top = None;
        self.last_mid = None;
        self.last_event_at = None;
        self.last_book_at = None;
        assert(self@ =~= old(self)@.warming());
    }

    fn elapsed_or(&self, now: u64, otherwise: u64) -> (r: u64)
        ensures
            r == self@.elapsed_or(now, otherwise),
    {
        match self.last_event_at {
            Some(at) => since(now, at),
            None => otherwise,
        }
    }

    /// The time that the factors after an event count for: `apply` is to be
    /// given the share `1 - e^(-step / TAU)` for this step.
    pub fn step_for(&self, ev: &MarketEvent<T>, now: u64) -> (r: u64)
        ensures
            r == self@.step_at(ev@, now),
    {
        match ev {
            MarketEvent::Trade(_) => step_of(self.elapsed_or(now, FIRST_TRADE_STEP)),
            MarketEvent::DepthIncremental { .. } => step_of(self.elapsed_or(now, FIRST_BOOK_STEP)),
            _ => step_of(0),
        }
    }

    /// Takes in an event. Says whether it leaves a gap in the book.
    pub fn apply(&mut self, ev: MarketEvent<T>, now: u64, alpha: T) -> (gap: bool)
        ensures
            final(self)@ == old(self)@.after(ev@, now, alpha),
            gap == old(self)@.gap_at(ev@),
    {
        match ev {
            MarketEvent::TickSize(t) => {
                self.tick_size = Some(t);
                false
            },
            MarketEvent::TickSizeFailed(_) => {
                self.tick_size = None;
                self.enter_warming();
                false
            },
            MarketEvent::Disconnected(_) => {
                self.book.discard();
                self.enter_warming();
                false
            },
            MarketEvent::DepthSnapshot { bids, asks, u, .. } => {
                self.book.apply_snapshot(bids.as_slice(), asks.as_slice(), u);
                self.on_book_replaced(now, alpha);
                false
            },
            MarketEvent::DepthIncremental { bids, asks, start_u, end_u, .. } => self.on_incremental(
                bids.as_slice(),
                asks.as_slice(),
                start_u,
                end_u,
                now,
                alpha,
            ),
            MarketEvent::Trade(t) => {
                self.on_public_trade(&t, now, alpha);
                false
            },
        }
    }

    fn on_incremental(
        &mut self,
        bids: &[(T, T)],
        asks: &[(T, T)],
        start_u: u64,
        end_u: u64,
        now: u64,
        alpha: T,
    ) -> (gap: bool)
        ensures
            final(self)@ == old(self)@.book_amended(bids@, asks@, start_u, end_u, now, alpha),
            gap == (old(self)@.book.incremental(bids@, asks@, start_u, end_u).1 == BookApply::Gap),
    {
        match self.book.apply_incremental(bids, asks, start_u, end_u) {
            BookApply::Gap => {
                self.enter_warming();
                true
            },
            BookApply::Applied => {
                self.on_book_updated(now, alpha);
                false
            },
            _ => false,
        }
    }

    fn on_public_trade(&mut self, t: &PublicTrade<T>, now: u64, alpha: T)
        ensures
            final(self)@ == old(self)@.trade_seen(*t, now, alpha),
    {
        if let Some((aggressor, qty)) = self.trades.accept(t) {
            self.on_trade(PendingTrade { price: t.price, qty, aggressor }, now, alpha);
        }
    }

    fn on_book_replaced(&mut self, now: u64, alpha: T)
        ensures
            final(self)@ == old(self)@.book_replaced(now, alpha),
    {
        self.events.clear();
        self.pending.clear();
        self.pending_book = None;
        self.ewma.reset();
        self.interrupted = true;
        assert(timed_views(self.events@) =~= Seq::<TimedView<T>>::empty());
        if let Some(top) = self.book.top10() {
            self.last_top = Some(top);
            self.last_mid = Some(top.mid());
            self.last_event_at = Some(now);
            self.last_book_at = Some(now);
            if let Some(tick) = self.tick_size {
                self.recompute(top, tick, now, 0, alpha);
            }
        } else {
            self.last_top = None;
            self.last_mid = None;
        }
    }

    fn on_trade(&mut self, trade: PendingTrade<T>, now: u64, alpha: T)
        ensures
            final(self)@ == old(self)@.traded(trade, now, alpha),
    {
        let reference_top: Option<Top10<T>> = match self.pending_book {
            Some(p) => Some(p.before),
            None => self.last_top,
        };
        let mut matched: bool = false;
        if let Some(p) = self.pending_book {
            let mut open = p;
            matched = open.flow.exclude_trade_from_cancels(&p.before, &trade);
            self.pending_book = Some(open);
        }
        if !matched {
            self.pending.push(trade);
        }
        if let Some(top) = reference_top {
            let current = match self.last_top {
                Some(c) => c,
                None => top,
            };
            let dt: u64 = self.elapsed_or(now, FIRST_TRADE_STEP);
            let flow = MatchedFlow::from_trade(&top, &trade);
            self.push_flow(now, flow, DepthAt::from_top(&current));
            if let Some(tick) = self.tick_size {
                self.recompute(current, tick, now, dt, alpha);
            }
            self.last_event_at = Some(now);
        }
    }

    /// Settles what no trade has explained.
    fn settle(&mut self, now: u64)
        ensures
            final(self)@ == old(self)@.settled(now),
    {
        let open: Option<PendingBookFlow<T>> = self.pending_book;
        self.pending_book = None;
        if let Some(p) = open {
            if p.flow.has_cancels() {
                self.push_flow(now, p.flow, p.depth_after);
            }
        }
    }

    /// Takes in a change of the book.
    fn change(&mut self, before: &Top10<T>, after: &Top10<T>, now: u64)
        ensures
            final(self)@ == old(self)@.changed(before@, after@, now),
    {
        let depth_after = DepthAt::from_top(after);
        let mut book_flow = MatchedFlow::from_book_delta(before, after);
        let additions = book_flow.take_additions();
        if additions.has_additions() {
            self.push_flow(now, additions, depth_after);
        }
        let ghost delta = book_flow@;
        let mut i: usize = 0;
        assert(self.pending@.take(0) =~= Seq::<PendingTrade<T>>::empty());
        while i < self.pending.len()
            invariant
                0 <= i <= self.pending@.len(),
                book_flow@ == delta.excluding_all(before@, self.pending@.take(i as int)),
            decreases self.pending@.len() - i,
        {
            assert(self.pending@.take(i + 1).drop_last() =~= self.pending@.take(i as int));
            assert(self.pending@.take(i + 1).last() == self.pending@[i as int]);
            let trade = self.pending[i];
            book_flow.exclude_trade_from_cancels(before, &trade);
            i = i + 1;
        }
        assert(self.pending@.take(i as int) =~= self.pending@);
        self.pending.clear();
        self.pending_book = Some(PendingBookFlow { before: *before, flow: book_flow, depth_after });
        self.last_top = Some(*after);
        self.last_mid = Some(after.mid());
        assert(self@ =~= old(self)@.changed(before@, after@, now));
    }

    fn on_book_updated(&mut self, now: u64, alpha: T)
        ensures
            final(self)@ == old(self)@.book_updated(now, alpha),
    {
        match (self.book.top10(), self.last_top) {
            (None, _) => {
                self.last_top = None;
            },
            (Some(after), None) => {
                self.last_top = Some(after);
                self.last_mid = Some(after.mid());
            },
            (Some(after), Some(before)) => {
                let late: bool = match self.last_book_at {
                    Some(prev) => since(now, prev) > LONG_GAP,
                    None => false,
                };
                if late {
                    self.enter_warming();
                    self.last_top = Some(after);
                    self.last_mid = Some(after.mid());
                } else {
                    let dt: u64 = self.elapsed_or(now, FIRST_BOOK_STEP);
                    self.settle(now);
                    self.change(&before, &after, now);
                    if let Some(tick) = self.tick_size {
                        self.recompute(after, tick, now, dt, alpha);
                    }
                }
                self.last_event_at = Some(now);
                self.last_book_at = Some(now);
            },
        }
    }

    /// Adds what happened now, and drops what is too old.
    fn push_flow(&mut self, now: u64, flow: MatchedFlow<T>, depth: DepthAt<T>)
        ensures
            final(self)@ == old(self)@.with_flow(now, flow@, depth@),
    {
        let ghost was = self@;
        let ghost all = was.events.push(TimedView { at: now, flow: flow@, depth_after: depth@ });
        self.events.push_back(TimedFlow { at: now, flow, depth_after: depth });
        assert(timed_views(self.events@) =~= all);
        while self.events.len() > 0 && since(now, self.events[0].at) > KEEP
            invariant
                self@ == (EngineState { events: self@.events, ..was }),
                self@.events == timed_views(self.events@),
                kept(self@.events, now) == kept(all, now),
            decreases self.events@.len(),
        {
            let ghost before = self.events@;
            assert(timed_views(before)[0] == before[0]@);
            self.events.pop_front();
            assert(timed_views(self.events@) =~= timed_views(before).drop_first());
        }
        proof {
            if self.events@.len() > 0 {
                assert(timed_views(self.events@)[0] == self.events@[0]@);
            }
        }
        assert(self@ =~= was.with_flow(now, flow@, depth@));
    }

    /// What happened in the last `len`.
    fn window(&self, now: u64, len: u64) -> (r: WindowAgg<T>)
        ensures
            r@ == window_spec(self@.events, now, len),
    {
        let mut agg: WindowAgg<T> = WindowAgg::default();
        let mut i: usize = 0;
        let ghost all = self@.events;
        assert(all.take(0) =~= Seq::<TimedView<T>>::empty());
        while i < self.events.len()
            invariant
                0 <= i <= self.events@.len(),
                all == timed_views(self.events@),
                agg@ == window_spec(all.take(i as int), now, len),
            decreases self.events@.len() - i,
        {
            assert(all.take(i + 1).drop_last() =~= all.take(i as int));
            assert(all.take(i + 1).last() == self.events@[i as int]@);
            if since(now, self.events[i].at) <= len {
                agg.add_flow(&self.events[i].flow);
            }
            i = i + 1;
        }
        assert(all.take(i as int) =~= all);
        agg
    }

    /// The book of a while ago.
    fn depth_ago(&self, now: u64, ago: u64) -> (r: DepthAt<T>)
        ensures
            r@ == self@.depth_ago(now, ago),
    {
        let target: u64 = if now >= ago {
            now - ago
        } else {
            now
        };
        let mut last: DepthAt<T> = match self.last_top {
            Some(top) => DepthAt::from_top(&top),
            None => DepthAt::default(),
        };
        let ghost otherwise = last@;
        let ghost all = self@.events;
        let mut i: usize = 0;
        assert(all.take(0) =~= Seq::<TimedView<T>>::empty());
        while i < self.events.len()
            invariant
                0 <= i <= self.events@.len(),
                all == timed_views(self.events@),
                last@ == depth_by(all.take(i as int), target, otherwise),
            decreases self.events@.len() - i,
        {
            assert(all.take(i + 1).drop_last() =~= all.take(i as int));
            assert(all.take(i + 1).last() == self.events@[i as int]@);
            if self.events[i].at <= target {
                last = self.events[i].depth_after;
            }
            i = i + 1;
        }
        assert(all.take(i as int) =~= all);
        last
    }

    fn recompute(&mut self, top: Top10<T>, tick: T, now: u64, dt: u64, alpha: T)
        ensures
            final(self)@ == old(self)@.recomputed(top@, tick, now, dt, alpha),
    {
        let short = self.window(now, SHORT_WINDOW);
        let long = self.window(now, LONG_WINDOW);
        let depth = self.depth_ago(now, SHORT_WINDOW);
        let raw = compute_raw(&top, tick, &short, &long, &depth, &self.weights);
        self.last_raw = raw;
        self.last_x = self.ewma.update(&raw, dt, alpha);
        self.last_pred = self.model.predict_all(&self.last_x);
        if self.interrupted && self.ewma.accumulated() >= self.warm_period
            && self.tick_size.is_some() && self.book.is_valid() {
            self.interrupted = false;
        }
        assert(self@ =~= old(self)@.recomputed(top@, tick, now, dt, alpha));
    }

    /// How far the data can be relied on.
    pub fn quality(&self, now: u64) -> (r: DataQuality)
        ensures
            r == self@.quality(now),
    {
        if self.tick_size.is_none() {
            return DataQuality::NoTickSize;
        }
        if !self.book.is_valid() || self.last_top.is_none() {
            return DataQuality::IncompleteBook;
        }
        if self.interrupted || self.ewma.accumulated() < self.warm_period {
            return DataQuality::Warming;
        }
        if let Some(at) = self.last_book_at {
            if since(now, at) > LONG_GAP {
                return DataQuality::Stale;
            }
        }
        DataQuality::Good
    }

    /// Ends the warming: the last factors are taken to have come for 200
    /// seconds. `first` and `alpha` are the shares for a millisecond and for
    /// ten seconds.
    pub fn force_warmed_for_test(&mut self, first: T, alpha: T)
        ensures
            final(self)@ == (EngineState {
                interrupted: false,
                ewma: repeated(
                    EwmaState::blank().next(old(self)@.last_raw, MILLISECOND, first),
                    old(self)@.last_raw,
                    (10 * SECOND) as u64,
                    alpha,
                    20,
                ),
                ..old(self)@
            }),
    {
        self.interrupted = false;
        let raw = self.last_raw;
        let mut e: EwmaNorm<T> = EwmaNorm::new();
        e.update(&raw, MILLISECOND, first);
        let ghost start = e@;
        let mut i: usize = 0;
        while i < 20
            invariant
                0 <= i <= 20,
                e@ == repeated(start, raw@, (10 * SECOND) as u64, alpha, i as nat),
            decreases 20 - i,
        {
            e.update(&raw, 10 * SECOND, alpha);
            i = i + 1;
        }
        self.ewma = e;
    }

    /// What the engine says now.
    pub fn snapshot(&self, now: u64) -> (r: EngineSnapshot<T>)
        ensures
            r.shows(self@, now),
    {
        EngineSnapshot {
            quality: self.quality(now),
            mid: self.last_mid,
            tick_size: self.tick_size,
            factors: self.last_x,
            raw: self.last_raw,
            preds: self.last_pred,
            model_version: self.model.version.clone(),
            model: self.model.clone(),
            event_at: match self.last_event_at {
                Some(at) => at,
                None => now,
            },
        }
    }
}

/// The moving mean after the same factors came `n` times more.
pub open spec fn repeated<T: Real>(
    from: EwmaState<T>,
    raw: Seq<T>,
    dt: u64,
    alpha: T,
    n: nat,
) -> EwmaState<T>
    decreases n,
{
    if n == 0 {
        from
    } else {
        repeated(from, raw, dt, alpha, (n - 1) as nat).next(raw, dt, alpha)
    }
}

/// Are the events in the order of time, none later than `now`?
pub open spec fn in_order<T>(events: Seq<TimedView<T>>, now: u64) -> bool {
    &&& forall|i: int, j: int| 0 <= i <= j < events.len() ==> events[i].at <= events[j].at
    &&& forall|i: int| 0 <= i < events.len() ==> (#[trigger] events[i]).at <= now
}

/// Do the events reach back no farther than [`KEEP`] from the last one?
pub open spec fn bounded<T>(events: Seq<TimedView<T>>) -> bool {
    forall|i: int|
        0 <= i < events.len() ==> since_spec(events.last().at, (#[trigger] events[i]).at) <= KEEP
}

/// What is kept of events in order is the part that is young enough.
proof fn lemma_kept<T>(events: Seq<TimedView<T>>, now: u64)
    requires
        in_order(events, now),
        events.len() > 0,
        events.last().at == now,
    ensures
        kept(events, now).len() > 0,
        kept(events, now).last() == events.last(),
        in_order(kept(events, now), now),
        bounded(kept(events, now)),
    decreases events.len(),
{
    if since_spec(now, events[0].at) > KEEP {
        let rest = events.drop_first();
        assert(rest.len() > 0 && rest.last() == events.last());
        assert(in_order(rest, now)) by {
            assert forall|i: int, j: int| 0 <= i <= j < rest.len() implies rest[i].at
                <= rest[j].at by {
                assert(events[i + 1].at <= events[j + 1].at);
            }
            assert forall|i: int| 0 <= i < rest.len() implies (#[trigger] rest[i]).at <= now by {
                assert(events[i + 1].at <= now);
            }
        }
        lemma_kept(rest, now);
    } else {
        assert forall|i: int| 0 <= i < events.len() implies since_spec(
            events.last().at,
            (#[trigger] events[i]).at,
        ) <= KEEP by {
            assert(events[0].at <= events[i].at);
        }
    }
}

proof fn lemma_pushed<T>(events: Seq<TimedView<T>>, e: TimedView<T>)
    requires
        in_order(events, e.at),
    ensures
        in_order(kept(events.push(e), e.at), e.at),
        bounded(kept(events.push(e), e.at)),
        kept(events.push(e), e.at).len() > 0,
        kept(events.push(e), e.at).last() == e,
{
    let all = events.push(e);
    assert forall|i: int, j: int| 0 <= i <= j < all.len() implies all[i].at <= all[j].at by {
        if j < events.len() {
            assert(events[i].at <= events[j].at);
        } else if i < events.len() {
            assert(events[i].at <= e.at);
        }
    }
    assert forall|i: int| 0 <= i < all.len() implies (#[trigger] all[i]).at <= e.at by {
        if i < events.len() {
            assert(events[i].at <= e.at);
        }
    }
    lemma_kept(all, e.at);
}

impl<T: Real> EngineState<T> {
    /// The book is well-formed, the middle is that of the last best levels,
    /// and the events are in order and bounded.
    pub open spec fn wf(self, now: u64) -> bool {
        &&& self.book.wf()
        &&& self.last_top matches Some(top) ==> self.last_mid == Some(top.mid())
        &&& in_order(self.events, now)
        &&& bounded(self.events)
    }

    /// A new engine is well-formed.
    pub proof fn lemma_fresh_wf(
        warm_period: u64,
        model: FittedModel<T>,
        weights: Seq<T>,
        now: u64,
    )
        ensures
            Self::fresh(warm_period, model, weights).wf(now),
    {
    }

    /// What every event keeps, as long as time does not run backwards: the
    /// book is well-formed, the middle is that of the last best levels, and
    /// nothing that happened more than 70 ms before the last thing is held.
    pub proof fn lemma_after_wf(self, ev: EventView<T>, then: u64, now: u64, alpha: T)
        requires
            self.wf(then),
            then <= now,
        ensures
            self.after(ev, now, alpha).wf(now),
    {
        assert(in_order(self.events, now));
        match ev {
            EventView::DepthSnapshot { bids, asks, u, .. } => {
                BookState::<T>::lemma_snapshot_wf(bids, asks, u);
            },
            EventView::DepthIncremental { bids, asks, start_u, end_u, .. } => {
                self.book.lemma_incremental_wf(bids, asks, start_u, end_u);
                let (book, applied) = self.book.incremental(bids, asks, start_u, end_u);
                let next = EngineState { book, ..self };
                if let (Some(after), Some(before)) = (next.book.top(), next.last_top) {
                    if let Some(p) = next.pending_book {
                        lemma_pushed(
                            next.events,
                            TimedView { at: now, flow: p.flow, depth_after: p.depth_after },
                        );
                    }
                    let settled = next.settled(now);
                    assert(in_order(settled.events, now) && bounded(settled.events));
                    lemma_pushed(
                        settled.events,
                        TimedView {
                            at: now,
                            flow: FlowView::of_delta(before, after).additions(),
                            depth_after: DepthView::of_top(after),
                        },
                    );
                }
            },
            EventView::Trade(t) => {
                if let Some((aggressor, qty)) = let_through(self.seen, t) {
                    let trade = PendingTrade { price: t.price, qty, aggressor };
                    let reference = match self.pending_book {
                        Some(p) => Some(p.before),
                        None => self.last_top,
                    };
                    if let Some(top) = reference {
                        let current = match self.last_top {
                            Some(c) => c,
                            None => top,
                        };
                        lemma_pushed(
                            self.events,
                            TimedView {
                                at: now,
                                flow: FlowView::of_trade(top, trade),
                                depth_after: DepthView::of_top(current),
                            },
                        );
                    }
                }
            },
            _ => {},
        }
    }

    /// Another model keeps all that too.
    pub proof fn lemma_with_model_wf(self, model: FittedModel<T>, now: u64, alpha: T)
        requires
            self.wf(now),
        ensures
            self.with_model(model, now, alpha).wf(now),
    {
    }

    /// A lost connection, a lost tick size and a gap in the book clear the
    /// windows, and no valid sample can be taken right after them.
    pub proof fn lemma_interruption(self, ev: EventView<T>, now: u64, later: u64, alpha: T)
        requires
            ev is Disconnected || ev is TickSizeFailed || self.gap_at(ev),
        ensures
            self.after(ev, now, alpha).events.len() == 0,
            self.after(ev, now, alpha).pending.len() == 0,
            self.after(ev, now, alpha).pending_book is None,
            self.after(ev, now, alpha).seen == Set::<u64>::empty(),
            self.after(ev, now, alpha).ewma == EwmaState::<T>::blank(),
            self.after(ev, now, alpha).last_mid is None,
            self.after(ev, now, alpha).quality(later) != DataQuality::Good,
    {
    }

    /// The data are good only where the tick size is known, the book is in
    /// use, nothing is interrupted and the moving mean has had its time.
    pub proof fn lemma_good(self, now: u64)
        requires
            self.quality(now) == DataQuality::Good,
        ensures
            self.tick_size is Some,
            self.book.usable(),
            self.last_top is Some,
            !self.interrupted,
            self.ewma.accumulated >= self.warm_period,
    {
    }

    /// A snapshot of the book starts the warming over.
    pub proof fn lemma_snapshot_warms(self, ev: EventView<T>, now: u64, later: u64, alpha: T)
        requires
            ev is DepthSnapshot,
            self.warm_period > 0,
        ensures
            self.after(ev, now, alpha).quality(later) != DataQuality::Good,
            self.after(ev, now, alpha).events.len() == 0,
            self.after(ev, now, alpha).pending.len() == 0,
            self.after(ev, now, alpha).pending_book is None,
    {
    }

    /// A trade that counts leaves alone what is remembered of trades.
    #[verifier::spinoff_prover]
    proof fn lemma_traded_seen(self, t: PendingTrade<T>, now: u64, alpha: T)
        ensures
            self.traded(t, now, alpha).seen == self.seen,
    {
    }

    /// A reported trade is remembered, unless it is internal.
    #[verifier::spinoff_prover]
    pub proof fn lemma_trade_remembered(self, t: PublicTrade<T>, now: u64, alpha: T)
        ensures
            self.after(EventView::Trade(t), now, alpha).seen == remembered(self.seen, t),
    {
        if let Some((aggressor, qty)) = let_through(self.seen, t) {
            let next = EngineState { seen: remembered(self.seen, t), ..self };
            next.lemma_traded_seen(PendingTrade { price: t.price, qty, aggressor }, now, alpha);
        }
    }

    /// A trade that does not count and is known already changes nothing.
    #[verifier::spinoff_prover]
    proof fn lemma_known_trade(self, t: PublicTrade<T>, now: u64, alpha: T)
        requires
            let_through(self.seen, t) is None,
            remembered(self.seen, t) == self.seen,
        ensures
            self.after(EventView::Trade(t), now, alpha) == self,
    {
    }

    /// A trade that was let through changes nothing when it is reported again.
    #[verifier::spinoff_prover]
    pub proof fn lemma_trade_once(
        self,
        first: PublicTrade<T>,
        second: PublicTrade<T>,
        now: u64,
        later: u64,
        alpha: T,
        beta: T,
    )
        requires
            let_through(self.seen, first) is Some,
            first.id == second.id,
        ensures
            self.after(EventView::Trade(first), now, alpha).after(
                EventView::Trade(second),
                later,
                beta,
            ) == self.after(EventView::Trade(first), now, alpha),
    {
        lemma_once(self.seen, first, second);
        self.lemma_trade_remembered(first, now, alpha);
        self.after(EventView::Trade(first), now, alpha).lemma_known_trade(second, later, beta);
    }

    /// An internal trade changes nothing.
    pub proof fn lemma_internal_trade(self, t: PublicTrade<T>, now: u64, alpha: T)
        requires
            t.is_internal,
        ensures
            self.after(EventView::Trade(t), now, alpha) == self,
    {
        self.lemma_known_trade(t, now, alpha);
    }

    /// A trade that is let through counts at once, in full, at the moment it
    /// is reported, as long as the best levels are known.
    pub proof fn lemma_trade_immediate(
        self,
        t: PublicTrade<T>,
        then: u64,
        now: u64,
        alpha: T,
    )
        requires
            self.wf(then),
            then <= now,
            let_through(self.seen, t) is Some,
            self.pending_book is Some || self.last_top is Some,
        ensures
            ({
                let (aggressor, qty) = let_through(self.seen, t)->0;
                let reference = match self.pending_book {
                    Some(p) => p.before,
                    None => self.last_top->0,
                };
                let events = self.after(EventView::Trade(t), now, alpha).events;
                &&& events.len() > 0
                &&& events.last().at == now
                &&& events.last().flow == FlowView::of_trade(
                    reference,
                    PendingTrade { price: t.price, qty, aggressor },
                )
            }),
    {
        let (aggressor, qty) = let_through(self.seen, t)->0;
        let trade = PendingTrade { price: t.price, qty, aggressor };
        let reference = match self.pending_book {
            Some(p) => p.before,
            None => self.last_top->0,
        };
        let current = match self.last_top {
            Some(c) => c,
            None => reference,
        };
        assert(in_order(self.events, now));
        lemma_pushed(
            self.events,
            TimedView {
                at: now,
                flow: FlowView::of_trade(reference, trade),
                depth_after: DepthView::of_top(current),
            },
        );
    }
}

/// The trade in a report, if it is let through.
pub open spec fn counted_trade<T: Real>(seen: Set<u64>, t: PublicTrade<T>) -> Option<
    PendingTrade<T>,
> {
    match let_through(seen, t) {
        Some((aggressor, qty)) => Some(PendingTrade { price: t.price, qty, aggressor }),
        None => None,
    }
}

impl<T: Real> EngineState<T> {
    /// Does the update follow on the book, and leave these best levels?
    pub open spec fn updates_to(self, ev: EventView<T>, top: TopView<T>) -> bool {
        ev matches EventView::DepthIncremental { bids, asks, start_u, end_u, .. } && {
            let (book, applied) = self.book.incremental(bids, asks, start_u, end_u);
            applied == BookApply::Applied && book.top() == Some(top)
        }
    }

    /// Has the book been without an update for too long?
    pub open spec fn late(self, now: u64) -> bool {
        self.last_book_at matches Some(prev) && since_spec(now, prev) > LONG_GAP
    }

    /// A snapshot starts over: nothing has happened, no trade waits, and no
    /// change of the book is open.
    #[verifier::spinoff_prover]
    pub proof fn lemma_snapshot_starts(
        self,
        ev: EventView<T>,
        top: TopView<T>,
        now: u64,
        later: u64,
        alpha: T,
    )
        requires
            ev matches EventView::DepthSnapshot { bids, asks, u, .. } && BookState::snapshot(
                bids,
                asks,
                u,
            ).top() == Some(top),
            since_spec(later, now) <= LONG_GAP,
        ensures
            ({
                let n = self.after(ev, now, alpha);
                &&& n.events.len() == 0
                &&& n.pending.len() == 0
                &&& n.pending_book is None
                &&& n.last_top == Some(top)
                &&& n.seen == self.seen
                &&& !n.late(later)
            }),
    {
    }

    /// A trade while no change of the book is open: it waits for the book, and
    /// counts at once.
    #[verifier::spinoff_prover]
    pub proof fn lemma_trade_waits(
        self,
        t: PublicTrade<T>,
        trade: PendingTrade<T>,
        before: TopView<T>,
        now: u64,
        alpha: T,
    )
        requires
            counted_trade(self.seen, t) == Some(trade),
            self.pending_book is None,
            self.last_top == Some(before),
        ensures
            ({
                let n = self.after(EventView::Trade(t), now, alpha);
                &&& n.pending == self.pending.push(trade)
                &&& n.pending_book is None
                &&& n.last_top == self.last_top
                &&& n.last_book_at == self.last_book_at
                &&& n.book == self.book
                &&& n.events == kept(
                    self.events.push(
                        TimedView {
                            at: now,
                            flow: FlowView::of_trade(before, trade),
                            depth_after: DepthView::of_top(before),
                        },
                    ),
                    now,
                )
            }),
    {
    }

    /// A trade while a change of the book is open: it takes back the cancels
    /// that it explains, or else waits for the book, and counts at once.
    #[verifier::spinoff_prover]
    pub proof fn lemma_trade_explains(
        self,
        t: PublicTrade<T>,
        trade: PendingTrade<T>,
        open: PendingBookView<T>,
        current: TopView<T>,
        now: u64,
        alpha: T,
    )
        requires
            counted_trade(self.seen, t) == Some(trade),
            self.pending_book == Some(open),
            self.last_top == Some(current),
        ensures
            ({
                let n = self.after(EventView::Trade(t), now, alpha);
                &&& n.pending == (if open.flow.explained_by(open.before, trade) {
                    self.pending
                } else {
                    self.pending.push(trade)
                })
                &&& n.pending_book == Some(
                    PendingBookView { flow: open.flow.excluding(open.before, trade), ..open },
                )
                &&& n.events == kept(
                    self.events.push(
                        TimedView {
                            at: now,
                            flow: FlowView::of_trade(open.before, trade),
                            depth_after: DepthView::of_top(current),
                        },
                    ),
                    now,
                )
            }),
    {
    }

    /// A change of the book: what was added counts at once, and what was taken
    /// away stays open, less what the trades that wait explain. No trade waits
    /// any longer, so nothing that they have left over is taken from a later
    /// decrease.
    #[verifier::spinoff_prover]
    pub proof fn lemma_update_opens(
        self,
        ev: EventView<T>,
        before: TopView<T>,
        after: TopView<T>,
        now: u64,
        alpha: T,
    )
        requires
            self.updates_to(ev, after),
            self.last_top == Some(before),
            !self.late(now),
        ensures
            ({
                let n = self.after(ev, now, alpha);
                let delta = FlowView::of_delta(before, after);
                let settled = self.settled(now);
                &&& n.pending.len() == 0
                &&& n.pending_book == Some(
                    PendingBookView {
                        before,
                        flow: delta.without_additions().excluding_all(before, self.pending),
                        depth_after: DepthView::of_top(after),
                    },
                )
                &&& n.last_top == Some(after)
                &&& n.seen == self.seen
                &&& n.events == (if delta.additions().has_additions() {
                    kept(
                        settled.events.push(
                            TimedView {
                                at: now,
                                flow: delta.additions(),
                                depth_after: DepthView::of_top(after),
                            },
                        ),
                        now,
                    )
                } else {
                    settled.events
                })
            }),
    {
        if let EventView::DepthIncremental { bids, asks, start_u, end_u, .. } = ev {
            let (book, applied) = self.book.incremental(bids, asks, start_u, end_u);
            let next = EngineState { book, ..self };
            assert(self.after(ev, now, alpha) == next.book_updated(now, alpha));
            assert(next.settled(now).events == self.settled(now).events);
            assert(next.settled(now).pending == self.pending);
        }
    }

    /// A trade and the change of the book that shows it end the same in either
    /// order: what stays open of the change is the same, and no trade that
    /// explains any of it goes on waiting.
    #[verifier::spinoff_prover]
    pub proof fn lemma_either_order(
        self,
        t: PublicTrade<T>,
        trade: PendingTrade<T>,
        ev: EventView<T>,
        before: TopView<T>,
        after: TopView<T>,
        now: u64,
        later: u64,
        shares: (T, T, T, T),
    )
        requires
            counted_trade(self.seen, t) == Some(trade),
            self.pending.len() == 0,
            self.pending_book is None,
            self.last_top == Some(before),
            self.updates_to(ev, after),
            !self.late(now),
            !self.late(later),
        ensures
            ({
                let trade_first = self.after(EventView::Trade(t), now, shares.0).after(
                    ev,
                    later,
                    shares.1,
                );
                let book_first = self.after(ev, now, shares.2).after(
                    EventView::Trade(t),
                    later,
                    shares.3,
                );
                let cancels = FlowView::of_delta(before, after).without_additions();
                &&& trade_first.pending_book == Some(
                    PendingBookView {
                        before,
                        flow: cancels.excluding(before, trade),
                        depth_after: DepthView::of_top(after),
                    },
                )
                &&& book_first.pending_book == trade_first.pending_book
                &&& trade_first.pending.len() == 0
                &&& cancels.explained_by(before, trade) ==> book_first.pending.len() == 0
            }),
    {
        let cancels = FlowView::of_delta(before, after).without_additions();
        let one = self.after(EventView::Trade(t), now, shares.0);
        self.lemma_trade_waits(t, trade, before, now, shares.0);
        assert(one.updates_to(ev, after));
        one.lemma_update_opens(ev, before, after, later, shares.1);
        assert(one.pending.drop_last() =~= Seq::<PendingTrade<T>>::empty());
        assert(one.pending.last() == trade);
        assert(cancels.excluding_all(before, one.pending.drop_last()) == cancels);
        let two = self.after(ev, now, shares.2);
        self.lemma_update_opens(ev, before, after, now, shares.2);
        assert(self.pending =~= Seq::<PendingTrade<T>>::empty());
        assert(cancels.excluding_all(before, self.pending) == cancels);
        two.lemma_trade_explains(t, trade, two.pending_book->0, after, later, shares.3);
    }

    /// A trade and then the change of the book that shows it are counted once,
    /// for every number type: the trade is executed in full, no event cancels
    /// anything at its level, and of what the book lost there only what the
    /// trade does not explain is left to be cancelled.
    #[verifier::spinoff_prover]
    pub proof fn lemma_trade_counted_once(
        self,
        t: PublicTrade<T>,
        trade: PendingTrade<T>,
        ev: EventView<T>,
        before: TopView<T>,
        after: TopView<T>,
        i: int,
        now: u64,
        later: u64,
        shares: (T, T),
    )
        requires
            counted_trade(self.seen, t) == Some(trade),
            self.events.len() == 0,
            self.pending.len() == 0,
            self.pending_book is None,
            self.last_top == Some(before),
            self.updates_to(ev, after),
            !self.late(later),
            since_spec(later, now) <= KEEP,
            before.bids.len() == MODEL_LEVELS,
            before.asks.len() == MODEL_LEVELS,
            FlowView::level_of(before, trade) == Some(i),
        ensures
            self.after(EventView::Trade(t), now, shares.0).after(ev, later, shares.1).books_once(
                trade,
                i,
                lost_to(before, after, trade)[i],
            ),
    {
        let one = self.after(EventView::Trade(t), now, shares.0);
        self.lemma_trade_waits(t, trade, before, now, shares.0);
        assert(one.updates_to(ev, after));
        assert(!one.late(later));
        assert(one.settled(later).events == one.events);
        one.lemma_update_opens(ev, before, after, later, shares.1);
        lemma_only_trade(trade, one.pending);
        lemma_excluding_one(
            FlowView::of_delta(before, after).without_additions(),
            before,
            trade,
            one.pending,
        );
        FlowView::lemma_change_explained(before, after, trade, i);
        lemma_shown_then_added(
            self.events,
            one.events,
            one.after(ev, later, shares.1).events,
            trade,
            before,
            after,
            i,
            now,
            later,
        );
    }

    /// In the other order they end the same.
    #[verifier::spinoff_prover]
    pub proof fn lemma_change_counted_once(
        self,
        t: PublicTrade<T>,
        trade: PendingTrade<T>,
        ev: EventView<T>,
        before: TopView<T>,
        after: TopView<T>,
        i: int,
        now: u64,
        later: u64,
        shares: (T, T),
    )
        requires
            counted_trade(self.seen, t) == Some(trade),
            self.events.len() == 0,
            self.pending.len() == 0,
            self.pending_book is None,
            self.last_top == Some(before),
            self.updates_to(ev, after),
            !self.late(now),
            since_spec(later, now) <= KEEP,
            before.bids.len() == MODEL_LEVELS,
            before.asks.len() == MODEL_LEVELS,
            FlowView::level_of(before, trade) == Some(i),
        ensures
            self.after(ev, now, shares.0).after(EventView::Trade(t), later, shares.1).books_once(
                trade,
                i,
                lost_to(before, after, trade)[i],
            ),
    {
        let one = self.after(ev, now, shares.0);
        assert(self.settled(now).events == self.events);
        self.lemma_update_opens(ev, before, after, now, shares.0);
        let cancels = FlowView::of_delta(before, after).without_additions();
        assert(self.pending =~= Seq::<PendingTrade<T>>::empty());
        assert(cancels.excluding_all(before, self.pending) == cancels);
        one.lemma_trade_explains(t, trade, one.pending_book->0, after, later, shares.1);
        FlowView::lemma_change_explained(before, after, trade, i);
        lemma_added_then_shown(
            self.events,
            one.events,
            one.after(EventView::Trade(t), later, shares.1).events,
            trade,
            before,
            after,
            i,
            now,
            later,
        );
    }

    /// Does the state hold a trade for executed once, and for cancelled no more
    /// than the trade does not explain of this loss?
    pub open spec fn books_once(self, trade: PendingTrade<T>, i: int, loss: T) -> bool {
        &&& executed_once(self.events, trade, i)
        &&& self.pending_book matches Some(open) && {
            &&& open.flow.execs_hit(trade)[i] == zero_spec::<T>()
            &&& open.flow.cancels_hit(trade)[i] == unexplained(trade.qty, loss)
        }
    }

    /// Where no trade waits, all that a change takes away counts as cancelled:
    /// what an earlier trade has over is not taken from it.
    pub proof fn lemma_nothing_carried(
        self,
        ev: EventView<T>,
        before: TopView<T>,
        after: TopView<T>,
        trade: PendingTrade<T>,
        i: int,
        now: u64,
        alpha: T,
    )
        requires
            self.pending.len() == 0,
            self.last_top == Some(before),
            self.updates_to(ev, after),
            !self.late(now),
            0 <= i < MODEL_LEVELS,
        ensures
            self.after(ev, now, alpha).pending_book matches Some(open) && {
                &&& open.flow.cancels_hit(trade)[i] == lost_to(before, after, trade)[i]
                &&& open.flow.execs_hit(trade)[i] == zero_spec::<T>()
            },
    {
        self.lemma_update_opens(ev, before, after, now, alpha);
    }
}

/// The one trade that waits.
proof fn lemma_only_trade<T>(trade: PendingTrade<T>, waiting: Seq<PendingTrade<T>>)
    requires
        waiting.len() == 1,
        waiting[0] == trade,
    ensures
        waiting.drop_last() == Seq::<PendingTrade<T>>::empty(),
        waiting.last() == trade,
{
    assert(waiting.drop_last() =~= Seq::<PendingTrade<T>>::empty());
}

/// Where one trade waits, that one is excluded.
proof fn lemma_excluding_one<T: Real>(
    cancels: FlowView<T>,
    before: TopView<T>,
    trade: PendingTrade<T>,
    waiting: Seq<PendingTrade<T>>,
)
    requires
        waiting.len() == 1,
        waiting.drop_last() == Seq::<PendingTrade<T>>::empty(),
        waiting.last() == trade,
    ensures
        cancels.excluding_all(before, waiting) == cancels.excluding(before, trade),
{
    assert(cancels.excluding_all(before, waiting.drop_last()) == cancels);
}

/// The events after a trade and then a change.
proof fn lemma_shown_then_added<T: Real>(
    start: Seq<TimedView<T>>,
    one: Seq<TimedView<T>>,
    end: Seq<TimedView<T>>,
    trade: PendingTrade<T>,
    before: TopView<T>,
    after: TopView<T>,
    i: int,
    now: u64,
    later: u64,
)
    requires
        start.len() == 0,
        one == kept(
            start.push(
                TimedView {
                    at: now,
                    flow: FlowView::of_trade(before, trade),
                    depth_after: DepthView::of_top(before),
                },
            ),
            now,
        ),
        end == (if FlowView::of_delta(before, after).additions().has_additions() {
            kept(
                one.push(
                    TimedView {
                        at: later,
                        flow: FlowView::of_delta(before, after).additions(),
                        depth_after: DepthView::of_top(after),
                    },
                ),
                later,
            )
        } else {
            one
        }),
        since_spec(later, now) <= KEEP,
        before.bids.len() == MODEL_LEVELS,
        before.asks.len() == MODEL_LEVELS,
        FlowView::level_of(before, trade) == Some(i),
    ensures
        executed_once(end, trade, i),
{
    FlowView::lemma_trade_shown(before, trade, i);
    FlowView::lemma_change_explained(before, after, trade, i);
    assert(one.len() == 1 && one[0].at == now);
    assert(end[0] == one[0]);
    assert(end[0].flow.execs_hit(trade)[i] == trade.qty);
    assert(end.len() <= 2);
}

/// The events after a change and then a trade.
proof fn lemma_added_then_shown<T: Real>(
    start: Seq<TimedView<T>>,
    one: Seq<TimedView<T>>,
    end: Seq<TimedView<T>>,
    trade: PendingTrade<T>,
    before: TopView<T>,
    after: TopView<T>,
    i: int,
    now: u64,
    later: u64,
)
    requires
        start.len() == 0,
        one == (if FlowView::of_delta(before, after).additions().has_additions() {
            kept(
                start.push(
                    TimedView {
                        at: now,
                        flow: FlowView::of_delta(before, after).additions(),
                        depth_after: DepthView::of_top(after),
                    },
                ),
                now,
            )
        } else {
            start
        }),
        end == kept(
            one.push(
                TimedView {
                    at: later,
                    flow: FlowView::of_trade(before, trade),
                    depth_after: DepthView::of_top(after),
                },
            ),
            later,
        ),
        since_spec(later, now) <= KEEP,
        before.bids.len() == MODEL_LEVELS,
        before.asks.len() == MODEL_LEVELS,
        FlowView::level_of(before, trade) == Some(i),
    ensures
        executed_once(end, trade, i),
{
    FlowView::lemma_trade_shown(before, trade, i);
    FlowView::lemma_change_explained(before, after, trade, i);
    assert(one.len() <= 1);
    assert(one.len() == 1 ==> one[0].at == now);
    assert(end.len() == one.len() + 1);
    assert(end[end.len() - 1].flow.execs_hit(trade)[i] == trade.qty);
    assert(one.len() == 1 ==> end[0] == one[0]);
}

/// Does one event, and no other, execute the trade in full at its level, and
/// none cancel anything there?
pub open spec fn executed_once<T: Real>(
    events: Seq<TimedView<T>>,
    trade: PendingTrade<T>,
    i: int,
) -> bool {
    exists|at: int|
        0 <= at < events.len() && (#[trigger] events[at]).flow.execs_hit(trade)[i] == trade.qty
            && forall|k: int|
            0 <= k < events.len() ==> {
                &&& (#[trigger] events[k]).flow.cancels_hit(trade)[i] == zero_spec::<T>()
                &&& k != at ==> events[k].flow.execs_hit(trade)[i] == zero_spec::<T>()
            }
}

} // verus!
