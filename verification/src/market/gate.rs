//! What comes from the exchange: events, and the session that brings them.
use vstd::prelude::*;

use crate::clock::{since, SECOND};
#[allow(unused_imports)]
use crate::clock::since_spec;
use crate::market::book::{BookApply, LocalBook};
#[allow(unused_imports)]
use crate::market::book::BookState;
use crate::market::flow::PublicTrade;
use crate::number::Real;
use crate::text::is_text;

verus! {

/// How often a session is pinged.
pub const PING_EVERY: u64 = 15_000_000_000;

/// How long a session may stay silent.
pub const IDLE_TIMEOUT: u64 = 30_000_000_000;

/// The longest wait before a new session.
pub const BACKOFF_LIMIT: u64 = 30_000_000_000;

/// Why the book has to be subscribed to again.
pub const GAP_REASON: &'static str = "order book sequence gap";

/// Something that happened in the market, or on the way to it.
#[derive(Clone, Debug)]
pub enum MarketEvent<T> {
    TickSize(T),
    TickSizeFailed(String),
    DepthSnapshot { bids: Vec<(T, T)>, asks: Vec<(T, T)>, u: u64, exch_time_ms: i64 },
    DepthIncremental {
        bids: Vec<(T, T)>,
        asks: Vec<(T, T)>,
        start_u: u64,
        end_u: u64,
        exch_time_ms: i64,
    },
    Trade(PublicTrade<T>),
    Disconnected(String),
}

/// What a [`MarketEvent`] says.
pub enum EventView<T> {
    TickSize(T),
    TickSizeFailed(Seq<char>),
    DepthSnapshot { bids: Seq<(T, T)>, asks: Seq<(T, T)>, u: u64, exch_time_ms: i64 },
    DepthIncremental {
        bids: Seq<(T, T)>,
        asks: Seq<(T, T)>,
        start_u: u64,
        end_u: u64,
        exch_time_ms: i64,
    },
    Trade(PublicTrade<T>),
    Disconnected(Seq<char>),
}

impl<T: Real> View for MarketEvent<T> {
    type V = EventView<T>;

    open spec fn view(&self) -> EventView<T> {
        match *self {
            MarketEvent::TickSize(t) => EventView::TickSize(t),
            MarketEvent::TickSizeFailed(e) => EventView::TickSizeFailed(e@),
            MarketEvent::DepthSnapshot { bids, asks, u, exch_time_ms } => EventView::DepthSnapshot {
                bids: bids@,
                asks: asks@,
                u,
                exch_time_ms,
            },
            MarketEvent::DepthIncremental {
                bids,
                asks,
                start_u,
                end_u,
                exch_time_ms,
            } => EventView::DepthIncremental {
                bids: bids@,
                asks: asks@,
                start_u,
                end_u,
                exch_time_ms,
            },
            MarketEvent::Trade(t) => EventView::Trade(t),
            MarketEvent::Disconnected(e) => EventView::Disconnected(e@),
        }
    }
}

/// What the events of a list say.
pub open spec fn events_view<T: Real>(events: Seq<MarketEvent<T>>) -> Seq<EventView<T>> {
    events.map_values(|e: MarketEvent<T>| e@)
}

/// A book update as the exchange sends it. A row holds a price and a quantity,
/// each where its text is a number.
#[derive(Debug)]
pub struct ObuResult<T> {
    pub t: Option<i64>,
    pub full: Option<bool>,
    pub b: Vec<(Option<T>, Option<T>)>,
    pub a: Vec<(Option<T>, Option<T>)>,
    pub start_u: Option<u64>,
    pub end_u: Option<u64>,
}

/// A trade as the exchange sends it: price and size where they are numbers.
#[derive(Clone, Copy, Debug)]
pub struct TradeRow<T> {
    pub id: u64,
    pub price: Option<T>,
    pub size: Option<T>,
    pub is_internal: bool,
}

/// The trades of a message: a list of rows or a single row, where they can be read.
#[derive(Debug)]
pub enum TradeRows<T> {
    Many(Option<Vec<TradeRow<T>>>),
    Single(Option<TradeRow<T>>),
}

/// The result of a message, read as a book update and as trades.
#[derive(Debug)]
pub struct WsResult<T> {
    pub obu: Option<ObuResult<T>>,
    pub trades: TradeRows<T>,
}

/// A message of the exchange.
#[derive(Debug)]
pub struct WsEnvelope<T> {
    pub channel: Option<String>,
    pub event: Option<String>,
    pub result: Option<WsResult<T>>,
}

/// The rows whose price and quantity are both numbers.
pub open spec fn parse_levels_spec<T>(rows: Seq<(Option<T>, Option<T>)>) -> Seq<(T, T)>
    decreases rows.len(),
{
    if rows.len() == 0 {
        Seq::empty()
    } else {
        let rest = parse_levels_spec(rows.drop_last());
        match rows.last() {
            (Some(p), Some(q)) => rest.push((p, q)),
            _ => rest,
        }
    }
}

fn parse_levels<T: Real>(rows: &Vec<(Option<T>, Option<T>)>) -> (r: Vec<(T, T)>)
    ensures
        r@ == parse_levels_spec(rows@),
{
    let mut out: Vec<(T, T)> = Vec::new();
    let mut i: usize = 0;
    assert(rows@.take(0) =~= Seq::<(Option<T>, Option<T>)>::empty());
    while i < rows.len()
        invariant
            0 <= i <= rows@.len(),
            out@ == parse_levels_spec(rows@.take(i as int)),
        decreases rows@.len() - i,
    {
        assert(rows@.take(i + 1).drop_last() =~= rows@.take(i as int));
        assert(rows@.take(i + 1).last() == rows@[i as int]);
        if let (Some(p), Some(q)) = rows[i] {
            out.push((p, q));
        }
        i = i + 1;
    }
    assert(rows@.take(i as int) =~= rows@);
    out
}

/// The event in a book update. It needs its last number, and, unless it is a
/// snapshot, its first number too.
pub open spec fn parse_obu_spec<T: Real>(r: ObuResult<T>) -> Option<EventView<T>> {
    let bids = parse_levels_spec(r.b@);
    let asks = parse_levels_spec(r.a@);
    let exch_time_ms = match r.t {
        Some(t) => t,
        None => 0,
    };
    if r.end_u is None {
        None
    } else if r.full == Some(true) {
        Some(EventView::DepthSnapshot { bids, asks, u: r.end_u->0, exch_time_ms })
    } else if r.start_u is None {
        None
    } else {
        Some(
            EventView::DepthIncremental {
                bids,
                asks,
                start_u: r.start_u->0,
                end_u: r.end_u->0,
                exch_time_ms,
            },
        )
    }
}

pub fn parse_obu<T: Real>(r: &ObuResult<T>) -> (e: Option<MarketEvent<T>>)
    ensures
        match e {
            Some(ev) => parse_obu_spec(*r) == Some(ev@),
            None => parse_obu_spec(*r) is None,
        },
{
    let bids = parse_levels(&r.b);
    let asks = parse_levels(&r.a);
    let exch_time_ms: i64 = match r.t {
        Some(t) => t,
        None => 0,
    };
    let full: bool = match r.full {
        Some(f) => f,
        None => false,
    };
    match (r.end_u, r.start_u) {
        (Some(u), _) if full => Some(MarketEvent::DepthSnapshot { bids, asks, u, exch_time_ms }),
        (Some(end_u), Some(start_u)) => Some(
            MarketEvent::DepthIncremental { bids, asks, start_u, end_u, exch_time_ms },
        ),
        _ => None,
    }
}

/// The trade in a row, where price and size are numbers.
pub open spec fn trade_of<T: Real>(row: TradeRow<T>) -> Option<PublicTrade<T>> {
    match (row.size, row.price) {
        (Some(size), Some(price)) => Some(
            PublicTrade { id: row.id, price, size, is_internal: row.is_internal },
        ),
        _ => None,
    }
}

fn trade_from_row<T: Real>(row: TradeRow<T>) -> (r: Option<MarketEvent<T>>)
    ensures
        match r {
            Some(ev) => trade_of(row) is Some && ev == MarketEvent::Trade(trade_of(row)->0),
            None => trade_of(row) is None,
        },
{
    match (row.size, row.price) {
        (Some(size), Some(price)) => Some(
            MarketEvent::Trade(
                PublicTrade { id: row.id, price, size, is_internal: row.is_internal },
            ),
        ),
        _ => None,
    }
}

/// The trades of all rows, in order.
pub open spec fn trades_of<T: Real>(rows: Seq<TradeRow<T>>) -> Seq<EventView<T>>
    decreases rows.len(),
{
    if rows.len() == 0 {
        Seq::empty()
    } else {
        let rest = trades_of(rows.drop_last());
        match trade_of(rows.last()) {
            Some(t) => rest.push(EventView::Trade(t)),
            None => rest,
        }
    }
}

/// Where every row can be read, each gives its own trade, in order.
pub proof fn lemma_every_row<T: Real>(rows: Seq<TradeRow<T>>, i: int)
    requires
        forall|k: int| 0 <= k < rows.len() ==> trade_of(#[trigger] rows[k]) is Some,
        0 <= i < rows.len(),
    ensures
        trades_of(rows).len() == rows.len(),
        trades_of(rows)[i] == EventView::Trade(trade_of(rows[i])->0),
    decreases rows.len(),
{
    let front = rows.drop_last();
    assert forall|k: int| 0 <= k < front.len() implies trade_of(#[trigger] front[k]) is Some by {
        assert(front[k] == rows[k]);
    }
    assert(trade_of(rows.last()) is Some);
    if front.len() > 0 {
        lemma_every_row(
            front,
            if i < front.len() {
                i
            } else {
                0
            },
        );
    }
}

/// The rows that could be read.
pub open spec fn rows_of<T>(rows: TradeRows<T>) -> Seq<TradeRow<T>> {
    match rows {
        TradeRows::Many(Some(rows)) => rows@,
        TradeRows::Single(Some(row)) => seq![row],
        _ => Seq::empty(),
    }
}

/// Every row of a message gives its trade.
pub fn parse_trades<T: Real>(rows: &TradeRows<T>) -> (r: Vec<MarketEvent<T>>)
    ensures
        events_view(r@) == trades_of(rows_of(*rows)),
{
    let mut out: Vec<MarketEvent<T>> = Vec::new();
    match rows {
        TradeRows::Many(Some(list)) => {
            let mut i: usize = 0;
            assert(list@.take(0) =~= Seq::<TradeRow<T>>::empty());
            assert(events_view(out@) =~= Seq::<EventView<T>>::empty());
            while i < list.len()
                invariant
                    0 <= i <= list@.len(),
                    events_view(out@) == trades_of(list@.take(i as int)),
                decreases list@.len() - i,
            {
                assert(list@.take(i + 1).drop_last() =~= list@.take(i as int));
                assert(list@.take(i + 1).last() == list@[i as int]);
                let ghost before = out@;
                if let Some(ev) = trade_from_row(list[i]) {
                    out.push(ev);
                    assert(events_view(before.push(ev)) =~= events_view(before).push(ev@));
                }
                i = i + 1;
            }
            assert(list@.take(i as int) =~= list@);
        },
        TradeRows::Single(Some(row)) => {
            proof {
                let one = seq![*row];
                assert(one.drop_last() =~= Seq::<TradeRow<T>>::empty());
                assert(trades_of(one.drop_last()) =~= Seq::<EventView<T>>::empty());
                assert(one.last() == *row);
            }
            if let Some(ev) = trade_from_row(*row) {
                out.push(ev);
                assert(events_view(out@) =~= Seq::<EventView<T>>::empty().push(ev@));
            }
            assert(events_view(out@) =~= trades_of(rows_of(*rows)));
        },
        _ => {
            assert(events_view(out@) =~= Seq::<EventView<T>>::empty());
        },
    }
    out
}

/// Does an optional text hold these characters?
pub open spec fn reads(a: Option<String>, b: Seq<char>) -> bool {
    a matches Some(s) && s@ == b
}

/// The events in a message: one at most in an update of the book, one for each
/// readable row in an update of the trades, none in anything else.
pub open spec fn parse_ws_spec<T: Real>(env: Option<WsEnvelope<T>>) -> Seq<EventView<T>> {
    match env {
        Some(env) => if !reads(env.event, "update"@) || env.result is None {
            Seq::empty()
        } else if reads(env.channel, "futures.obu"@) {
            match env.result->0.obu {
                Some(obu) => match parse_obu_spec(obu) {
                    Some(ev) => seq![ev],
                    None => Seq::empty(),
                },
                None => Seq::empty(),
            }
        } else if reads(env.channel, "futures.trades"@) {
            trades_of(rows_of(env.result->0.trades))
        } else {
            Seq::empty()
        },
        None => Seq::empty(),
    }
}

/// The events in a message, if the text was one.
pub fn parse_ws_text<T: Real>(env: &Option<WsEnvelope<T>>) -> (r: Vec<MarketEvent<T>>)
    ensures
        events_view(r@) == parse_ws_spec(*env),
{
    let mut out: Vec<MarketEvent<T>> = Vec::new();
    assert(events_view(out@) =~= Seq::<EventView<T>>::empty());
    if let Some(env) = env {
        if is_text(&env.event, "update") {
            if let Some(result) = &env.result {
                if is_text(&env.channel, "futures.obu") {
                    if let Some(obu) = &result.obu {
                        if let Some(ev) = parse_obu(obu) {
                            out.push(ev);
                            assert(events_view(out@) =~= seq![ev@]);
                        }
                    }
                } else if is_text(&env.channel, "futures.trades") {
                    return parse_trades(&result.trades);
                }
            }
        }
    }
    out
}

/// The book has to be subscribed to again.
pub fn gap_event<T: Real>() -> (r: MarketEvent<T>)
    ensures
        r@ == EventView::<T>::Disconnected(GAP_REASON@),
{
    MarketEvent::Disconnected(GAP_REASON.to_string())
}

/// Why a session ends.
#[derive(Clone, Copy, Debug, PartialEq, Eq, Structural)]
pub enum StopReason {
    IdleTimeout,
    Closed,
    ReadTimeout,
    CloseFrame,
    BadFrame,
}

impl StopReason {
    pub open spec fn text(self) -> Seq<char> {
        match self {
            StopReason::IdleTimeout => "websocket idle timeout"@,
            StopReason::Closed => "ws closed"@,
            StopReason::ReadTimeout => "websocket read timeout"@,
            StopReason::CloseFrame => "ws close frame"@,
            StopReason::BadFrame => "ws frame"@,
        }
    }

    pub fn as_str(self) -> (r: &'static str)
        ensures
            r@ == self.text(),
    {
        match self {
            StopReason::IdleTimeout => "websocket idle timeout",
            StopReason::Closed => "ws closed",
            StopReason::ReadTimeout => "websocket read timeout",
            StopReason::CloseFrame => "ws close frame",
            StopReason::BadFrame => "ws frame",
        }
    }
}

/// What the connection brought.
#[derive(Debug)]
pub enum Incoming<T> {
    Text(Vec<MarketEvent<T>>),
    Ping,
    Close,
    Other,
    Failed,
    Ended,
    TimedOut,
}

/// What a session does next.
#[derive(Debug)]
pub enum SessionAction<T> {
    Forward(Vec<MarketEvent<T>>),
    Pong,
    Ping,
    Nothing,
    Stop(StopReason),
}

/// A session: the book as the messages build it up, whether it has to be
/// subscribed to again, and when the last message came.
#[derive(Debug)]
pub struct Session<T> {
    local: LocalBook<T>,
    need_resub: bool,
    last_msg: u64,
}

/// What a [`Session`] holds.
#[verifier::ext_equal]
pub struct SessionState<T> {
    pub local: BookState<T>,
    pub need_resub: bool,
    pub last_msg: u64,
}

impl<T: Real> View for Session<T> {
    type V = SessionState<T>;

    closed spec fn view(&self) -> SessionState<T> {
        SessionState { local: self.local@, need_resub: self.need_resub, last_msg: self.last_msg }
    }
}

/// Does an update not follow on the book?
pub open spec fn leaves_gap<T: Real>(book: BookState<T>, ev: EventView<T>) -> bool {
    match ev {
        EventView::DepthIncremental { bids, asks, start_u, end_u, .. } => book.incremental(
            bids,
            asks,
            start_u,
            end_u,
        ).1 == BookApply::Gap,
        _ => false,
    }
}

/// The book after an event.
pub open spec fn book_after<T: Real>(book: BookState<T>, ev: EventView<T>) -> BookState<T> {
    match ev {
        EventView::DepthSnapshot { bids, asks, u, .. } => BookState::snapshot(bids, asks, u),
        EventView::DepthIncremental { bids, asks, start_u, end_u, .. } => book.incremental(
            bids,
            asks,
            start_u,
            end_u,
        ).0,
        _ => book,
    }
}

/// The book after events.
pub open spec fn book_after_all<T: Real>(
    book: BookState<T>,
    events: Seq<EventView<T>>,
) -> BookState<T>
    decreases events.len(),
{
    if events.len() == 0 {
        book
    } else {
        book_after(book_after_all(book, events.drop_last()), events.last())
    }
}

/// Does one of the events leave a gap?
pub open spec fn some_gap<T: Real>(book: BookState<T>, events: Seq<EventView<T>>) -> bool
    decreases events.len(),
{
    events.len() > 0 && (some_gap(book, events.drop_last()) || leaves_gap(
        book_after_all(book, events.drop_last()),
        events.last(),
    ))
}

/// The events that are passed on: all but those that leave a gap.
pub open spec fn forwarded<T: Real>(
    book: BookState<T>,
    events: Seq<EventView<T>>,
) -> Seq<EventView<T>>
    decreases events.len(),
{
    if events.len() == 0 {
        Seq::empty()
    } else {
        let rest = forwarded(book, events.drop_last());
        if leaves_gap(book_after_all(book, events.drop_last()), events.last()) {
            rest
        } else {
            rest.push(events.last())
        }
    }
}

/// The book of a session is well-formed, whatever the exchange sends.
pub proof fn lemma_book_after_wf<T: Real>(book: BookState<T>, events: Seq<EventView<T>>)
    requires
        book.wf(),
    ensures
        book_after_all(book, events).wf(),
    decreases events.len(),
{
    if events.len() > 0 {
        let before = book_after_all(book, events.drop_last());
        lemma_book_after_wf(book, events.drop_last());
        match events.last() {
            EventView::DepthSnapshot { bids, asks, u, .. } => {
                BookState::<T>::lemma_snapshot_wf(bids, asks, u);
            },
            EventView::DepthIncremental { bids, asks, start_u, end_u, .. } => {
                before.lemma_incremental_wf(bids, asks, start_u, end_u);
            },
            _ => {},
        }
    }
}

/// Where no update leaves a gap, every event is passed on, in order.
pub proof fn lemma_all_forwarded<T: Real>(book: BookState<T>, events: Seq<EventView<T>>)
    requires
        !some_gap(book, events),
    ensures
        forwarded(book, events) == events,
    decreases events.len(),
{
    if events.len() > 0 {
        lemma_all_forwarded(book, events.drop_last());
        assert(forwarded(book, events) =~= events);
    }
}

impl<T: Real> Session<T> {
    /// A session that begins now.
    pub fn new(now: u64) -> (r: Self)
        ensures
            r@ == (SessionState {
                local: BookState::<T>::blank(),
                need_resub: false,
                last_msg: now,
            }),
    {
        Session { local: LocalBook::new(), need_resub: false, last_msg: now }
    }

    /// Takes one event into the book; says whether it leaves a gap.
    fn take_in(&mut self, ev: &MarketEvent<T>) -> (gap: bool)
        ensures
            final(self)@ == (SessionState {
                local: book_after(old(self)@.local, ev@),
                ..old(self)@
            }),
            gap == leaves_gap(old(self)@.local, ev@),
    {
        match ev {
            MarketEvent::DepthSnapshot { bids, asks, u, .. } => {
                self.local.apply_snapshot(bids.as_slice(), asks.as_slice(), *u);
                false
            },
            MarketEvent::DepthIncremental { bids, asks, start_u, end_u, .. } => {
                let applied = self.local.apply_incremental(
                    bids.as_slice(),
                    asks.as_slice(),
                    *start_u,
                    *end_u,
                );
                match applied {
                    BookApply::Gap => true,
                    _ => false,
                }
            },
            _ => false,
        }
    }

    /// Takes the events of a message into the book, and returns those to pass
    /// on. An update that leaves a gap is not passed on, and asks for a new
    /// subscription.
    pub fn on_events(&mut self, events: Vec<MarketEvent<T>>) -> (r: Vec<MarketEvent<T>>)
        ensures
            events_view(r@) == forwarded(old(self)@.local, events_view(events@)),
            final(self)@ == (SessionState {
                local: book_after_all(old(self)@.local, events_view(events@)),
                need_resub: old(self)@.need_resub || some_gap(
                    old(self)@.local,
                    events_view(events@),
                ),
                last_msg: old(self)@.last_msg,
            }),
    {
        let ghost all = events_view(events@);
        let ghost start = self@;
        let ghost mut done: int = 0;
        let mut rest = events;
        let mut i: usize = 0;
        proof {
            assert(all.take(0) =~= Seq::<EventView<T>>::empty());
            assert(events_view(rest@) =~= Seq::<EventView<T>>::empty() + all.skip(0));
        }
        while i < rest.len()
            invariant
                0 <= done <= all.len(),
                0 <= i <= rest@.len(),
                i == forwarded(start.local, all.take(done)).len(),
                rest@.len() == i + (all.len() - done),
                events_view(rest@) == forwarded(start.local, all.take(done)) + all.skip(done),
                self@ == (SessionState {
                    local: book_after_all(start.local, all.take(done)),
                    need_resub: start.need_resub || some_gap(start.local, all.take(done)),
                    last_msg: start.last_msg,
                }),
            decreases rest@.len() - i,
        {
            proof {
                assert(events_view(rest@)[i as int] == all.skip(done)[0]);
                assert(rest@[i as int]@ == all[done]);
                assert(all.take(done + 1).drop_last() =~= all.take(done));
                assert(all.take(done + 1).last() == all[done]);
            }
            let ghost before = rest@;
            let gap: bool = self.take_in(&rest[i]);
            if gap {
                rest.remove(i);
                self.need_resub = true;
                assert(events_view(rest@) =~= events_view(before).remove(i as int));
                assert(events_view(rest@) =~= forwarded(start.local, all.take(done + 1)) + all.skip(
                    done + 1,
                ));
            } else {
                i = i + 1;
                assert(events_view(rest@) =~= forwarded(start.local, all.take(done + 1)) + all.skip(
                    done + 1,
                ));
            }
            proof {
                done = done + 1;
            }
        }
        assert(all.take(done) =~= all);
        assert(events_view(rest@) =~= forwarded(start.local, all));
        rest
    }

    /// Is a new subscription due? If so the book is dropped, the subscription
    /// is made anew, and the gap is reported.
    pub fn take_resubscription(&mut self) -> (r: bool)
        ensures
            r == old(self)@.need_resub,
            final(self)@ == (if old(self)@.need_resub {
                SessionState { local: BookState::blank(), need_resub: false, ..old(self)@ }
            } else {
                old(self)@
            }),
    {
        if self.need_resub {
            self.local.discard();
            self.need_resub = false;
            true
        } else {
            false
        }
    }

    /// At a ping: a session that has been silent for too long ends.
    pub fn on_ping(&self, now: u64) -> (r: SessionAction<T>)
        ensures
            r == (if since_spec(now, self@.last_msg) > IDLE_TIMEOUT {
                SessionAction::<T>::Stop(StopReason::IdleTimeout)
            } else {
                SessionAction::<T>::Ping
            }),
    {
        if since(now, self.last_msg) > IDLE_TIMEOUT {
            SessionAction::Stop(StopReason::IdleTimeout)
        } else {
            SessionAction::Ping
        }
    }

    /// What the connection brought `now`: events to pass on, a ping to answer,
    /// or the end of the session.
    pub fn on_incoming(&mut self, now: u64, incoming: Incoming<T>) -> (r: SessionAction<T>)
        ensures
            match incoming {
                Incoming::Text(events) => {
                    &&& r matches SessionAction::Forward(out) && events_view(out@) == forwarded(
                        old(self)@.local,
                        events_view(events@),
                    )
                    &&& final(self)@ == (SessionState {
                        local: book_after_all(old(self)@.local, events_view(events@)),
                        need_resub: old(self)@.need_resub || some_gap(
                            old(self)@.local,
                            events_view(events@),
                        ),
                        last_msg: now,
                    })
                },
                Incoming::Ping => r == SessionAction::<T>::Pong && final(self)@ == (SessionState {
                    last_msg: now,
                    ..old(self)@
                }),
                Incoming::Close => r == SessionAction::<T>::Stop(StopReason::CloseFrame)
                    && final(self)@ == (SessionState { last_msg: now, ..old(self)@ }),
                Incoming::Other => r == SessionAction::<T>::Nothing && final(self)@
                    == (SessionState { last_msg: now, ..old(self)@ }),
                Incoming::Failed => r == SessionAction::<T>::Stop(StopReason::BadFrame)
                    && final(self)@ == old(self)@,
                Incoming::Ended => r == SessionAction::<T>::Stop(StopReason::Closed)
                    && final(self)@ == old(self)@,
                Incoming::TimedOut => r == SessionAction::<T>::Stop(StopReason::ReadTimeout)
                    && final(self)@ == old(self)@,
            },
    {
        match incoming {
            Incoming::Text(events) => {
                self.last_msg = now;
                SessionAction::Forward(self.on_events(events))
            },
            Incoming::Ping => {
                self.last_msg = now;
                SessionAction::Pong
            },
            Incoming::Close => {
                self.last_msg = now;
                SessionAction::Stop(StopReason::CloseFrame)
            },
            Incoming::Other => {
                self.last_msg = now;
                SessionAction::Nothing
            },
            Incoming::Failed => SessionAction::Stop(StopReason::BadFrame),
            Incoming::Ended => SessionAction::Stop(StopReason::Closed),
            Incoming::TimedOut => SessionAction::Stop(StopReason::ReadTimeout),
        }
    }
}

/// What a session reports first, and whether it goes on: it needs a tick size.
pub fn opening_event<T: Real>(tick: Result<T, String>) -> (r: (MarketEvent<T>, bool))
    ensures
        match tick {
            Ok(t) => r.0 == MarketEvent::TickSize(t) && r.1,
            Err(e) => r.0@ == EventView::<T>::TickSizeFailed(e@) && !r.1,
        },
{
    match tick {
        Ok(t) => (MarketEvent::TickSize(t), true),
        Err(e) => (MarketEvent::TickSizeFailed(e), false),
    }
}

/// How long to wait after a session, and how long after the next one if that
/// fails: a session that ends well starts over at a second, and the wait
/// doubles up to half a minute.
pub fn after_session(backoff: u64, ended_well: bool) -> (r: (u64, u64))
    ensures
        r.0 == (if ended_well {
            SECOND
        } else {
            backoff
        }),
        r.1 == (if 2 * r.0 > BACKOFF_LIMIT {
            BACKOFF_LIMIT as int
        } else {
            2 * r.0
        }),
{
    let wait: u64 = if ended_well {
        SECOND
    } else {
        backoff
    };
    let next: u64 = if wait > BACKOFF_LIMIT / 2 {
        BACKOFF_LIMIT
    } else {
        2 * wait
    };
    (wait, next)
}

/// A request to the exchange.
#[derive(Debug)]
pub struct WsRequest {
    pub channel: String,
    pub event: String,
    pub payload: String,
}

impl WsRequest {
    pub open spec fn says(
        self,
        channel: Seq<char>,
        event: Seq<char>,
        payload: Seq<char>,
    ) -> bool {
        &&& self.channel@ == channel
        &&& self.event@ == event
        &&& self.payload@ == payload
    }
}

/// The name of the 50-level book of a contract.
pub open spec fn obu_topic_spec(symbol: Seq<char>) -> Seq<char> {
    "ob."@ + symbol + ".50"@
}

pub fn obu_topic(symbol: &str) -> (r: String)
    ensures
        r@ == obu_topic_spec(symbol@),
{
    let mut s = "ob.".to_string();
    s.append(symbol);
    s.append(".50");
    s
}

/// What a session asks for first: the book, then the trades.
pub fn subscriptions(symbol: &str) -> (r: (WsRequest, WsRequest))
    ensures
        r.0.says("futures.obu"@, "subscribe"@, obu_topic_spec(symbol@)),
        r.1.says("futures.trades"@, "subscribe"@, symbol@),
{
    (
        WsRequest {
            channel: "futures.obu".to_string(),
            event: "subscribe".to_string(),
            payload: obu_topic(symbol),
        },
        WsRequest {
            channel: "futures.trades".to_string(),
            event: "subscribe".to_string(),
            payload: symbol.to_string(),
        },
    )
}

/// What a session asks for after a gap: the book is left, then asked for again.
pub fn resubscription(symbol: &str) -> (r: (WsRequest, WsRequest))
    ensures
        r.0.says("futures.obu"@, "unsubscribe"@, obu_topic_spec(symbol@)),
        r.1.says("futures.obu"@, "subscribe"@, obu_topic_spec(symbol@)),
{
    (
        WsRequest {
            channel: "futures.obu".to_string(),
            event: "unsubscribe".to_string(),
            payload: obu_topic(symbol),
        },
        WsRequest {
            channel: "futures.obu".to_string(),
            event: "subscribe".to_string(),
            payload: obu_topic(symbol),
        },
    )
}

/// Where the contract is described.
pub fn contract_url(rest_base: &str, contract: &str) -> (r: String)
    ensures
        r@ == rest_base@ + "/futures/usdt/contracts/"@ + contract@,
{
    let mut s = rest_base.to_string();
    s.append("/futures/usdt/contracts/");
    s.append(contract);
    s
}

} // verus!
