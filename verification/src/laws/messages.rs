//! What messages of the exchange say, and what is passed on of them.
use vstd::prelude::*;

#[allow(unused_imports)]
use crate::decimal::tick_size_spec;
#[allow(unused_imports)]
use crate::laws::labels::are_places;
#[allow(unused_imports)]
use crate::market::book::BookState;
#[allow(unused_imports)]
use crate::market::gate::{
    book_after_all, forwarded, leaves_gap, parse_levels_spec, parse_obu_spec, parse_ws_spec, reads,
    rows_of, trades_of, EventView, ObuResult, TradeRow, WsEnvelope,
};
#[allow(unused_imports)]
use crate::number::{zero_spec, Real};
#[allow(unused_imports)]
use crate::reals::{exact, lemma_constants, lemma_ops, Reading};

verus! {

/// Of the rows of a book just those are read whose price and quantity are both
/// numbers, in their order. Returns their places.
pub proof fn lemma_levels<T>(rows: Seq<(Option<T>, Option<T>)>) -> (places: Seq<int>)
    ensures
        ({
            let read = parse_levels_spec(rows);
            &&& are_places(places, rows.len() as int)
            &&& places.len() == read.len()
            &&& forall|j: int|
                0 <= j < places.len() ==> rows[#[trigger] places[j]] == (
                    Some(read[j].0),
                    Some(read[j].1),
                )
            &&& forall|i: int|
                0 <= i < rows.len() && (#[trigger] rows[i]).0 is Some && rows[i].1 is Some
                    ==> places.contains(i)
        }),
    decreases rows.len(),
{
    if rows.len() == 0 {
        Seq::empty()
    } else {
        let front = rows.drop_last();
        let before = lemma_levels(front);
        let last = rows.len() - 1;
        let out = if rows.last().0 is Some && rows.last().1 is Some {
            before.push(last)
        } else {
            before
        };
        let read = parse_levels_spec(rows);
        assert forall|j: int| 0 <= j < out.len() implies rows[#[trigger] out[j]] == (
            Some(read[j].0),
            Some(read[j].1),
        ) by {
            if j < before.len() {
                assert(before[j] == out[j]);
                assert(front[before[j]] == rows[before[j]]);
            }
        }
        assert forall|i: int|
            0 <= i < rows.len() && (#[trigger] rows[i]).0 is Some && rows[i].1
                is Some implies out.contains(i) by {
            if i < last {
                assert(front[i] == rows[i]);
                let j = choose|j: int| 0 <= j < before.len() && before[j] == i;
                assert(out[j] == i);
            } else {
                assert(out[before.len() as int] == i);
            }
        }
        out
    }
}

/// A full book replaces the book, any other update amends it; the rows marked
/// `b` are the bids, those marked `a` the asks. An update without its numbers
/// says nothing.
pub proof fn lemma_book_message<T: Real>(r: ObuResult<T>)
    ensures
        match parse_obu_spec(r) {
            Some(EventView::DepthSnapshot { bids, asks, u, exch_time_ms }) => {
                &&& r.full == Some(true)
                &&& bids == parse_levels_spec(r.b@)
                &&& asks == parse_levels_spec(r.a@)
                &&& r.end_u == Some(u)
                &&& r.t == Some(exch_time_ms) || (r.t is None && exch_time_ms == 0)
            },
            Some(EventView::DepthIncremental { bids, asks, start_u, end_u, exch_time_ms }) => {
                &&& r.full != Some(true)
                &&& bids == parse_levels_spec(r.b@)
                &&& asks == parse_levels_spec(r.a@)
                &&& r.start_u == Some(start_u)
                &&& r.end_u == Some(end_u)
                &&& r.t == Some(exch_time_ms) || (r.t is None && exch_time_ms == 0)
            },
            Some(_) => false,
            None => r.end_u is None || (r.full != Some(true) && r.start_u is None),
        },
{
}

/// Each row with a price and a size gives a trade with that id, price and size,
/// in the order of the rows. Returns the places of those rows.
pub proof fn lemma_trade_rows<T: Real>(rows: Seq<TradeRow<T>>) -> (places: Seq<int>)
    ensures
        ({
            let trades = trades_of(rows);
            &&& are_places(places, rows.len() as int)
            &&& places.len() == trades.len()
            &&& forall|j: int|
                0 <= j < places.len() ==> {
                    let row = rows[#[trigger] places[j]];
                    &&& trades[j] is Trade
                    &&& trades[j]->Trade_0.id == row.id
                    &&& row.price == Some(trades[j]->Trade_0.price)
                    &&& row.size == Some(trades[j]->Trade_0.size)
                    &&& trades[j]->Trade_0.is_internal == row.is_internal
                }
            &&& forall|i: int|
                0 <= i < rows.len() && (#[trigger] rows[i]).price is Some && rows[i].size is Some
                    ==> places.contains(i)
        }),
    decreases rows.len(),
{
    if rows.len() == 0 {
        Seq::empty()
    } else {
        let front = rows.drop_last();
        let before = lemma_trade_rows(front);
        let last = rows.len() - 1;
        let out = if rows.last().price is Some && rows.last().size is Some {
            before.push(last)
        } else {
            before
        };
        let trades = trades_of(rows);
        assert forall|j: int| 0 <= j < out.len() implies {
            let row = rows[#[trigger] out[j]];
            &&& trades[j] is Trade
            &&& trades[j]->Trade_0.id == row.id
            &&& row.price == Some(trades[j]->Trade_0.price)
            &&& row.size == Some(trades[j]->Trade_0.size)
            &&& trades[j]->Trade_0.is_internal == row.is_internal
        } by {
            if j < before.len() {
                assert(before[j] == out[j]);
                assert(front[before[j]] == rows[before[j]]);
            }
        }
        assert forall|i: int|
            0 <= i < rows.len() && (#[trigger] rows[i]).price is Some && rows[i].size
                is Some implies out.contains(i) by {
            if i < last {
                assert(front[i] == rows[i]);
                let j = choose|j: int| 0 <= j < before.len() && before[j] == i;
                assert(out[j] == i);
            } else {
                assert(out[before.len() as int] == i);
            }
        }
        out
    }
}

/// Only an update says anything: of the book it says one thing at most, of the
/// trades one for each readable row.
pub proof fn lemma_message<T: Real>(env: WsEnvelope<T>)
    ensures
        ({
            let events = parse_ws_spec(Some(env));
            &&& !reads(env.event, "update"@) ==> events.len() == 0
            &&& env.result is None ==> events.len() == 0
            &&& reads(env.channel, "futures.obu"@) ==> events.len() <= 1
            &&& reads(env.event, "update"@) && env.result is Some && reads(
                env.channel,
                "futures.obu"@,
            ) ==> (events.len() == 1 <==> env.result->0.obu is Some && parse_obu_spec(
                env.result->0.obu->0,
            ) is Some)
            &&& events.len() == 1 && reads(env.channel, "futures.obu"@) ==> Some(events[0])
                == parse_obu_spec(env.result->0.obu->0)
            &&& reads(env.event, "update"@) && env.result is Some && reads(
                env.channel,
                "futures.trades"@,
            ) ==> events == trades_of(rows_of(env.result->0.trades))
        }),
        parse_ws_spec(None::<WsEnvelope<T>>).len() == 0,
{
    reveal_strlit("futures.obu");
    reveal_strlit("futures.trades");
    assert("futures.obu"@.len() == 11);
    assert("futures.trades"@.len() == 14);
}

/// Everything is passed on, in its order, but the updates that leave a gap.
/// Returns the places of what is passed on.
pub proof fn lemma_forwarded<T: Real>(
    book: BookState<T>,
    events: Seq<EventView<T>>,
) -> (places: Seq<int>)
    ensures
        ({
            let out = forwarded(book, events);
            &&& are_places(places, events.len() as int)
            &&& places.len() == out.len()
            &&& forall|j: int| 0 <= j < places.len() ==> out[j] == events[#[trigger] places[j]]
            &&& forall|i: int|
                0 <= i < events.len() ==> (places.contains(i) <==> !leaves_gap(
                    book_after_all(book, events.take(i)),
                    #[trigger] events[i],
                ))
        }),
    decreases events.len(),
{
    if events.len() == 0 {
        Seq::empty()
    } else {
        let front = events.drop_last();
        let before = lemma_forwarded(book, front);
        let last = events.len() - 1;
        assert(events.take(last) =~= front);
        let out = if leaves_gap(book_after_all(book, front), events.last()) {
            before
        } else {
            before.push(last)
        };
        let passed = forwarded(book, events);
        assert forall|j: int| 0 <= j < out.len() implies passed[j] == events[#[trigger] out[j]] by {
            if j < before.len() {
                assert(before[j] == out[j]);
                assert(front[before[j]] == events[before[j]]);
            }
        }
        assert forall|i: int| 0 <= i < events.len() implies (out.contains(i) <==> !leaves_gap(
            book_after_all(book, events.take(i)),
            #[trigger] events[i],
        )) by {
            if i < last {
                assert(front[i] == events[i]);
                assert(front.take(i) =~= events.take(i));
                if before.contains(i) {
                    let j = choose|j: int| 0 <= j < before.len() && before[j] == i;
                    assert(out[j] == i);
                }
                if out.contains(i) {
                    let j = choose|j: int| 0 <= j < out.len() && out[j] == i;
                    assert(before[j] == i);
                }
            } else {
                if !leaves_gap(book_after_all(book, front), events.last()) {
                    assert(out[before.len() as int] == i);
                } else if out.contains(i) {
                    let j = choose|j: int| 0 <= j < out.len() && out[j] == i;
                    assert(before[j] < last);
                }
            }
        }
        out
    }
}

/// A tick size is a decimal above zero; there is none in any other.
pub proof fn lemma_tick_size<T: Real>(v: Reading<T>, mantissa: i128, scale: u32)
    requires
        exact(v),
    ensures
        ({
            let x = T::from_decimal_spec(mantissa, scale);
            &&& v(x) > 0 as real ==> tick_size_spec::<T>(Some((mantissa, scale))) == Some(x)
            &&& v(x) <= 0 as real ==> tick_size_spec::<T>(Some((mantissa, scale))) is None
        }),
        tick_size_spec::<T>(None) is None,
{
    lemma_constants(v);
    lemma_ops(v, zero_spec::<T>(), T::from_decimal_spec(mantissa, scale));
}

} // verus!
