//! What updates do to the book, in real numbers.
use vstd::prelude::*;

#[allow(unused_imports)]
use crate::laws::factors::tiny;
#[allow(unused_imports)]
use crate::laws::flow::{first_at, unlisted};
#[allow(unused_imports)]
use crate::market::book::{
    lemma_position, position, prices_eq_spec, resting, trimmed, updated, BookApply, BookState, Level,
    TopView,
};
#[allow(unused_imports)]
use crate::number::{eps_spec, larger_spec, one_spec, zero_spec, Real};
#[allow(unused_imports)]
use crate::reals::{exact, lemma_constants, lemma_ops, size, Reading};
#[allow(unused_imports)]
use crate::signal::factors::DepthView;

verus! {

/// Prices are taken for one where they differ by a millionth of a millionth at
/// most, of one and the larger price together.
pub proof fn lemma_prices_eq<T: Real>(v: Reading<T>, a: T, b: T)
    requires
        exact(v),
    ensures
        prices_eq_spec(a, b) <==> size(v(a) - v(b)) <= tiny() * (1 as real + if size(v(a)) < size(
            v(b),
        ) {
            size(v(b))
        } else {
            size(v(a))
        }),
        prices_eq_spec(a, b) == prices_eq_spec(b, a),
        prices_eq_spec(a, a),
{
    lemma_prices(v, a, b);
    lemma_prices(v, b, a);
    lemma_prices(v, a, a);
    lemma_constants(v);
    let s = 1 as real + size(v(a));
    assert(tiny() * s >= 0 as real) by (nonlinear_arith)
        requires
            s >= 0 as real,
            tiny() > 0 as real,
    ;
}

proof fn lemma_prices<T: Real>(v: Reading<T>, a: T, b: T)
    requires
        exact(v),
    ensures
        prices_eq_spec(a, b) <==> size(v(a) - v(b)) <= tiny() * (1 as real + if size(v(a)) < size(
            v(b),
        ) {
            size(v(b))
        } else {
            size(v(a))
        }),
{
    lemma_constants(v);
    let (ma, mb) = (a.magnitude_spec(), b.magnitude_spec());
    lemma_ops(v, a, b);
    lemma_ops(v, b, b);
    lemma_ops(v, ma, mb);
    lemma_ops(v, ma, ma);
    lemma_ops(v, mb, mb);
    let m = larger_spec(ma, mb);
    lemma_ops(v, one_spec::<T>(), m);
    let near = one_spec::<T>().plus_spec(m);
    lemma_ops(v, eps_spec::<T>(), near);
    let d = a.minus_spec(b);
    lemma_ops(v, d, d);
    lemma_ops(v, d.magnitude_spec(), eps_spec::<T>().times_spec(near));
}

/// An update of a listed price gives it the new quantity, or takes the level
/// away where nothing is left; all other levels stay as they are.
pub proof fn lemma_update_listed<T: Real>(
    v: Reading<T>,
    side: Seq<Level<T>>,
    price: T,
    qty: T,
    j: int,
    k: int,
)
    requires
        exact(v),
        first_at(side, price, j),
        0 <= k < side.len(),
    ensures
        ({
            let after = updated(side, price, qty);
            &&& v(qty) > 0 as real ==> after.len() == side.len() && after[k] == if k == j {
                Level { price: side[j].price, qty }
            } else {
                side[k]
            }
            &&& v(qty) <= 0 as real ==> after.len() == side.len() - 1
            &&& v(qty) <= 0 as real && k < j ==> after[k] == side[k]
            &&& v(qty) <= 0 as real && k > j ==> after[k - 1] == side[k]
        }),
{
    lemma_constants(v);
    lemma_ops(v, qty, zero_spec::<T>());
    lemma_place_of(side, price, j);
}

/// An update of another price adds a level with it, if there is a quantity.
pub proof fn lemma_update_unlisted<T: Real>(
    v: Reading<T>,
    side: Seq<Level<T>>,
    price: T,
    qty: T,
)
    requires
        exact(v),
        unlisted(side, price),
    ensures
        v(qty) > 0 as real ==> updated(side, price, qty) == side.push(Level { price, qty }),
        v(qty) <= 0 as real ==> updated(side, price, qty) == side,
{
    lemma_constants(v);
    lemma_ops(v, zero_spec::<T>(), qty);
    lemma_position(side, price);
    if let Some(i) = position(side, price) {
        assert(!prices_eq_spec(side[i].price, price));
    }
}

proof fn lemma_place_of<T: Real>(side: Seq<Level<T>>, price: T, j: int)
    requires
        first_at(side, price, j),
    ensures
        position(side, price) == Some(j),
{
    lemma_position(side, price);
    match position(side, price) {
        Some(i) => {
            if i < j {
                assert(!prices_eq_spec(side[i].price, price));
            } else if j < i {
                assert(!prices_eq_spec(side[j].price, price));
            }
        },
        None => {
            assert(!prices_eq_spec(side[j].price, price));
        },
    }
}

/// Of a snapshot just the prices with a quantity come to rest, in their order.
/// Returns their places.
pub proof fn lemma_resting<T: Real>(v: Reading<T>, updates: Seq<(T, T)>) -> (places: Seq<int>)
    requires
        exact(v),
    ensures
        ({
            let levels = resting(updates);
            &&& crate::laws::labels::are_places(places, updates.len() as int)
            &&& places.len() == levels.len()
            &&& forall|j: int|
                0 <= j < places.len() ==> levels[j] == (Level {
                    price: updates[#[trigger] places[j]].0,
                    qty: updates[places[j]].1,
                })
            &&& forall|i: int|
                0 <= i < updates.len() ==> (v((#[trigger] updates[i]).1) > 0 as real
                    <==> places.contains(i))
        }),
    decreases updates.len(),
{
    lemma_constants(v);
    if updates.len() == 0 {
        Seq::empty()
    } else {
        let front = updates.drop_last();
        let before = lemma_resting(v, front);
        let last = updates.len() - 1;
        lemma_ops(v, zero_spec::<T>(), updates.last().1);
        let out = if v(updates.last().1) > 0 as real {
            before.push(last)
        } else {
            before
        };
        assert forall|i: int| 0 <= i < updates.len() implies (v((#[trigger] updates[i]).1)
            > 0 as real <==> out.contains(i)) by {
            if i < last {
                assert(front[i] == updates[i]);
                if before.contains(i) {
                    let j = choose|j: int| 0 <= j < before.len() && before[j] == i;
                    assert(out[j] == i);
                }
                if out.contains(i) {
                    let j = choose|j: int| 0 <= j < out.len() && out[j] == i;
                    assert(before[j] == i);
                }
            } else {
                if v(updates[i].1) > 0 as real {
                    assert(out[before.len() as int] == i);
                } else if out.contains(i) {
                    let j = choose|j: int| 0 <= j < out.len() && out[j] == i;
                    assert(before[j] < last);
                }
            }
        }
        out
    }
}

/// An update is taken in exactly where it begins with the number after the
/// last one, and the book then stands at the number that it ends with. Any other
/// update drops a book that is in use.
pub proof fn lemma_follows<T: Real>(
    book: BookState<T>,
    bids: Seq<(T, T)>,
    asks: Seq<(T, T)>,
    start_u: u64,
    end_u: u64,
    last: u64,
)
    requires
        book.last_u == Some(last),
        book.valid,
    ensures
        ({
            let (after, applied) = book.incremental(bids, asks, start_u, end_u);
            &&& start_u - last == 1 ==> applied == BookApply::Applied && after.last_u == Some(end_u)
                && after.valid
            &&& start_u - last != 1 ==> applied == BookApply::Gap && !after.valid && after.bids.len()
                == 0 && after.asks.len() == 0
        }),
{
}

/// The best levels are those at the front of each side.
pub proof fn lemma_top<T: Real>(book: BookState<T>, i: int)
    requires
        0 <= i < 10,
    ensures
        book.top() is Some <==> book.bids.len() >= 10 && book.asks.len() >= 10,
        book.top() matches Some(top) ==> top.bids.len() == 10 && top.asks.len() == 10
            && top.bids[i] == book.bids[i] && top.asks[i] == book.asks[i],
{
}

/// A side keeps its best fifty levels.
pub proof fn lemma_trimmed<T>(side: Seq<Level<T>>, i: int)
    ensures
        trimmed(side).len() == if side.len() < 50 {
            side.len() as int
        } else {
            50
        },
        0 <= i < trimmed(side).len() ==> trimmed(side)[i] == side[i],
{
}

/// The depth of a book is the quantities of its levels.
pub proof fn lemma_depth<T: Real>(top: TopView<T>, i: int)
    requires
        0 <= i < top.bids.len(),
        0 <= i < top.asks.len(),
    ensures
        DepthView::of_top(top).bid[i] == top.bids[i].qty,
        DepthView::of_top(top).ask[i] == top.asks[i].qty,
{
}

} // verus!
