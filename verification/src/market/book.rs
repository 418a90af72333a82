//! The local order book, kept up to date from numbered updates.
use vstd::prelude::*;

pub use crate::decimal::parse_tick_size;

use crate::number::{eps, larger, one, zero, Real};
#[allow(unused_imports)]
use crate::number::{eps_spec, larger_spec, one_spec, zero_spec};

verus! {

/// Levels that are kept on each side.
pub const BOOK_LEVELS: usize = 50;

/// Levels that the factors look at on each side.
pub const MODEL_LEVELS: usize = 10;

/// A price and the quantity that rests there.
#[derive(Clone, Copy, Debug, PartialEq)]
pub struct Level<T> {
    pub price: T,
    pub qty: T,
}

impl<T: Real> Level<T> {
    pub fn new(price: T, qty: T) -> (r: Self)
        ensures
            r == (Level { price, qty }),
    {
        Level { price, qty }
    }
}

/// What an update did to the book.
#[derive(Clone, Copy, Debug, PartialEq, Eq, Structural)]
pub enum BookApply {
    Applied,
    Replaced,
    Gap,
    Ignored,
}

/// What the book holds. Each side is listed with its best price first.
#[verifier::ext_equal]
pub struct BookState<T> {
    pub bids: Seq<Level<T>>,
    pub asks: Seq<Level<T>>,
    pub last_u: Option<u64>,
    pub valid: bool,
}

/// Two prices are taken for one where they differ by rounding only.
pub open spec fn prices_eq_spec<T: Real>(a: T, b: T) -> bool {
    a.minus_spec(b).magnitude_spec().at_most_spec(
        eps_spec::<T>().times_spec(
            one_spec::<T>().plus_spec(larger_spec(a.magnitude_spec(), b.magnitude_spec())),
        ),
    )
}

pub fn prices_eq<T: Real>(a: T, b: T) -> (r: bool)
    ensures
        r == prices_eq_spec(a, b),
{
    a.minus(b).magnitude().at_most(
        eps::<T>().times(one::<T>().plus(larger(a.magnitude(), b.magnitude()))),
    )
}

/// `a` comes before `b` on its side: bids fall, asks rise.
pub open spec fn ahead<T: Real>(a: Level<T>, b: Level<T>, bids: bool) -> bool {
    if bids {
        b.price.rank_spec() < a.price.rank_spec()
    } else {
        a.price.rank_spec() < b.price.rank_spec()
    }
}

/// The best price comes first.
pub open spec fn ordered<T: Real>(side: Seq<Level<T>>, bids: bool) -> bool {
    forall|i: int, j: int| 0 <= i < j < side.len() ==> !ahead(#[trigger] side[j], #[trigger] side[i], bids)
}

/// `l` put behind the last level that it does not come before.
pub open spec fn placed<T: Real>(side: Seq<Level<T>>, l: Level<T>, bids: bool) -> Seq<Level<T>>
    decreases side.len(),
{
    if side.len() == 0 || !ahead(l, side.last(), bids) {
        side.push(l)
    } else {
        placed(side.drop_last(), l, bids).push(side.last())
    }
}

/// The levels with the best price first; levels of one price keep their order.
pub open spec fn sorted<T: Real>(side: Seq<Level<T>>, bids: bool) -> Seq<Level<T>>
    decreases side.len(),
{
    if side.len() == 0 {
        side
    } else {
        placed(sorted(side.drop_last(), bids), side.last(), bids)
    }
}

/// The first `BOOK_LEVELS` levels.
pub open spec fn trimmed<T>(side: Seq<Level<T>>) -> Seq<Level<T>> {
    if side.len() > BOOK_LEVELS {
        side.take(BOOK_LEVELS as int)
    } else {
        side
    }
}

/// The updates with a quantity above zero, as levels.
pub open spec fn resting<T: Real>(updates: Seq<(T, T)>) -> Seq<Level<T>>
    decreases updates.len(),
{
    if updates.len() == 0 {
        Seq::empty()
    } else {
        let rest = resting(updates.drop_last());
        let (price, qty) = updates.last();
        if zero_spec::<T>().below_spec(qty) {
            rest.push(Level { price, qty })
        } else {
            rest
        }
    }
}

/// One side of a snapshot.
pub open spec fn normalized<T: Real>(updates: Seq<(T, T)>, bids: bool) -> Seq<Level<T>> {
    trimmed(sorted(resting(updates), bids))
}

/// Where a price stands first, if it does.
pub open spec fn position<T: Real>(side: Seq<Level<T>>, price: T) -> Option<int>
    decreases side.len(),
{
    if side.len() == 0 {
        None
    } else {
        match position(side.drop_last(), price) {
            Some(i) => Some(i),
            None => if prices_eq_spec(side.last().price, price) {
                Some(side.len() - 1)
            } else {
                None
            },
        }
    }
}

/// One update: a price that is there gets the new quantity, or goes where that
/// is not above zero; another price joins at the end where it is above zero.
pub open spec fn updated<T: Real>(side: Seq<Level<T>>, price: T, qty: T) -> Seq<Level<T>> {
    match position(side, price) {
        Some(i) => if qty.at_most_spec(zero_spec()) {
            side.remove(i)
        } else {
            side.update(i, Level { price: side[i].price, qty })
        },
        None => if zero_spec::<T>().below_spec(qty) {
            side.push(Level { price, qty })
        } else {
            side
        },
    }
}

/// The updates, one after another.
pub open spec fn all_updated<T: Real>(side: Seq<Level<T>>, updates: Seq<(T, T)>) -> Seq<Level<T>>
    decreases updates.len(),
{
    if updates.len() == 0 {
        side
    } else {
        updated(all_updated(side, updates.drop_last()), updates.last().0, updates.last().1)
    }
}

/// One side after an incremental update.
pub open spec fn amended<T: Real>(
    side: Seq<Level<T>>,
    updates: Seq<(T, T)>,
    bids: bool,
) -> Seq<Level<T>> {
    trimmed(sorted(all_updated(side, updates), bids))
}

impl<T: Real> BookState<T> {
    /// Nothing is known of the book.
    pub open spec fn blank() -> Self {
        BookState { bids: Seq::empty(), asks: Seq::empty(), last_u: None, valid: false }
    }

    /// Each side is in order and of bounded length, a book in use has a number,
    /// and a book out of use holds nothing.
    pub open spec fn wf(self) -> bool {
        &&& ordered(self.bids, true)
        &&& ordered(self.asks, false)
        &&& self.bids.len() <= BOOK_LEVELS
        &&& self.asks.len() <= BOOK_LEVELS
        &&& self.valid ==> self.last_u is Some
        &&& !self.valid ==> self =~= Self::blank()
    }

    pub open spec fn complete(self) -> bool {
        self.bids.len() >= MODEL_LEVELS && self.asks.len() >= MODEL_LEVELS
    }

    /// In use, with enough levels for the factors.
    pub open spec fn usable(self) -> bool {
        self.valid && self.complete()
    }

    /// The best levels of both sides, where there are enough.
    pub open spec fn top(self) -> Option<TopView<T>> {
        if self.complete() {
            Some(
                TopView {
                    bids: self.bids.take(MODEL_LEVELS as int),
                    asks: self.asks.take(MODEL_LEVELS as int),
                },
            )
        } else {
            None
        }
    }

    /// A snapshot replaces everything.
    pub open spec fn snapshot(bids: Seq<(T, T)>, asks: Seq<(T, T)>, u: u64) -> Self {
        BookState {
            bids: normalized(bids, true),
            asks: normalized(asks, false),
            last_u: Some(u),
            valid: true,
        }
    }

    /// What an incremental update with the numbers `start_u` to `end_u` does:
    /// a book out of use ignores it, one that it does not follow is dropped,
    /// and one that it follows takes it in.
    pub open spec fn incremental(
        self,
        bids: Seq<(T, T)>,
        asks: Seq<(T, T)>,
        start_u: u64,
        end_u: u64,
    ) -> (Self, BookApply) {
        if !self.valid {
            (self, BookApply::Ignored)
        } else if self.last_u is None || start_u != self.last_u->0 + 1 {
            (Self::blank(), BookApply::Gap)
        } else {
            (
                BookState {
                    bids: amended(self.bids, bids, true),
                    asks: amended(self.asks, asks, false),
                    last_u: Some(end_u),
                    valid: true,
                },
                BookApply::Applied,
            )
        }
    }

    /// After a snapshot the book is in order.
    pub proof fn lemma_snapshot_wf(bids: Seq<(T, T)>, asks: Seq<(T, T)>, u: u64)
        ensures
            Self::snapshot(bids, asks, u).wf(),
    {
        lemma_sorted(resting(bids), true);
        lemma_sorted(resting(asks), false);
    }

    /// An incremental update keeps the book in order.
    pub proof fn lemma_incremental_wf(
        self,
        bids: Seq<(T, T)>,
        asks: Seq<(T, T)>,
        start_u: u64,
        end_u: u64,
    )
        requires
            self.wf(),
        ensures
            self.incremental(bids, asks, start_u, end_u).0.wf(),
    {
        lemma_sorted(all_updated(self.bids, bids), true);
        lemma_sorted(all_updated(self.asks, asks), false);
    }

    /// A gap leaves nothing behind, and updates are ignored from then on until
    /// a snapshot comes.
    pub proof fn lemma_gap_until_snapshot(
        self,
        bids: Seq<(T, T)>,
        asks: Seq<(T, T)>,
        start_u: u64,
        end_u: u64,
        later_bids: Seq<(T, T)>,
        later_asks: Seq<(T, T)>,
        later_start_u: u64,
        later_end_u: u64,
    )
        requires
            self.incremental(bids, asks, start_u, end_u).1 == BookApply::Gap,
        ensures
            ({
                let after = self.incremental(bids, asks, start_u, end_u).0;
                let (later, applied) = after.incremental(
                    later_bids,
                    later_asks,
                    later_start_u,
                    later_end_u,
                );
                &&& after == Self::blank()
                &&& after.top() is None
                &&& applied == BookApply::Ignored
                &&& later == after
            }),
    {
    }
}

/// Putting a level in keeps the order, and adds that level and nothing else.
pub proof fn lemma_placed<T: Real>(side: Seq<Level<T>>, l: Level<T>, bids: bool)
    requires
        ordered(side, bids),
    ensures
        ordered(placed(side, l, bids), bids),
        placed(side, l, bids).to_multiset() == side.to_multiset().insert(l),
        placed(side, l, bids).len() == side.len() + 1,
    decreases side.len(),
{
    broadcast use vstd::seq_lib::group_to_multiset_ensures;

    if side.len() == 0 {
    } else if !ahead(l, side.last(), bids) {
        let r = side.push(l);
        assert forall|i: int, j: int| 0 <= i < j < r.len() implies !ahead(
            #[trigger] r[j],
            #[trigger] r[i],
            bids,
        ) by {
            if j == side.len() && i < side.len() - 1 {
                assert(!ahead(side[side.len() - 1], side[i], bids));
            }
        }
    } else {
        let front = side.drop_last();
        lemma_placed(front, l, bids);
        let inner = placed(front, l, bids);
        let r = inner.push(side.last());
        assert(side =~= front.push(side.last()));
        assert forall|i: int| 0 <= i < inner.len() implies !ahead(
            side.last(),
            #[trigger] inner[i],
            bids,
        ) by {
            assert(inner.to_multiset().contains(inner[i]));
            if inner[i] != l {
                assert(front.to_multiset().contains(inner[i]));
                let k = choose|k: int| 0 <= k < front.len() && front[k] == inner[i];
                assert(!ahead(side[side.len() - 1], side[k], bids));
            }
        }
        assert(r.to_multiset() =~= side.to_multiset().insert(l));
    }
}

/// Sorting puts the best price first, and neither adds a level nor drops one.
pub proof fn lemma_sorted<T: Real>(side: Seq<Level<T>>, bids: bool)
    ensures
        ordered(sorted(side, bids), bids),
        sorted(side, bids).to_multiset() == side.to_multiset(),
        sorted(side, bids).len() == side.len(),
    decreases side.len(),
{
    broadcast use vstd::seq_lib::group_to_multiset_ensures;

    if side.len() > 0 {
        lemma_sorted(side.drop_last(), bids);
        lemma_placed(sorted(side.drop_last(), bids), side.last(), bids);
        assert(side =~= side.drop_last().push(side.last()));
    }
}

/// All quantities of a side are above zero.
pub open spec fn above_zero<T: Real>(side: Seq<Level<T>>) -> bool {
    forall|i: int| 0 <= i < side.len() ==> zero_spec::<T>().below_spec((#[trigger] side[i]).qty)
}

/// Two levels have prices that are not taken for one.
pub open spec fn differ<T: Real>(a: Level<T>, b: Level<T>) -> bool {
    !prices_eq_spec(a.price, b.price) && !prices_eq_spec(b.price, a.price)
}

/// No two levels of a side have prices that are taken for one.
pub open spec fn apart<T: Real>(side: Seq<Level<T>>) -> bool {
    forall|i: int, j: int|
        0 <= i < j < side.len() ==> differ(#[trigger] side[i], #[trigger] side[j])
}

/// Does it not matter in which order two prices of the type are compared?
pub open spec fn compares_alike<T: Real>() -> bool {
    forall|a: T, b: T| #[trigger] prices_eq_spec(a, b) ==> prices_eq_spec(b, a)
}

/// Is each quantity of the updates a number: above zero or not?
pub open spec fn amounts<T: Real>(updates: Seq<(T, T)>) -> bool {
    forall|i: int|
        0 <= i < updates.len() ==> (#[trigger] updates[i]).1.at_most_spec(zero_spec())
            || zero_spec::<T>().below_spec(updates[i].1)
}

impl<T: Real> BookState<T> {
    /// Every level rests with a quantity above zero, and none is listed twice.
    pub open spec fn sound(self) -> bool {
        above_zero(self.bids) && above_zero(self.asks) && apart(self.bids) && apart(self.asks)
    }

    /// After a snapshot that lists no price twice every level rests with a
    /// quantity above zero, and none is listed twice.
    pub proof fn lemma_snapshot_sound(bids: Seq<(T, T)>, asks: Seq<(T, T)>, u: u64)
        requires
            apart(resting(bids)),
            apart(resting(asks)),
        ensures
            Self::snapshot(bids, asks, u).sound(),
    {
        lemma_resting_above_zero(bids);
        lemma_resting_above_zero(asks);
        lemma_sorted_sound(resting(bids), true);
        lemma_sorted_sound(resting(asks), false);
    }

    /// An incremental update keeps it so.
    pub proof fn lemma_incremental_sound(
        self,
        bids: Seq<(T, T)>,
        asks: Seq<(T, T)>,
        start_u: u64,
        end_u: u64,
    )
        requires
            self.sound(),
            compares_alike::<T>(),
            amounts(bids),
            amounts(asks),
        ensures
            self.incremental(bids, asks, start_u, end_u).0.sound(),
    {
        lemma_all_updated_sound(self.bids, bids);
        lemma_all_updated_sound(self.asks, asks);
        lemma_sorted_sound(all_updated(self.bids, bids), true);
        lemma_sorted_sound(all_updated(self.asks, asks), false);
    }
}

/// What is taken from a snapshot rests with a quantity above zero.
proof fn lemma_resting_above_zero<T: Real>(updates: Seq<(T, T)>)
    ensures
        above_zero(resting(updates)),
    decreases updates.len(),
{
    if updates.len() > 0 {
        lemma_resting_above_zero(updates.drop_last());
    }
}

/// What is there after a level was put in is that level or was there before.
proof fn lemma_placed_from<T: Real>(side: Seq<Level<T>>, l: Level<T>, bids: bool, i: int)
    requires
        0 <= i < placed(side, l, bids).len(),
    ensures
        placed(side, l, bids)[i] == l || side.contains(placed(side, l, bids)[i]),
    decreases side.len(),
{
    let r = placed(side, l, bids);
    if side.len() == 0 || !ahead(l, side.last(), bids) {
        if i < side.len() {
            assert(side[i] == r[i]);
        }
    } else if i < r.len() - 1 {
        let front = side.drop_last();
        lemma_placed_from(front, l, bids, i);
        if front.contains(r[i]) {
            let k = choose|k: int| 0 <= k < front.len() && front[k] == r[i];
            assert(side[k] == r[i]);
        }
    } else {
        assert(side[side.len() - 1] == r[i]);
    }
}

/// A level whose price differs from all others keeps a side apart.
proof fn lemma_placed_apart<T: Real>(side: Seq<Level<T>>, l: Level<T>, bids: bool)
    requires
        apart(side),
        forall|k: int| 0 <= k < side.len() ==> differ(#[trigger] side[k], l),
    ensures
        apart(placed(side, l, bids)),
    decreases side.len(),
{
    if side.len() > 0 && ahead(l, side.last(), bids) {
        let front = side.drop_last();
        assert forall|k: int| 0 <= k < front.len() implies differ(#[trigger] front[k], l) by {
            assert(differ(side[k], l));
        }
        lemma_placed_apart(front, l, bids);
        let inner = placed(front, l, bids);
        assert forall|i: int| 0 <= i < inner.len() implies differ(
            #[trigger] inner[i],
            side.last(),
        ) by {
            lemma_placed_from(front, l, bids, i);
            if inner[i] == l {
                assert(differ(side[side.len() - 1], l));
            } else {
                let k = choose|k: int| 0 <= k < front.len() && front[k] == inner[i];
                assert(differ(side[k], side[side.len() - 1]));
            }
        }
    }
}

/// Sorting only moves levels.
proof fn lemma_sorted_from<T: Real>(side: Seq<Level<T>>, bids: bool, i: int)
    requires
        0 <= i < sorted(side, bids).len(),
    ensures
        side.contains(sorted(side, bids)[i]),
    decreases side.len(),
{
    if side.len() > 0 {
        let front = side.drop_last();
        let before = sorted(front, bids);
        let l = sorted(side, bids)[i];
        lemma_placed_from(before, side.last(), bids, i);
        if before.contains(l) {
            let k = choose|k: int| 0 <= k < before.len() && before[k] == l;
            lemma_sorted_from(front, bids, k);
            let m = choose|m: int| 0 <= m < front.len() && front[m] == l;
            assert(side[m] == l);
        } else {
            assert(side[side.len() - 1] == l);
        }
    }
}

proof fn lemma_sorted_apart<T: Real>(side: Seq<Level<T>>, bids: bool)
    requires
        apart(side),
    ensures
        apart(sorted(side, bids)),
    decreases side.len(),
{
    if side.len() > 0 {
        let front = side.drop_last();
        let before = sorted(front, bids);
        lemma_sorted_apart(front, bids);
        assert forall|k: int| 0 <= k < before.len() implies differ(
            #[trigger] before[k],
            side.last(),
        ) by {
            lemma_sorted_from(front, bids, k);
            let m = choose|m: int| 0 <= m < front.len() && front[m] == before[k];
            assert(differ(side[m], side[side.len() - 1]));
        }
        lemma_placed_apart(before, side.last(), bids);
    }
}

/// Sorting and trimming keep quantities above zero and prices apart.
proof fn lemma_sorted_sound<T: Real>(side: Seq<Level<T>>, bids: bool)
    requires
        above_zero(side),
        apart(side),
    ensures
        above_zero(trimmed(sorted(side, bids))),
        apart(trimmed(sorted(side, bids))),
{
    let r = sorted(side, bids);
    lemma_sorted_apart(side, bids);
    assert forall|i: int| 0 <= i < r.len() implies zero_spec::<T>().below_spec(
        (#[trigger] r[i]).qty,
    ) by {
        lemma_sorted_from(side, bids, i);
        let k = choose|k: int| 0 <= k < side.len() && side[k] == r[i];
        assert(zero_spec::<T>().below_spec(side[k].qty));
    }
}

/// So does an update.
proof fn lemma_updated_sound<T: Real>(side: Seq<Level<T>>, price: T, qty: T)
    requires
        above_zero(side),
        apart(side),
        compares_alike::<T>(),
        qty.at_most_spec(zero_spec()) || zero_spec::<T>().below_spec(qty),
    ensures
        above_zero(updated(side, price, qty)),
        apart(updated(side, price, qty)),
{
    lemma_position(side, price);
    if position(side, price) is None && zero_spec::<T>().below_spec(qty) {
        let l = Level { price, qty };
        assert forall|k: int| 0 <= k < side.len() implies differ(#[trigger] side[k], l) by {
            if prices_eq_spec(price, side[k].price) {
                assert(prices_eq_spec(side[k].price, price));
            }
        }
    }
}

proof fn lemma_all_updated_sound<T: Real>(side: Seq<Level<T>>, updates: Seq<(T, T)>)
    requires
        above_zero(side),
        apart(side),
        compares_alike::<T>(),
        amounts(updates),
    ensures
        above_zero(all_updated(side, updates)),
        apart(all_updated(side, updates)),
    decreases updates.len(),
{
    if updates.len() > 0 {
        let front = updates.drop_last();
        assert forall|i: int| 0 <= i < front.len() implies (#[trigger] front[i]).1.at_most_spec(
            zero_spec(),
        ) || zero_spec::<T>().below_spec(front[i].1) by {
            assert(updates[i] == front[i]);
        }
        lemma_all_updated_sound(side, front);
        let u = updates[updates.len() - 1];
        lemma_updated_sound(all_updated(side, front), u.0, u.1);
    }
}

/// A price has a place exactly where some level has that price, and the place
/// is the first such level.
pub proof fn lemma_position<T: Real>(side: Seq<Level<T>>, price: T)
    ensures
        match position(side, price) {
            Some(i) => {
                &&& 0 <= i < side.len()
                &&& prices_eq_spec(side[i].price, price)
                &&& forall|k: int| 0 <= k < i ==> !prices_eq_spec((#[trigger] side[k]).price, price)
            },
            None => forall|k: int|
                0 <= k < side.len() ==> !prices_eq_spec((#[trigger] side[k]).price, price),
        },
    decreases side.len(),
{
    if side.len() > 0 {
        let front = side.drop_last();
        lemma_position(front, price);
        assert forall|k: int| 0 <= k < front.len() implies #[trigger] side[k] == front[k] by {}
        match position(front, price) {
            Some(i) => {
                assert(side[i] == front[i]);
            },
            None => {
                assert forall|k: int| 0 <= k < side.len() - 1 implies !prices_eq_spec(
                    (#[trigger] side[k]).price,
                    price,
                ) by {
                    assert(side[k] == front[k]);
                }
            },
        }
    }
}

/// The first level with a price is where the price has its place.
proof fn lemma_position_is<T: Real>(side: Seq<Level<T>>, price: T, i: int)
    requires
        0 <= i <= side.len(),
        forall|k: int| 0 <= k < i ==> !prices_eq_spec((#[trigger] side[k]).price, price),
        i < side.len() ==> prices_eq_spec(side[i].price, price),
    ensures
        position(side, price) == (if i < side.len() {
            Some(i)
        } else {
            None
        }),
{
    lemma_position(side, price);
    match position(side, price) {
        Some(j) => {
            if j < i {
                assert(!prices_eq_spec(side[j].price, price));
            }
            if i < j {
                assert(!prices_eq_spec(side[i].price, price));
            }
        },
        None => {},
    }
}

/// Where a price stands first among the levels.
pub fn index_of<T: Real>(side: &[Level<T>], price: T) -> (r: Option<usize>)
    ensures
        match r {
            Some(i) => position(side@, price) == Some(i as int) && i < side@.len(),
            None => position(side@, price) is None,
        },
{
    let mut i: usize = 0;
    while i < side.len()
        invariant
            0 <= i <= side@.len(),
            forall|k: int| 0 <= k < i ==> !prices_eq_spec((#[trigger] side@[k]).price, price),
        decreases side@.len() - i,
    {
        if prices_eq(side[i].price, price) {
            proof {
                lemma_position_is(side@, price, i as int);
            }
            return Some(i);
        }
        i = i + 1;
    }
    proof {
        lemma_position_is(side@, price, i as int);
    }
    None
}

fn is_ahead<T: Real>(a: Level<T>, b: Level<T>, bids: bool) -> (r: bool)
    ensures
        r == ahead(a, b, bids),
{
    if bids {
        b.price.rank() < a.price.rank()
    } else {
        a.price.rank() < b.price.rank()
    }
}

/// Puts a level into a side.
fn place<T: Real>(side: &mut Vec<Level<T>>, l: Level<T>, bids: bool)
    ensures
        final(side)@ == placed(old(side)@, l, bids),
{
    let ghost s = side@;
    let mut pos: usize = side.len();
    assert(s.take(pos as int) =~= s);
    assert(s.skip(pos as int) =~= Seq::<Level<T>>::empty());
    while pos > 0 && is_ahead(l, side[pos - 1], bids)
        invariant
            0 <= pos <= s.len(),
            side@ == s,
            placed(s, l, bids) =~= placed(s.take(pos as int), l, bids) + s.skip(pos as int),
        decreases pos,
    {
        assert(s.take(pos as int).last() == s[pos - 1]);
        assert(s.take(pos as int).drop_last() =~= s.take(pos - 1));
        assert(s.skip(pos - 1) =~= seq![s[pos - 1]] + s.skip(pos as int));
        pos = pos - 1;
    }
    proof {
        if pos > 0 {
            assert(s.take(pos as int).last() == s[pos - 1]);
        }
        assert(s.take(pos as int).push(l) + s.skip(pos as int) =~= s.insert(pos as int, l));
    }
    side.insert(pos, l);
}

/// Sorts a side, best price first.
fn sort_side<T: Real>(side: &Vec<Level<T>>, bids: bool) -> (r: Vec<Level<T>>)
    ensures
        r@ == sorted(side@, bids),
{
    let mut out: Vec<Level<T>> = Vec::new();
    let mut i: usize = 0;
    assert(side@.take(0) =~= Seq::<Level<T>>::empty());
    while i < side.len()
        invariant
            0 <= i <= side@.len(),
            out@ == sorted(side@.take(i as int), bids),
        decreases side@.len() - i,
    {
        assert(side@.take(i + 1).drop_last() =~= side@.take(i as int));
        assert(side@.take(i + 1).last() == side@[i as int]);
        place(&mut out, side[i], bids);
        i = i + 1;
    }
    assert(side@.take(i as int) =~= side@);
    out
}

/// Drops the levels behind the first `BOOK_LEVELS`.
fn trim<T: Real>(side: &mut Vec<Level<T>>)
    ensures
        final(side)@ == trimmed(old(side)@),
{
    if side.len() > BOOK_LEVELS {
        side.truncate(BOOK_LEVELS);
    }
}

/// One side of a snapshot: levels above zero, best first, `BOOK_LEVELS` at most.
fn normalize_side<T: Real>(updates: &[(T, T)], bids: bool) -> (r: Vec<Level<T>>)
    ensures
        r@ == normalized(updates@, bids),
{
    let mut levels: Vec<Level<T>> = Vec::new();
    let mut i: usize = 0;
    assert(updates@.take(0) =~= Seq::<(T, T)>::empty());
    while i < updates.len()
        invariant
            0 <= i <= updates@.len(),
            levels@ == resting(updates@.take(i as int)),
        decreases updates@.len() - i,
    {
        assert(updates@.take(i + 1).drop_last() =~= updates@.take(i as int));
        assert(updates@.take(i + 1).last() == updates@[i as int]);
        let (price, qty) = updates[i];
        if zero::<T>().below(qty) {
            levels.push(Level::new(price, qty));
        }
        i = i + 1;
    }
    assert(updates@.take(i as int) =~= updates@);
    let mut side = sort_side(&levels, bids);
    trim(&mut side);
    side
}

/// Takes the updates into a side.
fn apply_updates<T: Real>(side: &mut Vec<Level<T>>, updates: &[(T, T)], bids: bool)
    ensures
        final(side)@ == amended(old(side)@, updates@, bids),
{
    let mut i: usize = 0;
    let ghost start = side@;
    assert(updates@.take(0) =~= Seq::<(T, T)>::empty());
    while i < updates.len()
        invariant
            0 <= i <= updates@.len(),
            side@ == all_updated(start, updates@.take(i as int)),
        decreases updates@.len() - i,
    {
        assert(updates@.take(i + 1).drop_last() =~= updates@.take(i as int));
        assert(updates@.take(i + 1).last() == updates@[i as int]);
        let (price, qty) = updates[i];
        match index_of(side.as_slice(), price) {
            Some(pos) => {
                if qty.at_most(zero::<T>()) {
                    side.remove(pos);
                } else {
                    let kept = side[pos].price;
                    side[pos] = Level::new(kept, qty);
                }
            },
            None => {
                if zero::<T>().below(qty) {
                    side.push(Level::new(price, qty));
                }
            },
        }
        i = i + 1;
    }
    assert(updates@.take(i as int) =~= updates@);
    let mut out = sort_side(side, bids);
    trim(&mut out);
    *side = out;
}

/// The best levels of both sides.
#[verifier::ext_equal]
pub struct TopView<T> {
    pub bids: Seq<Level<T>>,
    pub asks: Seq<Level<T>>,
}

impl<T: Real> TopView<T> {
    /// Half way between the best bid and the best ask.
    pub open spec fn mid(self) -> T {
        self.bids[0].price.plus_spec(self.asks[0].price).times_spec(T::ratio_spec(1, 2))
    }
}

/// The best `MODEL_LEVELS` levels of both sides.
#[derive(Clone, Copy, Debug)]
pub struct Top10<T> {
    pub bids: [Level<T>; MODEL_LEVELS],
    pub asks: [Level<T>; MODEL_LEVELS],
}

impl<T: Real> View for Top10<T> {
    type V = TopView<T>;

    open spec fn view(&self) -> TopView<T> {
        TopView { bids: self.bids@, asks: self.asks@ }
    }
}

impl<T: Real> Top10<T> {
    pub fn from_levels(bids: [Level<T>; MODEL_LEVELS], asks: [Level<T>; MODEL_LEVELS]) -> (r: Self)
        ensures
            r@ == (TopView { bids: bids@, asks: asks@ }),
    {
        Top10 { bids, asks }
    }

    /// Half way between the best bid and the best ask.
    pub fn mid(&self) -> (r: T)
        ensures
            r == self@.mid(),
    {
        self.bids[0].price.plus(self.asks[0].price).times(T::ratio(1, 2))
    }
}

/// The first `MODEL_LEVELS` levels of a side.
fn first_levels<T: Real>(side: &Vec<Level<T>>) -> (r: [Level<T>; MODEL_LEVELS])
    requires
        side@.len() >= MODEL_LEVELS,
    ensures
        r@ == side@.take(MODEL_LEVELS as int),
{
    let mut out = [side[0]; MODEL_LEVELS];
    let mut i: usize = 0;
    while i < MODEL_LEVELS
        invariant
            0 <= i <= MODEL_LEVELS <= side@.len(),
            forall|k: int| 0 <= k < i ==> (#[trigger] out@[k]) == side@[k],
        decreases MODEL_LEVELS - i,
    {
        out[i] = side[i];
        i = i + 1;
    }
    assert(out@ =~= side@.take(MODEL_LEVELS as int));
    out
}

/// The order book of one contract.
#[derive(Clone, Debug)]
pub struct LocalBook<T> {
    bids: Vec<Level<T>>,
    asks: Vec<Level<T>>,
    last_u: Option<u64>,
    valid: bool,
}

impl<T: Real> View for LocalBook<T> {
    type V = BookState<T>;

    closed spec fn view(&self) -> BookState<T> {
        BookState {
            bids: self.bids@,
            asks: self.asks@,
            last_u: self.last_u,
            valid: self.valid,
        }
    }
}

impl<T: Real> Default for LocalBook<T> {
    fn default() -> (r: Self)
        ensures
            r@ == BookState::<T>::blank(),
    {
        Self::new()
    }
}

impl<T: Real> LocalBook<T> {
    pub fn new() -> (r: Self)
        ensures
            r@ == BookState::<T>::blank(),
            r@.wf(),
    {
        LocalBook { bids: Vec::new(), asks: Vec::new(), last_u: None, valid: false }
    }

    /// Is the book in use, with enough levels for the factors?
    pub fn is_valid(&self) -> (r: bool)
        ensures
            r == self@.usable(),
    {
        self.valid && self.top_complete()
    }

    pub fn top_complete(&self) -> (r: bool)
        ensures
            r == self@.complete(),
    {
        self.bids.len() >= MODEL_LEVELS && self.asks.len() >= MODEL_LEVELS
    }

    pub fn last_u(&self) -> (r: Option<u64>)
        ensures
            r == self@.last_u,
    {
        self.last_u
    }

    pub fn bids(&self) -> (r: &[Level<T>])
        ensures
            r@ == self@.bids,
    {
        self.bids.as_slice()
    }

    pub fn asks(&self) -> (r: &[Level<T>])
        ensures
            r@ == self@.asks,
    {
        self.asks.as_slice()
    }

    /// Forgets everything.
    pub fn discard(&mut self)
        ensures
            final(self)@ == BookState::<T>::blank(),
            final(self)@.wf(),
    {
        self.bids.clear();
        self.asks.clear();
        self.last_u = None;
        self.valid = false;
    }

    pub fn top10(&self) -> (r: Option<Top10<T>>)
        ensures
            match r {
                Some(t) => self@.top() == Some(t@),
                None => self@.top() is None,
            },
    {
        if !self.top_complete() {
            return None;
        }
        Some(Top10 { bids: first_levels(&self.bids), asks: first_levels(&self.asks) })
    }

    pub fn mid(&self) -> (r: Option<T>)
        ensures
            r == (match self@.top() {
                Some(t) => Some(t.mid()),
                None => None,
            }),
    {
        match self.top10() {
            Some(t) => Some(t.mid()),
            None => None,
        }
    }

    /// Replaces the book by a snapshot.
    pub fn apply_snapshot(&mut self, bids: &[(T, T)], asks: &[(T, T)], u: u64) -> (r: BookApply)
        ensures
            final(self)@ == BookState::snapshot(bids@, asks@, u),
            final(self)@.wf(),
            r == BookApply::Replaced,
    {
        self.bids = normalize_side(bids, true);
        self.asks = normalize_side(asks, false);
        self.last_u = Some(u);
        self.valid = true;
        proof {
            BookState::<T>::lemma_snapshot_wf(bids@, asks@, u);
        }
        BookApply::Replaced
    }

    /// Takes in the update with the numbers `start_u` to `end_u`. An update
    /// that does not follow the last one drops the book.
    pub fn apply_incremental(
        &mut self,
        bids: &[(T, T)],
        asks: &[(T, T)],
        start_u: u64,
        end_u: u64,
    ) -> (r: BookApply)
        ensures
            (final(self)@, r) == old(self)@.incremental(bids@, asks@, start_u, end_u),
            old(self)@.wf() ==> final(self)@.wf(),
    {
        proof {
            if self@.wf() {
                self@.lemma_incremental_wf(bids@, asks@, start_u, end_u);
            }
        }
        if !self.valid {
            return BookApply::Ignored;
        }
        let follows: bool = match self.last_u {
            Some(local) => local < u64::MAX && start_u == local + 1,
            None => false,
        };
        if !follows {
            self.discard();
            return BookApply::Gap;
        }
        apply_updates(&mut self.bids, bids, true);
        apply_updates(&mut self.asks, asks, false);
        self.last_u = Some(end_u);
        BookApply::Applied
    }
}

} // verus!
