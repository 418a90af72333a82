//! Trades, and how they explain what changes in the book.
use std::collections::HashSet;

use vstd::prelude::*;

use crate::market::book::{index_of, Level, Top10, MODEL_LEVELS};
#[allow(unused_imports)]
use crate::market::book::{lemma_position, position, prices_eq_spec, TopView};
use crate::number::{eps, smaller, zero, Real};
#[allow(unused_imports)]
use crate::number::{eps_spec, finite_spec, missing_spec, smaller_spec, zero_spec};

verus! {

/// A side of the book.
#[derive(Clone, Copy, Debug, PartialEq, Eq, Structural)]
pub enum Side {
    Bid,
    Ask,
}

/// Who crossed the spread.
#[derive(Clone, Copy, Debug, PartialEq, Eq, Structural)]
pub enum Aggressor {
    Buy,
    Sell,
}

impl Aggressor {
    pub open spec fn of_size<T: Real>(size: T) -> Option<Aggressor> {
        if zero_spec::<T>().below_spec(size) {
            Some(Aggressor::Buy)
        } else if size.below_spec(zero_spec()) {
            Some(Aggressor::Sell)
        } else {
            None
        }
    }

    /// A size above zero is a buy, one below zero a sell.
    pub fn from_size_sign<T: Real>(size: T) -> (r: Option<Self>)
        ensures
            r == Aggressor::of_size(size),
    {
        if zero::<T>().below(size) {
            Some(Aggressor::Buy)
        } else if size.below(zero::<T>()) {
            Some(Aggressor::Sell)
        } else {
            None
        }
    }
}

/// A trade as the exchange reports it.
#[derive(Clone, Copy, Debug, PartialEq)]
pub struct PublicTrade<T> {
    pub id: u64,
    pub price: T,
    pub size: T,
    pub is_internal: bool,
}

impl<T: Real> PublicTrade<T> {
    /// Who traded how much, where the size tells.
    pub open spec fn sided(self) -> Option<(Aggressor, T)> {
        match Aggressor::of_size(self.size) {
            Some(agg) => Some((agg, self.size.magnitude_spec())),
            None => None,
        }
    }
}

/// The trades that are known after this one.
pub open spec fn remembered<T>(seen: Set<u64>, trade: PublicTrade<T>) -> Set<u64> {
    if trade.is_internal {
        seen
    } else {
        seen.insert(trade.id)
    }
}

/// Who traded how much, if the trade counts: it is not internal, was not seen
/// before, and has a size.
pub open spec fn let_through<T: Real>(seen: Set<u64>, trade: PublicTrade<T>) -> Option<
    (Aggressor, T),
> {
    if trade.is_internal || seen.contains(trade.id) {
        None
    } else {
        trade.sided()
    }
}

/// A trade that was let through is known afterwards, and no trade with its id
/// is let through again.
pub proof fn lemma_once<T: Real>(seen: Set<u64>, first: PublicTrade<T>, second: PublicTrade<T>)
    requires
        let_through(seen, first) is Some,
        first.id == second.id,
    ensures
        let_through(remembered(seen, first), second) is None,
        remembered(remembered(seen, first), second) == remembered(seen, first),
{
    assert(seen.insert(first.id).insert(second.id) =~= seen.insert(first.id));
}

/// Lets each trade through once.
#[derive(Debug)]
pub struct TradeDeduper {
    seen: HashSet<u64>,
}

impl View for TradeDeduper {
    type V = Set<u64>;

    closed spec fn view(&self) -> Set<u64> {
        self.seen@
    }
}

impl Clone for TradeDeduper {
    fn clone(&self) -> (r: Self)
        ensures
            r@ == self@,
    {
        broadcast use vstd::std_specs::hash::group_hash_axioms;

        let mut seen: HashSet<u64> = HashSet::new();
        let ghost all = vstd::std_specs::iter::IteratorSpec::remaining(&self.seen.iter()).unref();
        for id in ids: self.seen.iter()
            invariant
                ids.seq().unref() == all,
                seen@ == all.take(ids.index() as int).to_set(),
        {
            proof {
                let k = ids.index() as int;
                assert(all.take(k + 1) =~= all.take(k).push(*id));
                assert(all.take(k + 1).to_set() =~= all.take(k).to_set().insert(*id)) by {
                    broadcast use vstd::seq_lib::group_seq_properties;
                }
            }
            seen.insert(*id);
        }
        assert(all.take(all.len() as int) =~= all);
        TradeDeduper { seen }
    }
}

impl Default for TradeDeduper {
    fn default() -> (r: Self)
        ensures
            r@ == Set::<u64>::empty(),
    {
        Self::new()
    }
}

impl TradeDeduper {
    pub fn new() -> (r: Self)
        ensures
            r@ == Set::<u64>::empty(),
    {
        TradeDeduper { seen: HashSet::new() }
    }

    /// The trade, unless it is internal, was seen before, or has no size. An
    /// internal trade leaves no trace; any other is remembered.
    pub fn accept<T: Real>(&mut self, trade: &PublicTrade<T>) -> (r: Option<(Aggressor, T)>)
        ensures
            final(self)@ == remembered(old(self)@, *trade),
            r == let_through(old(self)@, *trade),
    {
        broadcast use vstd::std_specs::hash::group_hash_axioms;

        if trade.is_internal {
            return None;
        }
        if !self.seen.insert(trade.id) {
            assert(old(self)@.insert(trade.id) =~= old(self)@);
            return None;
        }
        match Aggressor::from_size_sign(trade.size) {
            Some(agg) => Some((agg, trade.size.magnitude())),
            None => None,
        }
    }

    pub fn clear(&mut self)
        ensures
            final(self)@ == Set::<u64>::empty(),
    {
        self.seen.clear();
    }
}

/// A trade that has not been met in the book yet.
#[derive(Clone, Copy, Debug)]
pub struct PendingTrade<T> {
    pub price: T,
    pub qty: T,
    pub aggressor: Aggressor,
}

/// What happened between two states of the book, level by level.
#[derive(Clone, Copy, Debug)]
pub struct MatchedFlow<T> {
    pub add_bid: [T; MODEL_LEVELS],
    pub add_ask: [T; MODEL_LEVELS],
    pub cancel_bid: [T; MODEL_LEVELS],
    pub cancel_ask: [T; MODEL_LEVELS],
    pub exec_bid: [T; MODEL_LEVELS],
    pub exec_ask: [T; MODEL_LEVELS],
    pub n_add_bid: [u32; MODEL_LEVELS],
    pub n_add_ask: [u32; MODEL_LEVELS],
    pub n_cancel_bid: [u32; MODEL_LEVELS],
    pub n_cancel_ask: [u32; MODEL_LEVELS],
    pub n_exec_bid: [u32; MODEL_LEVELS],
    pub n_exec_ask: [u32; MODEL_LEVELS],
}

/// What a [`MatchedFlow`] holds.
#[verifier::ext_equal]
pub struct FlowView<T> {
    pub add_bid: Seq<T>,
    pub add_ask: Seq<T>,
    pub cancel_bid: Seq<T>,
    pub cancel_ask: Seq<T>,
    pub exec_bid: Seq<T>,
    pub exec_ask: Seq<T>,
    pub n_add_bid: Seq<u32>,
    pub n_add_ask: Seq<u32>,
    pub n_cancel_bid: Seq<u32>,
    pub n_cancel_ask: Seq<u32>,
    pub n_exec_bid: Seq<u32>,
    pub n_exec_ask: Seq<u32>,
}

impl<T: Real> View for MatchedFlow<T> {
    type V = FlowView<T>;

    open spec fn view(&self) -> FlowView<T> {
        FlowView {
            add_bid: self.add_bid@,
            add_ask: self.add_ask@,
            cancel_bid: self.cancel_bid@,
            cancel_ask: self.cancel_ask@,
            exec_bid: self.exec_bid@,
            exec_ask: self.exec_ask@,
            n_add_bid: self.n_add_bid@,
            n_add_ask: self.n_add_ask@,
            n_cancel_bid: self.n_cancel_bid@,
            n_cancel_ask: self.n_cancel_ask@,
            n_exec_bid: self.n_exec_bid@,
            n_exec_ask: self.n_exec_ask@,
        }
    }
}

/// Zero at every level.
pub open spec fn nothing<T: Real>() -> Seq<T> {
    Seq::new(MODEL_LEVELS as nat, |i: int| zero_spec::<T>())
}

pub open spec fn none_counted() -> Seq<u32> {
    Seq::new(MODEL_LEVELS as nat, |i: int| 0u32)
}

/// One at every level whose amount is above zero.
pub open spec fn counted<T: Real>(amounts: Seq<T>) -> Seq<u32> {
    Seq::new(
        amounts.len(),
        |i: int|
            if zero_spec::<T>().below_spec(amounts[i]) {
                1u32
            } else {
                0u32
            },
    )
}

/// Is there a level whose amount is above zero?
pub open spec fn some_above_zero<T: Real>(amounts: Seq<T>) -> bool {
    exists|i: int| 0 <= i < amounts.len() && zero_spec::<T>().below_spec(#[trigger] amounts[i])
}

/// The quantity at a price, or zero where the price is not listed.
pub open spec fn qty_at_spec<T: Real>(levels: Seq<Level<T>>, price: T) -> T {
    match position(levels, price) {
        Some(i) => levels[i].qty,
        None => zero_spec(),
    }
}

/// Does level `i` of `to` hold more than that price held in `from`?
pub open spec fn grew<T: Real>(from: Seq<Level<T>>, to: Seq<Level<T>>, i: int) -> bool {
    qty_at_spec(from, to[i].price).below_spec(to[i].qty)
}

/// How much more each level of `to` holds than that price held in `from`.
pub open spec fn gained<T: Real>(from: Seq<Level<T>>, to: Seq<Level<T>>) -> Seq<T> {
    Seq::new(
        to.len(),
        |i: int|
            if grew(from, to, i) {
                to[i].qty.minus_spec(qty_at_spec(from, to[i].price))
            } else {
                zero_spec()
            },
    )
}

/// One at every level that gained.
pub open spec fn gains_counted<T: Real>(from: Seq<Level<T>>, to: Seq<Level<T>>) -> Seq<u32> {
    Seq::new(
        to.len(),
        |i: int|
            if grew(from, to, i) {
                1u32
            } else {
                0u32
            },
    )
}

/// How far a level is from a price, as a rank.
pub open spec fn distance<T: Real>(l: Level<T>, price: T) -> i128 {
    l.price.minus_spec(price).magnitude_spec().rank_spec()
}

/// `i` is the first of the levels nearest to a price.
pub open spec fn is_nearest<T: Real>(levels: Seq<Level<T>>, price: T, i: int) -> bool {
    &&& 0 <= i < levels.len()
    &&& forall|k: int|
        0 <= k < levels.len() ==> distance(levels[i], price) <= distance(#[trigger] levels[k], price)
    &&& forall|k: int|
        0 <= k < i ==> distance(levels[i], price) < distance(#[trigger] levels[k], price)
}

/// The level that a trade is shown at: the one with its price, or else the nearest.
pub open spec fn is_target<T: Real>(levels: Seq<Level<T>>, price: T, i: int) -> bool {
    match position(levels, price) {
        Some(k) => i == k,
        None => is_nearest(levels, price, i),
    }
}

pub open spec fn target<T: Real>(levels: Seq<Level<T>>, price: T) -> int {
    choose|i: int| is_target(levels, price, i)
}

/// A trade is shown at one level only.
pub proof fn lemma_target<T: Real>(levels: Seq<Level<T>>, price: T, i: int)
    requires
        is_target(levels, price, i),
    ensures
        target(levels, price) == i,
        0 <= i < levels.len(),
{
    lemma_position(levels, price);
    let j = target(levels, price);
    assert(is_target(levels, price, j));
    if position(levels, price) is None {
        if i < j {
            assert(distance(levels[j], price) < distance(levels[i], price));
            assert(distance(levels[i], price) <= distance(levels[j], price));
        }
        if j < i {
            assert(distance(levels[i], price) < distance(levels[j], price));
            assert(distance(levels[j], price) <= distance(levels[i], price));
        }
    }
}

/// Some level is the first of the nearest.
proof fn lemma_nearest_exists<T: Real>(levels: Seq<Level<T>>, price: T) -> (i: int)
    requires
        levels.len() > 0,
    ensures
        is_nearest(levels, price, i),
    decreases levels.len(),
{
    let last = levels.len() - 1;
    if last == 0 {
        0
    } else {
        let front = levels.drop_last();
        let b = lemma_nearest_exists(front, price);
        assert forall|k: int| 0 <= k < last implies #[trigger] levels[k] == front[k] by {}
        let best = if distance(levels[last], price) < distance(levels[b], price) {
            last
        } else {
            b
        };
        assert forall|k: int| 0 <= k < levels.len() implies distance(levels[best], price)
            <= distance(#[trigger] levels[k], price) by {
            if k < last {
                assert(distance(front[b], price) <= distance(front[k], price));
            }
        }
        assert forall|k: int| 0 <= k < best implies distance(levels[best], price) < distance(
            #[trigger] levels[k],
            price,
        ) by {
            assert(distance(front[b], price) <= distance(front[k], price));
            if best == b {
                assert(distance(front[b], price) < distance(front[k], price));
            }
        }
        best
    }
}

/// Every trade is shown at some level.
pub proof fn lemma_target_exists<T: Real>(levels: Seq<Level<T>>, price: T)
    requires
        levels.len() > 0,
    ensures
        is_target(levels, price, target(levels, price)),
        0 <= target(levels, price) < levels.len(),
{
    let i = match position(levels, price) {
        Some(k) => k,
        None => lemma_nearest_exists(levels, price),
    };
    assert(is_target(levels, price, i));
    lemma_target(levels, price, i);
}

/// What is left of the decreases of one side, and what trades took of them.
#[verifier::ext_equal]
pub struct SideMatch<T> {
    pub dec: Seq<T>,
    pub taken: Seq<T>,
    pub n_exec: Seq<u32>,
}

/// How much of a decrease a quantity takes.
pub open spec fn takes<T: Real>(qty: T, dec: Seq<T>, i: int) -> T {
    smaller_spec(qty, dec[i])
}

impl<T: Real> SideMatch<T> {
    /// The side after a trade of `qty` at `price`: it takes what it can of the
    /// decrease at the level with that price. A price that is not listed takes
    /// nothing.
    pub open spec fn after(self, levels: Seq<Level<T>>, price: T, qty: T) -> Self {
        match position(levels, price) {
            Some(i) => {
                let take = takes(qty, self.dec, i);
                if zero_spec::<T>().below_spec(take) {
                    SideMatch {
                        dec: self.dec.update(i, self.dec[i].minus_spec(take)),
                        taken: self.taken.update(i, self.taken[i].plus_spec(take)),
                        n_exec: self.n_exec.update(i, (self.n_exec[i] + 1) as u32),
                    }
                } else {
                    self
                }
            },
            None => self,
        }
    }

    /// What that trade leaves unmet.
    pub open spec fn unmet(self, levels: Seq<Level<T>>, price: T, qty: T) -> T {
        match position(levels, price) {
            Some(i) => {
                let take = takes(qty, self.dec, i);
                if zero_spec::<T>().below_spec(take) {
                    qty.minus_spec(take)
                } else {
                    qty
                }
            },
            None => qty,
        }
    }
}

/// Both sides while trades are met one after another, and what stays unmet.
#[verifier::ext_equal]
pub struct Matching<T> {
    pub bid: SideMatch<T>,
    pub ask: SideMatch<T>,
    pub leftover: Seq<PendingTrade<T>>,
}

impl<T: Real> Matching<T> {
    /// Before any trade.
    pub open spec fn start(before: TopView<T>, after: TopView<T>) -> Self {
        Matching {
            bid: SideMatch {
                dec: gained(after.bids, before.bids),
                taken: nothing(),
                n_exec: none_counted(),
            },
            ask: SideMatch {
                dec: gained(after.asks, before.asks),
                taken: nothing(),
                n_exec: none_counted(),
            },
            leftover: Seq::empty(),
        }
    }

    /// One trade: a sell takes from the bids, a buy from the asks. What it
    /// leaves unmet stays behind, unless it is next to nothing.
    pub open spec fn step(self, before: TopView<T>, t: PendingTrade<T>) -> Self {
        let (bid, ask, unmet) = match t.aggressor {
            Aggressor::Sell => (
                self.bid.after(before.bids, t.price, t.qty),
                self.ask,
                self.bid.unmet(before.bids, t.price, t.qty),
            ),
            Aggressor::Buy => (
                self.bid,
                self.ask.after(before.asks, t.price, t.qty),
                self.ask.unmet(before.asks, t.price, t.qty),
            ),
        };
        Matching {
            bid,
            ask,
            leftover: if eps_spec::<T>().below_spec(unmet) {
                self.leftover.push(PendingTrade { price: t.price, qty: unmet, aggressor: t.aggressor })
            } else {
                self.leftover
            },
        }
    }

    /// All trades in turn.
    pub open spec fn run(
        before: TopView<T>,
        after: TopView<T>,
        trades: Seq<PendingTrade<T>>,
    ) -> Self
        decreases trades.len(),
    {
        if trades.len() == 0 {
            Self::start(before, after)
        } else {
            Self::run(before, after, trades.drop_last()).step(before, trades.last())
        }
    }

    /// What happened: levels that grew, decreases that trades took, and the
    /// rest of the decreases, which was cancelled.
    pub open spec fn flow(self, before: TopView<T>, after: TopView<T>) -> FlowView<T> {
        FlowView {
            add_bid: gained(before.bids, after.bids),
            add_ask: gained(before.asks, after.asks),
            cancel_bid: self.bid.dec,
            cancel_ask: self.ask.dec,
            exec_bid: self.bid.taken,
            exec_ask: self.ask.taken,
            n_add_bid: gains_counted(before.bids, after.bids),
            n_add_ask: gains_counted(before.asks, after.asks),
            n_cancel_bid: counted(self.bid.dec),
            n_cancel_ask: counted(self.ask.dec),
            n_exec_bid: self.bid.n_exec,
            n_exec_ask: self.ask.n_exec,
        }
    }
}

/// Does a trade hit bids at this price?
pub open spec fn hits_bid<T: Real>(t: PendingTrade<T>, price: T) -> bool {
    t.aggressor == Aggressor::Sell && prices_eq_spec(price, t.price)
}

/// Does a trade hit asks at this price?
pub open spec fn hits_ask<T: Real>(t: PendingTrade<T>, price: T) -> bool {
    t.aggressor == Aggressor::Buy && prices_eq_spec(price, t.price)
}

impl<T: Real> Matching<T> {
    /// Where the trades that are left over stand among all trades.
    pub open spec fn left_from(
        before: TopView<T>,
        after: TopView<T>,
        trades: Seq<PendingTrade<T>>,
    ) -> Seq<int>
        decreases trades.len(),
    {
        if trades.len() == 0 {
            Seq::empty()
        } else {
            let front = Self::left_from(before, after, trades.drop_last());
            if Self::run(before, after, trades).leftover.len() > Self::run(
                before,
                after,
                trades.drop_last(),
            ).leftover.len() {
                front.push(trades.len() - 1)
            } else {
                front
            }
        }
    }

    /// What is left over follows the order of the trades, each with the price
    /// and the side of its trade.
    pub proof fn lemma_left_over_in_order(
        before: TopView<T>,
        after: TopView<T>,
        trades: Seq<PendingTrade<T>>,
    )
        ensures
            ({
                let left = Self::run(before, after, trades).leftover;
                let at = Self::left_from(before, after, trades);
                &&& at.len() == left.len()
                &&& forall|j: int, k: int|
                    0 <= j < k < at.len() ==> #[trigger] at[j] < #[trigger] at[k]
                &&& forall|j: int|
                    0 <= j < at.len() ==> {
                        &&& 0 <= #[trigger] at[j] < trades.len()
                        &&& left[j].price == trades[at[j]].price
                        &&& left[j].aggressor == trades[at[j]].aggressor
                    }
            }),
        decreases trades.len(),
    {
        if trades.len() > 0 {
            let front = trades.drop_last();
            Self::lemma_left_over_in_order(before, after, front);
            let was = Self::left_from(before, after, front);
            let left = Self::run(before, after, trades).leftover;
            let at = Self::left_from(before, after, trades);
            assert forall|j: int| 0 <= j < at.len() implies {
                &&& 0 <= #[trigger] at[j] < trades.len()
                &&& left[j].price == trades[at[j]].price
                &&& left[j].aggressor == trades[at[j]].aggressor
            } by {
                if j < was.len() {
                    assert(at[j] == was[j]);
                    assert(0 <= was[j] < front.len());
                    assert(front[was[j]] == trades[was[j]]);
                }
            }
            assert forall|j: int, k: int| 0 <= j < k < at.len() implies #[trigger] at[j]
                < #[trigger] at[k] by {
                assert(at[j] == was[j]);
                if k < was.len() {
                    assert(at[k] == was[k]);
                }
            }
        }
    }

    /// A trade at a price that the book does not list takes nothing from it,
    /// and stays behind whole.
    pub proof fn lemma_unlisted(self, before: TopView<T>, t: PendingTrade<T>)
        requires
            FlowView::level_of(before, t) is None,
            eps_spec::<T>().below_spec(t.qty),
        ensures
            self.step(before, t) == (Matching { leftover: self.leftover.push(t), ..self }),
    {
    }

    /// Only a trade at its own price and on its own side takes from a level:
    /// where there is none, all that a bid lost was cancelled.
    pub proof fn lemma_bid_untouched(
        before: TopView<T>,
        after: TopView<T>,
        trades: Seq<PendingTrade<T>>,
        i: int,
    )
        requires
            before.bids.len() == MODEL_LEVELS,
            0 <= i < MODEL_LEVELS,
            forall|k: int|
                0 <= k < trades.len() ==> !hits_bid(#[trigger] trades[k], before.bids[i].price),
        ensures
            ({
                let m = Self::run(before, after, trades);
                &&& m.bid.dec.len() == MODEL_LEVELS
                &&& m.bid.taken.len() == MODEL_LEVELS
                &&& m.bid.n_exec.len() == MODEL_LEVELS
                &&& m.bid.dec[i] == gained(after.bids, before.bids)[i]
                &&& m.bid.taken[i] == zero_spec::<T>()
                &&& m.bid.n_exec[i] == 0
            }),
        decreases trades.len(),
    {
        if trades.len() > 0 {
            let front = trades.drop_last();
            assert forall|k: int| 0 <= k < front.len() implies !hits_bid(
                #[trigger] front[k],
                before.bids[i].price,
            ) by {
                assert(front[k] == trades[k]);
            }
            Self::lemma_bid_untouched(before, after, front, i);
            let t = trades[trades.len() - 1];
            assert(!hits_bid(t, before.bids[i].price));
            lemma_position(before.bids, t.price);
        }
    }

    /// The same of an ask.
    pub proof fn lemma_ask_untouched(
        before: TopView<T>,
        after: TopView<T>,
        trades: Seq<PendingTrade<T>>,
        i: int,
    )
        requires
            before.asks.len() == MODEL_LEVELS,
            0 <= i < MODEL_LEVELS,
            forall|k: int|
                0 <= k < trades.len() ==> !hits_ask(#[trigger] trades[k], before.asks[i].price),
        ensures
            ({
                let m = Self::run(before, after, trades);
                &&& m.ask.dec.len() == MODEL_LEVELS
                &&& m.ask.taken.len() == MODEL_LEVELS
                &&& m.ask.n_exec.len() == MODEL_LEVELS
                &&& m.ask.dec[i] == gained(after.asks, before.asks)[i]
                &&& m.ask.taken[i] == zero_spec::<T>()
                &&& m.ask.n_exec[i] == 0
            }),
        decreases trades.len(),
    {
        if trades.len() > 0 {
            let front = trades.drop_last();
            assert forall|k: int| 0 <= k < front.len() implies !hits_ask(
                #[trigger] front[k],
                before.asks[i].price,
            ) by {
                assert(front[k] == trades[k]);
            }
            Self::lemma_ask_untouched(before, after, front, i);
            let t = trades[trades.len() - 1];
            assert(!hits_ask(t, before.asks[i].price));
            lemma_position(before.asks, t.price);
        }
    }
}

impl<T: Real> FlowView<T> {
    pub open spec fn blank() -> Self {
        FlowView {
            add_bid: nothing(),
            add_ask: nothing(),
            cancel_bid: nothing(),
            cancel_ask: nothing(),
            exec_bid: nothing(),
            exec_ask: nothing(),
            n_add_bid: none_counted(),
            n_add_ask: none_counted(),
            n_cancel_bid: none_counted(),
            n_cancel_ask: none_counted(),
            n_exec_bid: none_counted(),
            n_exec_ask: none_counted(),
        }
    }

    /// A trade on its own: its whole quantity is executed at the level with its
    /// price, or else at the nearest one.
    pub open spec fn of_trade(top: TopView<T>, t: PendingTrade<T>) -> Self {
        match t.aggressor {
            Aggressor::Sell => {
                let i = target(top.bids, t.price);
                FlowView {
                    exec_bid: nothing::<T>().update(i, t.qty),
                    n_exec_bid: none_counted().update(i, 1u32),
                    ..Self::blank()
                }
            },
            Aggressor::Buy => {
                let i = target(top.asks, t.price);
                FlowView {
                    exec_ask: nothing::<T>().update(i, t.qty),
                    n_exec_ask: none_counted().update(i, 1u32),
                    ..Self::blank()
                }
            },
        }
    }

    /// A change of the book on its own: what grew was added, what shrank was cancelled.
    pub open spec fn of_delta(before: TopView<T>, after: TopView<T>) -> Self {
        Matching::start(before, after).flow(before, after)
    }

    /// The additions alone.
    pub open spec fn additions(self) -> Self {
        FlowView {
            add_bid: self.add_bid,
            add_ask: self.add_ask,
            n_add_bid: self.n_add_bid,
            n_add_ask: self.n_add_ask,
            ..Self::blank()
        }
    }

    /// Everything but the additions.
    pub open spec fn without_additions(self) -> Self {
        FlowView {
            add_bid: nothing(),
            add_ask: nothing(),
            n_add_bid: none_counted(),
            n_add_ask: none_counted(),
            ..self
        }
    }

    pub open spec fn has_additions(self) -> bool {
        some_above_zero(self.add_bid) || some_above_zero(self.add_ask)
    }

    pub open spec fn has_cancels(self) -> bool {
        some_above_zero(self.cancel_bid) || some_above_zero(self.cancel_ask)
    }

    /// The level whose cancels a trade can explain: the one with its price, on
    /// the side that it hits.
    pub open spec fn level_of(before: TopView<T>, t: PendingTrade<T>) -> Option<int> {
        match t.aggressor {
            Aggressor::Sell => position(before.bids, t.price),
            Aggressor::Buy => position(before.asks, t.price),
        }
    }

    /// The cancels on the side that a trade hits.
    pub open spec fn cancels_hit(self, t: PendingTrade<T>) -> Seq<T> {
        match t.aggressor {
            Aggressor::Sell => self.cancel_bid,
            Aggressor::Buy => self.cancel_ask,
        }
    }

    /// Does a trade explain some of the cancels at its price?
    pub open spec fn explained_by(self, before: TopView<T>, t: PendingTrade<T>) -> bool {
        match Self::level_of(before, t) {
            Some(i) => zero_spec::<T>().below_spec(takes(t.qty, self.cancels_hit(t), i)),
            None => false,
        }
    }

    /// What was executed on the side that a trade hits.
    pub open spec fn execs_hit(self, t: PendingTrade<T>) -> Seq<T> {
        match t.aggressor {
            Aggressor::Sell => self.exec_bid,
            Aggressor::Buy => self.exec_ask,
        }
    }

    /// How much of the cancels at level `i` a trade leaves.
    pub open spec fn left_by(self, t: PendingTrade<T>, i: int) -> T {
        self.cancels_hit(t)[i].minus_spec(takes(t.qty, self.cancels_hit(t), i))
    }

    /// The flow without the cancels that a trade explains.
    pub open spec fn excluding(self, before: TopView<T>, t: PendingTrade<T>) -> Self {
        if !self.explained_by(before, t) {
            self
        } else {
            let i = Self::level_of(before, t)->0;
            let left = self.left_by(t, i);
            let n = if zero_spec::<T>().below_spec(left) {
                1u32
            } else {
                0u32
            };
            match t.aggressor {
                Aggressor::Sell => FlowView {
                    cancel_bid: self.cancel_bid.update(i, left),
                    n_cancel_bid: self.n_cancel_bid.update(i, n),
                    ..self
                },
                Aggressor::Buy => FlowView {
                    cancel_ask: self.cancel_ask.update(i, left),
                    n_cancel_ask: self.n_cancel_ask.update(i, n),
                    ..self
                },
            }
        }
    }

    /// Trades excluded one after another.
    pub open spec fn excluding_all(self, before: TopView<T>, trades: Seq<PendingTrade<T>>) -> Self
        decreases trades.len(),
    {
        if trades.len() == 0 {
            self
        } else {
            self.excluding_all(before, trades.drop_last()).excluding(before, trades.last())
        }
    }
}

/// What the side that a trade hits lost, level by level.
pub open spec fn lost_to<T: Real>(
    before: TopView<T>,
    after: TopView<T>,
    t: PendingTrade<T>,
) -> Seq<T> {
    match t.aggressor {
        Aggressor::Sell => gained(after.bids, before.bids),
        Aggressor::Buy => gained(after.asks, before.asks),
    }
}

/// How much of a loss a traded quantity does not explain.
pub open spec fn unexplained<T: Real>(qty: T, loss: T) -> T {
    let take = smaller_spec(qty, loss);
    if zero_spec::<T>().below_spec(take) {
        loss.minus_spec(take)
    } else {
        loss
    }
}

/// Of a loss that is larger than the quantity, the quantity is explained; a
/// loss that is smaller is explained whole.
pub proof fn lemma_unexplained<T: Real>(qty: T, loss: T)
    requires
        zero_spec::<T>().below_spec(qty),
        zero_spec::<T>().below_spec(loss),
        !missing_spec(qty),
        finite_spec(loss),
        !missing_spec(loss),
    ensures
        qty.at_most_spec(loss) ==> unexplained(qty, loss) == loss.minus_spec(qty),
        loss.below_spec(qty) ==> unexplained(qty, loss) == zero_spec::<T>(),
{
    T::law_order(qty, loss);
    T::law_order(loss, qty);
    T::law_no_difference(loss);
}

impl<T: Real> FlowView<T> {
    /// A trade at a listed price is executed there in full, and cancels nothing.
    pub proof fn lemma_trade_shown(before: TopView<T>, t: PendingTrade<T>, i: int)
        requires
            before.bids.len() == MODEL_LEVELS,
            before.asks.len() == MODEL_LEVELS,
            Self::level_of(before, t) == Some(i),
        ensures
            0 <= i < MODEL_LEVELS,
            Self::of_trade(before, t).execs_hit(t)[i] == t.qty,
            Self::of_trade(before, t).cancels_hit(t)[i] == zero_spec::<T>(),
    {
        lemma_position(before.bids, t.price);
        lemma_position(before.asks, t.price);
        match t.aggressor {
            Aggressor::Sell => lemma_target(before.bids, t.price, i),
            Aggressor::Buy => lemma_target(before.asks, t.price, i),
        }
    }

    /// What is left of a change once a trade has explained its part.
    pub proof fn lemma_change_explained(
        before: TopView<T>,
        after: TopView<T>,
        t: PendingTrade<T>,
        i: int,
    )
        requires
            before.bids.len() == MODEL_LEVELS,
            before.asks.len() == MODEL_LEVELS,
            Self::level_of(before, t) == Some(i),
        ensures
            ({
                let delta = Self::of_delta(before, after);
                let open = delta.without_additions().excluding(before, t);
                &&& open.cancels_hit(t)[i] == unexplained(t.qty, lost_to(before, after, t)[i])
                &&& open.execs_hit(t)[i] == zero_spec::<T>()
                &&& delta.additions().cancels_hit(t)[i] == zero_spec::<T>()
                &&& delta.additions().execs_hit(t)[i] == zero_spec::<T>()
            }),
    {
        lemma_position(before.bids, t.price);
        lemma_position(before.asks, t.price);
    }
}

/// The quantity at a price, or zero where the price is not listed.
fn qty_at<T: Real>(levels: &[Level<T>; MODEL_LEVELS], price: T) -> (r: T)
    ensures
        r == qty_at_spec(levels@, price),
{
    match index_of(levels, price) {
        Some(i) => levels[i].qty,
        None => zero(),
    }
}

/// The level that a trade is shown at.
fn target_of<T: Real>(levels: &[Level<T>; MODEL_LEVELS], price: T) -> (r: usize)
    ensures
        r == target(levels@, price),
        is_target(levels@, price, r as int),
        r < MODEL_LEVELS,
{
    if let Some(i) = index_of(levels, price) {
        proof {
            lemma_target(levels@, price, i as int);
        }
        return i;
    }
    let mut best: usize = 0;
    let mut best_rank: i128 = levels[0].price.minus(price).magnitude().rank();
    let mut k: usize = 1;
    while k < MODEL_LEVELS
        invariant
            1 <= k <= MODEL_LEVELS,
            0 <= best < k,
            best_rank == distance(levels@[best as int], price),
            forall|j: int| 0 <= j < k ==> best_rank <= distance(#[trigger] levels@[j], price),
            forall|j: int| 0 <= j < best ==> best_rank < distance(#[trigger] levels@[j], price),
        decreases MODEL_LEVELS - k,
    {
        let rank: i128 = levels[k].price.minus(price).magnitude().rank();
        if rank < best_rank {
            best = k;
            best_rank = rank;
        }
        k = k + 1;
    }
    proof {
        assert(is_nearest(levels@, price, best as int));
        lemma_target(levels@, price, best as int);
    }
    best
}

/// How much more each level holds than before, and which levels do.
fn gains<T: Real>(
    from: &[Level<T>; MODEL_LEVELS],
    to: &[Level<T>; MODEL_LEVELS],
) -> (r: ([T; MODEL_LEVELS], [u32; MODEL_LEVELS]))
    ensures
        r.0@ == gained(from@, to@),
        r.1@ == gains_counted(from@, to@),
{
    let mut amounts = [zero::<T>(); MODEL_LEVELS];
    let mut counts = [0u32; MODEL_LEVELS];
    let mut i: usize = 0;
    while i < MODEL_LEVELS
        invariant
            0 <= i <= MODEL_LEVELS,
            forall|k: int| 0 <= k < i ==> (#[trigger] amounts@[k]) == gained(from@, to@)[k],
            forall|k: int| 0 <= k < i ==> (#[trigger] counts@[k]) == gains_counted(from@, to@)[k],
            forall|k: int| i <= k < MODEL_LEVELS ==> (#[trigger] amounts@[k]) == zero_spec::<T>(),
            forall|k: int| i <= k < MODEL_LEVELS ==> (#[trigger] counts@[k]) == 0,
        decreases MODEL_LEVELS - i,
    {
        let had = qty_at(from, to[i].price);
        if had.below(to[i].qty) {
            amounts[i] = to[i].qty.minus(had);
            counts[i] = 1;
        }
        i = i + 1;
    }
    assert(amounts@ =~= gained(from@, to@));
    assert(counts@ =~= gains_counted(from@, to@));
    (amounts, counts)
}

/// One at every level whose amount is above zero.
fn count_above_zero<T: Real>(amounts: &[T; MODEL_LEVELS]) -> (r: [u32; MODEL_LEVELS])
    ensures
        r@ == counted(amounts@),
{
    let mut counts = [0u32; MODEL_LEVELS];
    let mut i: usize = 0;
    while i < MODEL_LEVELS
        invariant
            0 <= i <= MODEL_LEVELS,
            forall|k: int| 0 <= k < i ==> (#[trigger] counts@[k]) == counted(amounts@)[k],
            forall|k: int| i <= k < MODEL_LEVELS ==> (#[trigger] counts@[k]) == 0,
        decreases MODEL_LEVELS - i,
    {
        if zero::<T>().below(amounts[i]) {
            counts[i] = 1;
        }
        i = i + 1;
    }
    assert(counts@ =~= counted(amounts@));
    counts
}

fn any_above_zero<T: Real>(amounts: &[T; MODEL_LEVELS]) -> (r: bool)
    ensures
        r == some_above_zero(amounts@),
{
    let mut i: usize = 0;
    while i < MODEL_LEVELS
        invariant
            0 <= i <= MODEL_LEVELS,
            forall|k: int|
                0 <= k < i ==> !zero_spec::<T>().below_spec(#[trigger] amounts@[k]),
        decreases MODEL_LEVELS - i,
    {
        if zero::<T>().below(amounts[i]) {
            assert(zero_spec::<T>().below_spec(amounts@[i as int]));
            return true;
        }
        i = i + 1;
    }
    false
}

/// The decreases of one side while trades take from them.
struct SideTally<T> {
    dec: [T; MODEL_LEVELS],
    taken: [T; MODEL_LEVELS],
    n_exec: [u32; MODEL_LEVELS],
}

impl<T: Real> View for SideTally<T> {
    type V = SideMatch<T>;

    closed spec fn view(&self) -> SideMatch<T> {
        SideMatch { dec: self.dec@, taken: self.taken@, n_exec: self.n_exec@ }
    }
}

/// No level has counted more than `n` trades.
closed spec fn counts_at_most(counts: Seq<u32>, n: int) -> bool {
    forall|k: int| 0 <= k < counts.len() ==> (#[trigger] counts[k]) <= n
}

/// Takes a trade from the decrease at its price; returns what is unmet.
fn take_from_decrease<T: Real>(
    trade: &PendingTrade<T>,
    levels: &[Level<T>; MODEL_LEVELS],
    tally: &mut SideTally<T>,
    Ghost(n): Ghost<int>,
) -> (r: T)
    requires
        counts_at_most(old(tally)@.n_exec, n),
        0 <= n < u32::MAX,
    ensures
        final(tally)@ == old(tally)@.after(levels@, trade.price, trade.qty),
        r == old(tally)@.unmet(levels@, trade.price, trade.qty),
        counts_at_most(final(tally)@.n_exec, n + 1),
{
    match index_of(levels, trade.price) {
        Some(i) => {
            let take = smaller(trade.qty, tally.dec[i]);
            if zero::<T>().below(take) {
                assert(tally@.n_exec[i as int] <= n);
                tally.dec[i] = tally.dec[i].minus(take);
                tally.taken[i] = tally.taken[i].plus(take);
                tally.n_exec[i] = tally.n_exec[i] + 1;
                assert(tally@ =~= old(tally)@.after(levels@, trade.price, trade.qty));
                trade.qty.minus(take)
            } else {
                trade.qty
            }
        },
        None => trade.qty,
    }
}

/// Explains what changed between two states of the book by trades: at the
/// price of a trade, what the book lost is first taken for that trade, and
/// what is left of the loss was cancelled. Returns what happened, and the
/// trades that the book does not explain, with what is left of them.
pub fn match_trades<T: Real>(
    before: &Top10<T>,
    after: &Top10<T>,
    trades: &[PendingTrade<T>],
) -> (r: (MatchedFlow<T>, Vec<PendingTrade<T>>))
    requires
        trades@.len() < u32::MAX,
    ensures
        r.0@ == Matching::run(before@, after@, trades@).flow(before@, after@),
        r.1@ == Matching::run(before@, after@, trades@).leftover,
{
    let (add_bid, n_add_bid) = gains(&before.bids, &after.bids);
    let (add_ask, n_add_ask) = gains(&before.asks, &after.asks);
    let (dec_bid, _) = gains(&after.bids, &before.bids);
    let (dec_ask, _) = gains(&after.asks, &before.asks);
    let mut bid = SideTally {
        dec: dec_bid,
        taken: [zero::<T>(); MODEL_LEVELS],
        n_exec: [0u32; MODEL_LEVELS],
    };
    let mut ask = SideTally {
        dec: dec_ask,
        taken: [zero::<T>(); MODEL_LEVELS],
        n_exec: [0u32; MODEL_LEVELS],
    };
    let mut leftover: Vec<PendingTrade<T>> = Vec::new();
    let mut i: usize = 0;
    proof {
        assert(trades@.take(0) =~= Seq::<PendingTrade<T>>::empty());
        let start = Matching::start(before@, after@);
        assert(bid@ =~= start.bid);
        assert(ask@ =~= start.ask);
    }
    while i < trades.len()
        invariant
            0 <= i <= trades@.len() < u32::MAX,
            counts_at_most(bid@.n_exec, i as int),
            counts_at_most(ask@.n_exec, i as int),
            (Matching { bid: bid@, ask: ask@, leftover: leftover@ }) == Matching::run(
                before@,
                after@,
                trades@.take(i as int),
            ),
        decreases trades@.len() - i,
    {
        let t = trades[i];
        assert(trades@.take(i + 1).drop_last() =~= trades@.take(i as int));
        assert(trades@.take(i + 1).last() == trades@[i as int]);
        let unmet = match t.aggressor {
            Aggressor::Sell => take_from_decrease(&t, &before.bids, &mut bid, Ghost(i as int)),
            Aggressor::Buy => take_from_decrease(&t, &before.asks, &mut ask, Ghost(i as int)),
        };
        if eps::<T>().below(unmet) {
            leftover.push(PendingTrade { price: t.price, qty: unmet, aggressor: t.aggressor });
        }
        i = i + 1;
    }
    assert(trades@.take(i as int) =~= trades@);
    let n_cancel_bid = count_above_zero(&bid.dec);
    let n_cancel_ask = count_above_zero(&ask.dec);
    let flow = MatchedFlow {
        add_bid,
        add_ask,
        cancel_bid: bid.dec,
        cancel_ask: ask.dec,
        exec_bid: bid.taken,
        exec_ask: ask.taken,
        n_add_bid,
        n_add_ask,
        n_cancel_bid,
        n_cancel_ask,
        n_exec_bid: bid.n_exec,
        n_exec_ask: ask.n_exec,
    };
    (flow, leftover)
}

impl<T: Real> Default for MatchedFlow<T> {
    fn default() -> (r: Self)
        ensures
            r@ == FlowView::<T>::blank(),
    {
        Self::blank()
    }
}

impl<T: Real> MatchedFlow<T> {
    /// Nothing happened.
    pub fn blank() -> (r: Self)
        ensures
            r@ == FlowView::<T>::blank(),
    {
        let r = MatchedFlow {
            add_bid: [zero::<T>(); MODEL_LEVELS],
            add_ask: [zero::<T>(); MODEL_LEVELS],
            cancel_bid: [zero::<T>(); MODEL_LEVELS],
            cancel_ask: [zero::<T>(); MODEL_LEVELS],
            exec_bid: [zero::<T>(); MODEL_LEVELS],
            exec_ask: [zero::<T>(); MODEL_LEVELS],
            n_add_bid: [0u32; MODEL_LEVELS],
            n_add_ask: [0u32; MODEL_LEVELS],
            n_cancel_bid: [0u32; MODEL_LEVELS],
            n_cancel_ask: [0u32; MODEL_LEVELS],
            n_exec_bid: [0u32; MODEL_LEVELS],
            n_exec_ask: [0u32; MODEL_LEVELS],
        };
        assert(r@ =~= FlowView::<T>::blank());
        r
    }

    /// Same-price/side matching: take trade volume from book decreases first;
    /// leftover decrease is treated as cancel.
    pub fn from_delta_and_trades(
        before: &Top10<T>,
        after: &Top10<T>,
        trades: &[PendingTrade<T>],
    ) -> (r: (Self, Vec<PendingTrade<T>>))
        requires
            trades@.len() < u32::MAX,
        ensures
            r.0@ == Matching::run(before@, after@, trades@).flow(before@, after@),
            r.1@ == Matching::run(before@, after@, trades@).leftover,
    {
        match_trades(before, after, trades)
    }

    /// A trade on its own, executed in full at the level with its price. A
    /// trade at a price that the book does not list is shown at the nearest
    /// level, so that it counts at once.
    pub fn from_trade(top: &Top10<T>, trade: &PendingTrade<T>) -> (r: Self)
        ensures
            r@ == FlowView::of_trade(top@, *trade),
    {
        let mut flow = Self::blank();
        match trade.aggressor {
            Aggressor::Sell => {
                let i: usize = target_of(&top.bids, trade.price);
                flow.exec_bid[i] = trade.qty;
                flow.n_exec_bid[i] = 1;
            },
            Aggressor::Buy => {
                let i: usize = target_of(&top.asks, trade.price);
                flow.exec_ask[i] = trade.qty;
                flow.n_exec_ask[i] = 1;
            },
        }
        assert(flow@ =~= FlowView::of_trade(top@, *trade));
        flow
    }

    /// A change of the book on its own: additions and cancels.
    pub fn from_book_delta(before: &Top10<T>, after: &Top10<T>) -> (r: Self)
        ensures
            r@ == FlowView::of_delta(before@, after@),
    {
        let none: [PendingTrade<T>; 0] = [];
        let (flow, _) = match_trades(before, after, &none);
        flow
    }

    /// Moves the additions out.
    pub fn take_additions(&mut self) -> (r: Self)
        ensures
            r@ == old(self)@.additions(),
            final(self)@ == old(self)@.without_additions(),
    {
        let mut out = Self::blank();
        out.add_bid = self.add_bid;
        out.add_ask = self.add_ask;
        out.n_add_bid = self.n_add_bid;
        out.n_add_ask = self.n_add_ask;
        let empty = Self::blank();
        self.add_bid = empty.add_bid;
        self.add_ask = empty.add_ask;
        self.n_add_bid = empty.n_add_bid;
        self.n_add_ask = empty.n_add_ask;
        out
    }

    pub fn has_additions(&self) -> (r: bool)
        ensures
            r == self@.has_additions(),
    {
        any_above_zero(&self.add_bid) || any_above_zero(&self.add_ask)
    }

    pub fn has_cancels(&self) -> (r: bool)
        ensures
            r == self@.has_cancels(),
    {
        any_above_zero(&self.cancel_bid) || any_above_zero(&self.cancel_ask)
    }

    /// Takes a trade out of the cancels at its price. Says whether it explained
    /// any. A trade at a price that the book did not list explains none.
    pub fn exclude_trade_from_cancels(
        &mut self,
        before: &Top10<T>,
        trade: &PendingTrade<T>,
    ) -> (r: bool)
        ensures
            final(self)@ == old(self)@.excluding(before@, *trade),
            r == old(self)@.explained_by(before@, *trade),
    {
        match trade.aggressor {
            Aggressor::Sell => {
                let i: usize = match index_of(&before.bids, trade.price) {
                    Some(i) => i,
                    None => {
                        return false;
                    },
                };
                let take = smaller(trade.qty, self.cancel_bid[i]);
                if !zero::<T>().below(take) {
                    return false;
                }
                let left = self.cancel_bid[i].minus(take);
                self.cancel_bid[i] = left;
                self.n_cancel_bid[i] = if zero::<T>().below(left) {
                    1
                } else {
                    0
                };
            },
            Aggressor::Buy => {
                let i: usize = match index_of(&before.asks, trade.price) {
                    Some(i) => i,
                    None => {
                        return false;
                    },
                };
                let take = smaller(trade.qty, self.cancel_ask[i]);
                if !zero::<T>().below(take) {
                    return false;
                }
                let left = self.cancel_ask[i].minus(take);
                self.cancel_ask[i] = left;
                self.n_cancel_ask[i] = if zero::<T>().below(left) {
                    1
                } else {
                    0
                };
            },
        }
        assert(self@ =~= old(self)@.excluding(before@, *trade));
        true
    }
}

} // verus!
