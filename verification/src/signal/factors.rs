//! The factors: what the book and the flow say about the next price.
use vstd::prelude::*;

use crate::market::book::{Level, Top10, MODEL_LEVELS};
#[allow(unused_imports)]
use crate::market::book::TopView;
use crate::market::flow::MatchedFlow;
#[allow(unused_imports)]
use crate::market::flow::{none_counted, nothing, FlowView};
use crate::number::{count, eps, larger, total, zero, Real};
#[allow(unused_imports)]
use crate::number::{
    accumulate, count_spec, eps_spec, larger_spec, lemma_accumulate_step, total_spec, zero_spec,
};
use crate::types::FEATURE_COUNT;
#[allow(unused_imports)]
use crate::types::products;

verus! {

/// A level counts `e^-0.35` times as much as the one before it; this is the
/// `0.35`, in hundredths.
pub const LEVEL_DECAY_HUNDREDTHS: i64 = 35;

/// The short window, in milliseconds.
pub const SHORT_MS: i64 = 10;

/// The long window, in milliseconds.
pub const LONG_MS: i64 = 50;

/// `a[i] + b[i]` for each `i`.
pub open spec fn sums<T: Real>(a: Seq<T>, b: Seq<T>) -> Seq<T> {
    Seq::new(a.len(), |i: int| a[i].plus_spec(b[i]))
}

/// `a[i] - b[i]` for each `i`.
pub open spec fn differences<T: Real>(a: Seq<T>, b: Seq<T>) -> Seq<T> {
    Seq::new(a.len(), |i: int| a[i].minus_spec(b[i]))
}

/// `a[i] / b[i]` for each `i`.
pub open spec fn quotients<T: Real>(a: Seq<T>, b: Seq<T>) -> Seq<T> {
    Seq::new(a.len(), |i: int| a[i].over_spec(b[i]))
}

/// The quantities of the levels.
pub open spec fn qtys<T>(side: Seq<Level<T>>) -> Seq<T> {
    Seq::new(side.len(), |i: int| side[i].qty)
}

/// `0 + s[0] + s[1] + ..`
pub open spec fn sum_of<T: Real>(s: Seq<T>) -> T {
    accumulate(zero_spec(), s)
}

/// `0 + w[0] * x[0] + w[1] * x[1] + ..`
pub open spec fn dot_spec<T: Real>(w: Seq<T>, x: Seq<T>) -> T {
    sum_of(products(w, x))
}

/// The weighted excess of `x` over `y`, as a part of both.
pub open spec fn imbalance_spec<T: Real>(w: Seq<T>, x: Seq<T>, y: Seq<T>) -> T {
    dot_spec(w, differences(x, y)).over_spec(dot_spec(w, sums(x, y)).plus_spec(eps_spec()))
}

/// The excess of `x` over `y`, as a part of both.
pub open spec fn contrast_spec<T: Real>(x: T, y: T) -> T {
    x.minus_spec(y).over_spec(x.plus_spec(y).plus_spec(eps_spec()))
}

fn each_plus<T: Real>(a: &[T; MODEL_LEVELS], b: &[T; MODEL_LEVELS]) -> (r: [T; MODEL_LEVELS])
    ensures
        r@ == sums(a@, b@),
{
    let mut out = *a;
    let mut i: usize = 0;
    while i < MODEL_LEVELS
        invariant
            0 <= i <= MODEL_LEVELS,
            forall|k: int| 0 <= k < i ==> (#[trigger] out@[k]) == a@[k].plus_spec(b@[k]),
        decreases MODEL_LEVELS - i,
    {
        out[i] = a[i].plus(b[i]);
        i = i + 1;
    }
    assert(out@ =~= sums(a@, b@));
    out
}

fn each_minus<T: Real>(a: &[T; MODEL_LEVELS], b: &[T; MODEL_LEVELS]) -> (r: [T; MODEL_LEVELS])
    ensures
        r@ == differences(a@, b@),
{
    let mut out = *a;
    let mut i: usize = 0;
    while i < MODEL_LEVELS
        invariant
            0 <= i <= MODEL_LEVELS,
            forall|k: int| 0 <= k < i ==> (#[trigger] out@[k]) == a@[k].minus_spec(b@[k]),
        decreases MODEL_LEVELS - i,
    {
        out[i] = a[i].minus(b[i]);
        i = i + 1;
    }
    assert(out@ =~= differences(a@, b@));
    out
}

fn each_over<T: Real>(a: &[T; MODEL_LEVELS], b: &[T; MODEL_LEVELS]) -> (r: [T; MODEL_LEVELS])
    ensures
        r@ == quotients(a@, b@),
{
    let mut out = *a;
    let mut i: usize = 0;
    while i < MODEL_LEVELS
        invariant
            0 <= i <= MODEL_LEVELS,
            forall|k: int| 0 <= k < i ==> (#[trigger] out@[k]) == a@[k].over_spec(b@[k]),
        decreases MODEL_LEVELS - i,
    {
        out[i] = a[i].over(b[i]);
        i = i + 1;
    }
    assert(out@ =~= quotients(a@, b@));
    out
}

fn side_qtys<T: Real>(side: &[Level<T>; MODEL_LEVELS]) -> (r: [T; MODEL_LEVELS])
    ensures
        r@ == qtys(side@),
{
    let mut out = [side[0].qty; MODEL_LEVELS];
    let mut i: usize = 0;
    while i < MODEL_LEVELS
        invariant
            0 <= i <= MODEL_LEVELS,
            forall|k: int| 0 <= k < i ==> (#[trigger] out@[k]) == side@[k].qty,
        decreases MODEL_LEVELS - i,
    {
        out[i] = side[i].qty;
        i = i + 1;
    }
    assert(out@ =~= qtys(side@));
    out
}

fn sum_all<T: Real>(s: &[T; MODEL_LEVELS]) -> (r: T)
    ensures
        r == sum_of(s@),
{
    let mut sum = zero::<T>();
    let mut i: usize = 0;
    assert(s@.take(0) =~= Seq::<T>::empty());
    while i < MODEL_LEVELS
        invariant
            0 <= i <= MODEL_LEVELS,
            sum == accumulate(zero_spec::<T>(), s@.take(i as int)),
        decreases MODEL_LEVELS - i,
    {
        proof {
            lemma_accumulate_step(zero_spec::<T>(), s@, i as int);
        }
        sum = sum.plus(s[i]);
        i = i + 1;
    }
    assert(s@.take(MODEL_LEVELS as int) =~= s@);
    sum
}

fn dot<T: Real>(w: &[T; MODEL_LEVELS], x: &[T; MODEL_LEVELS]) -> (r: T)
    ensures
        r == dot_spec(w@, x@),
{
    let ghost terms = products(w@, x@);
    let mut sum = zero::<T>();
    let mut i: usize = 0;
    assert(terms.take(0) =~= Seq::<T>::empty());
    while i < MODEL_LEVELS
        invariant
            0 <= i <= MODEL_LEVELS,
            terms == products(w@, x@),
            sum == accumulate(zero_spec::<T>(), terms.take(i as int)),
        decreases MODEL_LEVELS - i,
    {
        proof {
            lemma_accumulate_step(zero_spec::<T>(), terms, i as int);
        }
        sum = sum.plus(w[i].times(x[i]));
        i = i + 1;
    }
    assert(terms.take(MODEL_LEVELS as int) =~= terms);
    sum
}

fn imbalance<T: Real>(
    w: &[T; MODEL_LEVELS],
    x: &[T; MODEL_LEVELS],
    y: &[T; MODEL_LEVELS],
) -> (r: T)
    ensures
        r == imbalance_spec(w@, x@, y@),
{
    dot(w, &each_minus(x, y)).over(dot(w, &each_plus(x, y)).plus(eps::<T>()))
}

fn contrast<T: Real>(x: T, y: T) -> (r: T)
    ensures
        r == contrast_spec(x, y),
{
    x.minus(y).over(x.plus(y).plus(eps::<T>()))
}

/// How much each level counts, out of one in all: its decay, as a share of all
/// decays. The decay of level `i` is `e^(-0.35 i)`.
pub open spec fn level_weights_spec<T: Real>(decays: Seq<T>) -> Seq<T> {
    let sum = sum_of(decays);
    Seq::new(decays.len(), |i: int| decays[i].over_spec(sum))
}

pub fn level_weights<T: Real>(decays: &[T; MODEL_LEVELS]) -> (r: [T; MODEL_LEVELS])
    ensures
        r@ == level_weights_spec(decays@),
{
    let sum = sum_all(decays);
    let mut w = *decays;
    let mut i: usize = 0;
    while i < MODEL_LEVELS
        invariant
            0 <= i <= MODEL_LEVELS,
            forall|k: int| 0 <= k < i ==> (#[trigger] w@[k]) == decays@[k].over_spec(sum),
            forall|k: int| i <= k < MODEL_LEVELS ==> (#[trigger] w@[k]) == decays@[k],
        decreases MODEL_LEVELS - i,
    {
        w[i] = w[i].over(sum);
        i = i + 1;
    }
    assert(w@ =~= level_weights_spec(decays@));
    w
}

/// What happened in a window, level by level. The counts wrap around.
#[derive(Clone, Copy, Debug)]
pub struct WindowAgg<T> {
    pub add_bid: [T; MODEL_LEVELS],
    pub add_ask: [T; MODEL_LEVELS],
    pub cancel_bid: [T; MODEL_LEVELS],
    pub cancel_ask: [T; MODEL_LEVELS],
    pub exec_bid: [T; MODEL_LEVELS],
    pub exec_ask: [T; MODEL_LEVELS],
    pub n_add_bid: u32,
    pub n_add_ask: u32,
    pub n_cancel_bid: u32,
    pub n_cancel_ask: u32,
    pub n_exec_bid: u32,
    pub n_exec_ask: u32,
}

/// What a [`WindowAgg`] holds.
#[verifier::ext_equal]
pub struct AggView<T> {
    pub add_bid: Seq<T>,
    pub add_ask: Seq<T>,
    pub cancel_bid: Seq<T>,
    pub cancel_ask: Seq<T>,
    pub exec_bid: Seq<T>,
    pub exec_ask: Seq<T>,
    pub n_add_bid: u32,
    pub n_add_ask: u32,
    pub n_cancel_bid: u32,
    pub n_cancel_ask: u32,
    pub n_exec_bid: u32,
    pub n_exec_ask: u32,
}

impl<T: Real> View for WindowAgg<T> {
    type V = AggView<T>;

    open spec fn view(&self) -> AggView<T> {
        AggView {
            add_bid: self.add_bid@,
            add_ask: self.add_ask@,
            cancel_bid: self.cancel_bid@,
            cancel_ask: self.cancel_ask@,
            exec_bid: self.exec_bid@,
            exec_ask: self.exec_ask@,
            n_add_bid: self.n_add_bid,
            n_add_ask: self.n_add_ask,
            n_cancel_bid: self.n_cancel_bid,
            n_cancel_ask: self.n_cancel_ask,
            n_exec_bid: self.n_exec_bid,
            n_exec_ask: self.n_exec_ask,
        }
    }
}

/// `n + counts[0] + counts[1] + ..`, around 2^32.
pub open spec fn tallied(n: u32, counts: Seq<u32>) -> u32
    decreases counts.len(),
{
    if counts.len() == 0 {
        n
    } else {
        tallied(n, counts.drop_last()).wrapping_add(counts.last())
    }
}

impl<T: Real> AggView<T> {
    pub open spec fn blank() -> Self {
        AggView {
            add_bid: nothing(),
            add_ask: nothing(),
            cancel_bid: nothing(),
            cancel_ask: nothing(),
            exec_bid: nothing(),
            exec_ask: nothing(),
            n_add_bid: 0,
            n_add_ask: 0,
            n_cancel_bid: 0,
            n_cancel_ask: 0,
            n_exec_bid: 0,
            n_exec_ask: 0,
        }
    }

    pub open spec fn plus_flow(self, f: FlowView<T>) -> Self {
        AggView {
            add_bid: sums(self.add_bid, f.add_bid),
            add_ask: sums(self.add_ask, f.add_ask),
            cancel_bid: sums(self.cancel_bid, f.cancel_bid),
            cancel_ask: sums(self.cancel_ask, f.cancel_ask),
            exec_bid: sums(self.exec_bid, f.exec_bid),
            exec_ask: sums(self.exec_ask, f.exec_ask),
            n_add_bid: tallied(self.n_add_bid, f.n_add_bid),
            n_add_ask: tallied(self.n_add_ask, f.n_add_ask),
            n_cancel_bid: tallied(self.n_cancel_bid, f.n_cancel_bid),
            n_cancel_ask: tallied(self.n_cancel_ask, f.n_cancel_ask),
            n_exec_bid: tallied(self.n_exec_bid, f.n_exec_bid),
            n_exec_ask: tallied(self.n_exec_ask, f.n_exec_ask),
        }
    }
}

fn tally(n: u32, counts: &[u32; MODEL_LEVELS]) -> (r: u32)
    ensures
        r == tallied(n, counts@),
{
    let mut sum: u32 = n;
    let mut i: usize = 0;
    assert(counts@.take(0) =~= Seq::<u32>::empty());
    while i < MODEL_LEVELS
        invariant
            0 <= i <= MODEL_LEVELS,
            sum == tallied(n, counts@.take(i as int)),
        decreases MODEL_LEVELS - i,
    {
        assert(counts@.take(i + 1).drop_last() =~= counts@.take(i as int));
        assert(counts@.take(i + 1).last() == counts@[i as int]);
        sum = sum.wrapping_add(counts[i]);
        i = i + 1;
    }
    assert(counts@.take(MODEL_LEVELS as int) =~= counts@);
    sum
}

impl<T: Real> Default for WindowAgg<T> {
    /// Nothing happened.
    fn default() -> (r: Self)
        ensures
            r@ == AggView::<T>::blank(),
    {
        let z = [zero::<T>(); MODEL_LEVELS];
        assert(z@ =~= nothing::<T>());
        WindowAgg {
            add_bid: z,
            add_ask: z,
            cancel_bid: z,
            cancel_ask: z,
            exec_bid: z,
            exec_ask: z,
            n_add_bid: 0,
            n_add_ask: 0,
            n_cancel_bid: 0,
            n_cancel_ask: 0,
            n_exec_bid: 0,
            n_exec_ask: 0,
        }
    }
}

impl<T: Real> WindowAgg<T> {
    /// Adds what happened at one moment.
    pub fn add_flow(&mut self, f: &MatchedFlow<T>)
        ensures
            final(self)@ == old(self)@.plus_flow(f@),
    {
        self.add_bid = each_plus(&self.add_bid, &f.add_bid);
        self.add_ask = each_plus(&self.add_ask, &f.add_ask);
        self.cancel_bid = each_plus(&self.cancel_bid, &f.cancel_bid);
        self.cancel_ask = each_plus(&self.cancel_ask, &f.cancel_ask);
        self.exec_bid = each_plus(&self.exec_bid, &f.exec_bid);
        self.exec_ask = each_plus(&self.exec_ask, &f.exec_ask);
        self.n_add_bid = tally(self.n_add_bid, &f.n_add_bid);
        self.n_add_ask = tally(self.n_add_ask, &f.n_add_ask);
        self.n_cancel_bid = tally(self.n_cancel_bid, &f.n_cancel_bid);
        self.n_cancel_ask = tally(self.n_cancel_ask, &f.n_cancel_ask);
        self.n_exec_bid = tally(self.n_exec_bid, &f.n_exec_bid);
        self.n_exec_ask = tally(self.n_exec_ask, &f.n_exec_ask);
    }
}

/// The quantities in the book at some moment.
#[derive(Clone, Copy, Debug)]
pub struct DepthAt<T> {
    pub bid: [T; MODEL_LEVELS],
    pub ask: [T; MODEL_LEVELS],
}

/// What a [`DepthAt`] holds.
#[verifier::ext_equal]
pub struct DepthView<T> {
    pub bid: Seq<T>,
    pub ask: Seq<T>,
}

impl<T: Real> View for DepthAt<T> {
    type V = DepthView<T>;

    open spec fn view(&self) -> DepthView<T> {
        DepthView { bid: self.bid@, ask: self.ask@ }
    }
}

impl<T: Real> DepthView<T> {
    pub open spec fn blank() -> Self {
        DepthView { bid: nothing(), ask: nothing() }
    }

    pub open spec fn of_top(top: TopView<T>) -> Self {
        DepthView { bid: qtys(top.bids), ask: qtys(top.asks) }
    }
}

impl<T: Real> Default for DepthAt<T> {
    /// Nothing rests anywhere.
    fn default() -> (r: Self)
        ensures
            r@ == DepthView::<T>::blank(),
    {
        let z = [zero::<T>(); MODEL_LEVELS];
        assert(z@ =~= nothing::<T>());
        DepthAt { bid: z, ask: z }
    }
}

impl<T: Real> DepthAt<T> {
    pub fn from_top(top: &Top10<T>) -> (r: Self)
        ensures
            r@ == DepthView::of_top(top@),
    {
        DepthAt { bid: side_qtys(&top.bids), ask: side_qtys(&top.asks) }
    }
}

/// Microprice offset: how far the price weighted by the opposite quantities
/// lies from the middle, in ticks.
pub open spec fn microprice_offset_spec<T: Real>(top: TopView<T>, tick: T) -> T {
    let qb = top.bids[0].qty;
    let qa = top.asks[0].qty;
    let a = top.asks[0].price;
    let b = top.bids[0].price;
    let mp = a.times_spec(qb).plus_spec(b.times_spec(qa)).over_spec(
        qb.plus_spec(qa).plus_spec(eps_spec()),
    );
    let m = a.plus_spec(b).times_spec(T::ratio_spec(1, 2));
    mp.minus_spec(m).over_spec(tick.plus_spec(eps_spec()))
}

/// How far the bids lie below `m`, in ticks.
pub open spec fn bid_distances<T: Real>(bids: Seq<Level<T>>, m: T, tick: T) -> Seq<T> {
    Seq::new(
        bids.len(),
        |i: int| m.minus_spec(bids[i].price).over_spec(tick.plus_spec(eps_spec())),
    )
}

/// How far the asks lie above `m`, in ticks.
pub open spec fn ask_distances<T: Real>(asks: Seq<Level<T>>, m: T, tick: T) -> Seq<T> {
    Seq::new(
        asks.len(),
        |i: int| asks[i].price.minus_spec(m).over_spec(tick.plus_spec(eps_spec())),
    )
}

/// Each distance, but `10^-12` at least.
pub open spec fn at_least_eps<T: Real>(d: Seq<T>) -> Seq<T> {
    Seq::new(d.len(), |i: int| larger_spec(d[i], eps_spec()))
}

/// Distance-weighted pressure: quantities count less the farther they are away.
pub open spec fn pressure_spec<T: Real>(top: TopView<T>, tick: T, w: Seq<T>) -> T {
    let m = top.mid();
    imbalance_spec(
        w,
        quotients(qtys(top.bids), at_least_eps(bid_distances(top.bids, m, tick))),
        quotients(qtys(top.asks), at_least_eps(ask_distances(top.asks, m, tick))),
    )
}

/// The part of a side that rests at its first three levels.
pub open spec fn near_part<T: Real>(q: Seq<T>) -> T {
    total_spec(q.take(3)).over_spec(total_spec(q).plus_spec(eps_spec()))
}

/// The mean distance of a side, weighted by quantity.
pub open spec fn mean_distance<T: Real>(q: Seq<T>, d: Seq<T>) -> T {
    sum_of(products(q, d)).over_spec(sum_of(q).plus_spec(eps_spec()))
}

/// Mean-distance asymmetry.
pub open spec fn mean_distance_asymmetry<T: Real>(top: TopView<T>, tick: T) -> T {
    let m = top.mid();
    contrast_spec(
        mean_distance(qtys(top.asks), ask_distances(top.asks, m, tick)),
        mean_distance(qtys(top.bids), bid_distances(top.bids, m, tick)),
    )
}

/// What pushes the price up at each level, less what pushes it down.
pub open spec fn phi_spec<T: Real>(w: AggView<T>) -> Seq<T> {
    differences(
        differences(
            differences(sums(sums(w.add_bid, w.cancel_ask), w.exec_ask), w.add_ask),
            w.cancel_bid,
        ),
        w.exec_bid,
    )
}

/// Multi-level order flow imbalance per second, relative to the depth.
pub open spec fn ofi_rate_spec<T: Real>(
    w: AggView<T>,
    top: TopView<T>,
    weights: Seq<T>,
    tau_ms: i64,
) -> T {
    let num = dot_spec(weights, phi_spec(w));
    let depth = dot_spec(weights, sums(qtys(top.bids), qtys(top.asks)));
    let tau_s = T::ratio_spec(tau_ms, 1).over_spec(T::ratio_spec(1000, 1));
    num.over_spec(tau_s.times_spec(depth).plus_spec(eps_spec()))
}

/// OFI acceleration: the short rate against the long one.
pub open spec fn acceleration_spec<T: Real>(short: T, long: T) -> T {
    short.minus_spec(long).over_spec(
        short.magnitude_spec().plus_spec(long.magnitude_spec()).plus_spec(eps_spec()),
    )
}

/// Trade imbalance: buys against sells.
pub open spec fn trade_imbalance_spec<T: Real>(w: AggView<T>) -> T {
    contrast_spec(total_spec(w.exec_ask), total_spec(w.exec_bid))
}

/// A weighted amount as a part of another.
pub open spec fn weighted_part<T: Real>(w: Seq<T>, part: Seq<T>, whole: Seq<T>) -> T {
    dot_spec(w, part).over_spec(dot_spec(w, whole).plus_spec(eps_spec()))
}

/// Depletion imbalance: which side is used up faster.
pub open spec fn depletion_spec<T: Real>(w: AggView<T>, depth: DepthView<T>, weights: Seq<T>) -> T {
    contrast_spec(
        weighted_part(weights, sums(w.cancel_ask, w.exec_ask), depth.ask),
        weighted_part(weights, sums(w.cancel_bid, w.exec_bid), depth.bid),
    )
}

/// Replenish imbalance: which side is filled up again faster.
pub open spec fn replenish_spec<T: Real>(w: AggView<T>, weights: Seq<T>) -> T {
    contrast_spec(
        weighted_part(weights, w.add_bid, sums(w.cancel_bid, w.exec_bid)),
        weighted_part(weights, w.add_ask, sums(w.cancel_ask, w.exec_ask)),
    )
}

/// How long the first level lasts at the rate at which it is used up.
pub open spec fn exhaust_time<T: Real>(qty: T, cancelled: T, executed: T) -> T {
    let tau = T::ratio_spec(LONG_MS, 1).over_spec(T::ratio_spec(1000, 1));
    qty.over_spec(cancelled.plus_spec(executed).over_spec(tau).plus_spec(eps_spec()))
}

/// L1 queue exhaust time, bids against asks.
pub open spec fn queue_spec<T: Real>(top: TopView<T>, long: AggView<T>) -> T {
    contrast_spec(
        exhaust_time(top.bids[0].qty, long.cancel_bid[0], long.exec_bid[0]),
        exhaust_time(top.asks[0].qty, long.cancel_ask[0], long.exec_ask[0]),
    )
}

/// Event-count imbalance: events that push up against events that push down.
pub open spec fn events_spec<T: Real>(w: AggView<T>) -> T {
    let up = w.n_add_bid.wrapping_add(w.n_cancel_ask).wrapping_add(w.n_exec_ask);
    let down = w.n_add_ask.wrapping_add(w.n_cancel_bid).wrapping_add(w.n_exec_bid);
    contrast_spec(count_spec::<T>(up as int), count_spec::<T>(down as int))
}

/// The raw factors.
pub open spec fn raw_factors<T: Real>(
    top: TopView<T>,
    tick: T,
    short: AggView<T>,
    long: AggView<T>,
    depth_t_short: DepthView<T>,
    weights: Seq<T>,
) -> Seq<T> {
    let ofi_short = ofi_rate_spec(short, top, weights, SHORT_MS);
    let ofi_long = ofi_rate_spec(long, top, weights, LONG_MS);
    seq![
        contrast_spec(top.bids[0].qty, top.asks[0].qty),
        imbalance_spec(weights, qtys(top.bids), qtys(top.asks)),
        microprice_offset_spec(top, tick),
        pressure_spec(top, tick, weights),
        near_part(qtys(top.bids)).minus_spec(near_part(qtys(top.asks))),
        mean_distance_asymmetry(top, tick),
        ofi_short,
        ofi_long,
        acceleration_spec(ofi_short, ofi_long),
        imbalance_spec(weights, short.add_bid, short.add_ask),
        imbalance_spec(weights, short.cancel_ask, short.cancel_bid),
        trade_imbalance_spec(short),
        trade_imbalance_spec(long),
        depletion_spec(short, depth_t_short, weights),
        replenish_spec(long, weights),
        queue_spec(top, long),
        events_spec(short),
    ]
}

fn microprice_offset<T: Real>(top: &Top10<T>, tick: T) -> (r: T)
    ensures
        r == microprice_offset_spec(top@, tick),
{
    let qb = top.bids[0].qty;
    let qa = top.asks[0].qty;
    let a = top.asks[0].price;
    let b = top.bids[0].price;
    let mp = a.times(qb).plus(b.times(qa)).over(qb.plus(qa).plus(eps::<T>()));
    let m = a.plus(b).times(T::ratio(1, 2));
    mp.minus(m).over(tick.plus(eps::<T>()))
}

fn bid_ticks<T: Real>(bids: &[Level<T>; MODEL_LEVELS], m: T, tick: T) -> (r: [T; MODEL_LEVELS])
    ensures
        r@ == bid_distances(bids@, m, tick),
{
    let mut out = [m; MODEL_LEVELS];
    let mut i: usize = 0;
    while i < MODEL_LEVELS
        invariant
            0 <= i <= MODEL_LEVELS,
            forall|k: int| 0 <= k < i ==> (#[trigger] out@[k]) == bid_distances(bids@, m, tick)[k],
        decreases MODEL_LEVELS - i,
    {
        out[i] = m.minus(bids[i].price).over(tick.plus(eps::<T>()));
        i = i + 1;
    }
    assert(out@ =~= bid_distances(bids@, m, tick));
    out
}

fn ask_ticks<T: Real>(asks: &[Level<T>; MODEL_LEVELS], m: T, tick: T) -> (r: [T; MODEL_LEVELS])
    ensures
        r@ == ask_distances(asks@, m, tick),
{
    let mut out = [m; MODEL_LEVELS];
    let mut i: usize = 0;
    while i < MODEL_LEVELS
        invariant
            0 <= i <= MODEL_LEVELS,
            forall|k: int| 0 <= k < i ==> (#[trigger] out@[k]) == ask_distances(asks@, m, tick)[k],
        decreases MODEL_LEVELS - i,
    {
        out[i] = asks[i].price.minus(m).over(tick.plus(eps::<T>()));
        i = i + 1;
    }
    assert(out@ =~= ask_distances(asks@, m, tick));
    out
}

fn lift_to_eps<T: Real>(d: &[T; MODEL_LEVELS]) -> (r: [T; MODEL_LEVELS])
    ensures
        r@ == at_least_eps(d@),
{
    let mut out = *d;
    let mut i: usize = 0;
    while i < MODEL_LEVELS
        invariant
            0 <= i <= MODEL_LEVELS,
            forall|k: int| 0 <= k < i ==> (#[trigger] out@[k]) == larger_spec(d@[k], eps_spec()),
        decreases MODEL_LEVELS - i,
    {
        out[i] = larger(d[i], eps::<T>());
        i = i + 1;
    }
    assert(out@ =~= at_least_eps(d@));
    out
}

fn pressure<T: Real>(top: &Top10<T>, tick: T, w: &[T; MODEL_LEVELS]) -> (r: T)
    ensures
        r == pressure_spec(top@, tick, w@),
{
    let m = top.mid();
    let bids = each_over(&side_qtys(&top.bids), &lift_to_eps(&bid_ticks(&top.bids, m, tick)));
    let asks = each_over(&side_qtys(&top.asks), &lift_to_eps(&ask_ticks(&top.asks, m, tick)));
    imbalance(w, &bids, &asks)
}

fn near<T: Real>(q: &[T; MODEL_LEVELS]) -> (r: T)
    ensures
        r == near_part(q@),
{
    assert(q@.take(MODEL_LEVELS as int) =~= q@);
    total(q, 3).over(total(q, MODEL_LEVELS).plus(eps::<T>()))
}

fn mean_ticks<T: Real>(q: &[T; MODEL_LEVELS], d: &[T; MODEL_LEVELS]) -> (r: T)
    ensures
        r == mean_distance(q@, d@),
{
    dot(q, d).over(sum_all(q).plus(eps::<T>()))
}

fn distance_asymmetry<T: Real>(top: &Top10<T>, tick: T) -> (r: T)
    ensures
        r == mean_distance_asymmetry(top@, tick),
{
    let m = top.mid();
    let db = mean_ticks(&side_qtys(&top.bids), &bid_ticks(&top.bids, m, tick));
    let da = mean_ticks(&side_qtys(&top.asks), &ask_ticks(&top.asks, m, tick));
    contrast(da, db)
}

fn phi<T: Real>(w: &WindowAgg<T>) -> (r: [T; MODEL_LEVELS])
    ensures
        r@ == phi_spec(w@),
{
    let up = each_plus(&each_plus(&w.add_bid, &w.cancel_ask), &w.exec_ask);
    each_minus(&each_minus(&each_minus(&up, &w.add_ask), &w.cancel_bid), &w.exec_bid)
}

fn ofi_rate<T: Real>(
    w: &WindowAgg<T>,
    top: &Top10<T>,
    weights: &[T; MODEL_LEVELS],
    tau_ms: i64,
) -> (r: T)
    ensures
        r == ofi_rate_spec(w@, top@, weights@, tau_ms),
{
    let num = dot(weights, &phi(w));
    let depth = dot(weights, &each_plus(&side_qtys(&top.bids), &side_qtys(&top.asks)));
    let tau_s = T::ratio(tau_ms, 1).over(T::ratio(1000, 1));
    num.over(tau_s.times(depth).plus(eps::<T>()))
}

fn acceleration<T: Real>(short: T, long: T) -> (r: T)
    ensures
        r == acceleration_spec(short, long),
{
    short.minus(long).over(short.magnitude().plus(long.magnitude()).plus(eps::<T>()))
}

fn trade_imbalance<T: Real>(w: &WindowAgg<T>) -> (r: T)
    ensures
        r == trade_imbalance_spec(w@),
{
    assert(w.exec_ask@.take(MODEL_LEVELS as int) =~= w.exec_ask@);
    assert(w.exec_bid@.take(MODEL_LEVELS as int) =~= w.exec_bid@);
    contrast(total(&w.exec_ask, MODEL_LEVELS), total(&w.exec_bid, MODEL_LEVELS))
}

fn part_of<T: Real>(
    w: &[T; MODEL_LEVELS],
    part: &[T; MODEL_LEVELS],
    whole: &[T; MODEL_LEVELS],
) -> (r: T)
    ensures
        r == weighted_part(w@, part@, whole@),
{
    dot(w, part).over(dot(w, whole).plus(eps::<T>()))
}

fn depletion<T: Real>(
    w: &WindowAgg<T>,
    depth: &DepthAt<T>,
    weights: &[T; MODEL_LEVELS],
) -> (r: T)
    ensures
        r == depletion_spec(w@, depth@, weights@),
{
    let depa = part_of(weights, &each_plus(&w.cancel_ask, &w.exec_ask), &depth.ask);
    let depb = part_of(weights, &each_plus(&w.cancel_bid, &w.exec_bid), &depth.bid);
    contrast(depa, depb)
}

fn replenish<T: Real>(w: &WindowAgg<T>, weights: &[T; MODEL_LEVELS]) -> (r: T)
    ensures
        r == replenish_spec(w@, weights@),
{
    let rb = part_of(weights, &w.add_bid, &each_plus(&w.cancel_bid, &w.exec_bid));
    let ra = part_of(weights, &w.add_ask, &each_plus(&w.cancel_ask, &w.exec_ask));
    contrast(rb, ra)
}

fn exhaust<T: Real>(qty: T, cancelled: T, executed: T) -> (r: T)
    ensures
        r == exhaust_time(qty, cancelled, executed),
{
    let tau = T::ratio(LONG_MS, 1).over(T::ratio(1000, 1));
    qty.over(cancelled.plus(executed).over(tau).plus(eps::<T>()))
}

fn queue<T: Real>(top: &Top10<T>, long: &WindowAgg<T>) -> (r: T)
    ensures
        r == queue_spec(top@, long@),
{
    let tb = exhaust(top.bids[0].qty, long.cancel_bid[0], long.exec_bid[0]);
    let ta = exhaust(top.asks[0].qty, long.cancel_ask[0], long.exec_ask[0]);
    contrast(tb, ta)
}

fn event_balance<T: Real>(w: &WindowAgg<T>) -> (r: T)
    ensures
        r == events_spec(w@),
{
    let up: u32 = w.n_add_bid.wrapping_add(w.n_cancel_ask).wrapping_add(w.n_exec_ask);
    let down: u32 = w.n_add_ask.wrapping_add(w.n_cancel_bid).wrapping_add(w.n_exec_bid);
    contrast(count::<T>(up as i64), count::<T>(down as i64))
}

/// The raw factors of a book and of what happened in the two windows before it.
pub fn compute_raw<T: Real>(
    top: &Top10<T>,
    tick: T,
    short: &WindowAgg<T>,
    long: &WindowAgg<T>,
    depth_t_short: &DepthAt<T>,
    weights: &[T; MODEL_LEVELS],
) -> (r: [T; FEATURE_COUNT])
    ensures
        r@ == raw_factors(top@, tick, short@, long@, depth_t_short@, weights@),
{
    let ofi_short = ofi_rate(short, top, weights, SHORT_MS);
    let ofi_long = ofi_rate(long, top, weights, LONG_MS);
    let qb = side_qtys(&top.bids);
    let qa = side_qtys(&top.asks);
    let f = [
        contrast(top.bids[0].qty, top.asks[0].qty),
        imbalance(weights, &qb, &qa),
        microprice_offset(top, tick),
        pressure(top, tick, weights),
        near(&qb).minus(near(&qa)),
        distance_asymmetry(top, tick),
        ofi_short,
        ofi_long,
        acceleration(ofi_short, ofi_long),
        imbalance(weights, &short.add_bid, &short.add_ask),
        imbalance(weights, &short.cancel_ask, &short.cancel_bid),
        trade_imbalance(short),
        trade_imbalance(long),
        depletion(short, depth_t_short, weights),
        replenish(long, weights),
        queue(top, long),
        event_balance(short),
    ];
    assert(f@ =~= raw_factors(top@, tick, short@, long@, depth_t_short@, weights@));
    f
}

/// The names of the factors, in order.
pub open spec fn factor_names_spec() -> Seq<Seq<char>> {
    seq![
        "L1 imbalance"@,
        "10-level imbalance"@,
        "Microprice offset"@,
        "Distance-weighted pressure"@,
        "Near-depth concentration"@,
        "Mean-distance asymmetry"@,
        "10ms multi-level OFI"@,
        "50ms multi-level OFI"@,
        "OFI acceleration"@,
        "10ms add imbalance"@,
        "10ms cancel imbalance"@,
        "10ms trade imbalance"@,
        "50ms trade imbalance"@,
        "10ms depletion imbalance"@,
        "50ms replenish imbalance"@,
        "L1 queue exhaust time"@,
        "10ms event-count imbalance"@,
    ]
}

pub fn factor_names() -> (r: [&'static str; FEATURE_COUNT])
    ensures
        r@.map_values(|s: &'static str| s@) == factor_names_spec(),
{
    let r = [
        "L1 imbalance",
        "10-level imbalance",
        "Microprice offset",
        "Distance-weighted pressure",
        "Near-depth concentration",
        "Mean-distance asymmetry",
        "10ms multi-level OFI",
        "50ms multi-level OFI",
        "OFI acceleration",
        "10ms add imbalance",
        "10ms cancel imbalance",
        "10ms trade imbalance",
        "50ms trade imbalance",
        "10ms depletion imbalance",
        "50ms replenish imbalance",
        "L1 queue exhaust time",
        "10ms event-count imbalance",
    ];
    assert(r@.map_values(|s: &'static str| s@) =~= factor_names_spec());
    r
}

} // verus!
