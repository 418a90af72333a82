//! What each factor says of the book and of the flow, in real numbers.
use vstd::prelude::*;

#[allow(unused_imports)]
use crate::market::book::{Level, TopView, MODEL_LEVELS};
#[allow(unused_imports)]
use crate::number::{count_spec, eps_spec, larger_spec, total_spec, zero_spec, Real};
#[allow(unused_imports)]
use crate::reals::{
    big_sum, exact, fraction, lemma_accumulate, lemma_constants, lemma_count, lemma_divide,
    lemma_ops, lemma_ratio, lemma_sum_minus, lemma_sum_not_negative, lemma_sum_plus, lemma_sum_same,
    lemma_sum_scaled, lemma_sum_single, lemma_total, read, size, Reading,
};
#[allow(unused_imports)]
use crate::signal::factors::{
    ask_distances, at_least_eps, bid_distances, contrast_spec, differences, dot_spec, exhaust_time,
    imbalance_spec, level_weights_spec, mean_distance, near_part, ofi_rate_spec, phi_spec, qtys,
    quotients, raw_factors, sum_of, sums, weighted_part, AggView, DepthView, LONG_MS, SHORT_MS,
};
#[allow(unused_imports)]
use crate::types::products;

verus! {

/// The smallest distance that factors tell from zero.
pub open spec fn tiny() -> real {
    fraction(1, 1_000_000_000_000)
}

/// The sum over the levels, each counted by its weight.
pub open spec fn weighed<T: Real>(v: Reading<T>, w: Seq<T>, f: spec_fn(int) -> real) -> real {
    big_sum(|i: int| v(w[i]) * f(i), MODEL_LEVELS as int)
}

/// The sum over the levels.
pub open spec fn summed(f: spec_fn(int) -> real) -> real {
    big_sum(f, MODEL_LEVELS as int)
}

/// As many amounts as there are levels, none of them below zero.
pub open spec fn amounts<T: Real>(v: Reading<T>, s: Seq<T>) -> bool {
    &&& s.len() == MODEL_LEVELS
    &&& forall|i: int| 0 <= i < MODEL_LEVELS ==> v(#[trigger] s[i]) >= 0 as real
}

/// A book with quantities that are not below zero.
pub open spec fn sane_book<T: Real>(v: Reading<T>, top: TopView<T>) -> bool {
    &&& top.bids.len() == MODEL_LEVELS
    &&& top.asks.len() == MODEL_LEVELS
    &&& forall|i: int| 0 <= i < MODEL_LEVELS ==> v((#[trigger] top.bids[i]).qty) >= 0 as real
    &&& forall|i: int| 0 <= i < MODEL_LEVELS ==> v((#[trigger] top.asks[i]).qty) >= 0 as real
}

/// A window with amounts that are not below zero.
pub open spec fn sane_window<T: Real>(v: Reading<T>, w: AggView<T>) -> bool {
    &&& amounts(v, w.add_bid)
    &&& amounts(v, w.add_ask)
    &&& amounts(v, w.cancel_bid)
    &&& amounts(v, w.cancel_ask)
    &&& amounts(v, w.exec_bid)
    &&& amounts(v, w.exec_ask)
}

/// A quotient tells how often the divisor goes into the dividend.
proof fn lemma_over<T: Real>(v: Reading<T>, x: T, y: T)
    requires
        exact(v),
        v(y) != 0 as real,
    ensures
        v(x.over_spec(y)) * v(y) == v(x),
        v(x.over_spec(y)) == v(x) / v(y),
{
    lemma_ops(v, x, y);
    lemma_divide(v(x), v(y));
}

proof fn lemma_weighed<T: Real>(v: Reading<T>, w: Seq<T>, x: Seq<T>, f: spec_fn(int) -> real)
    requires
        exact(v),
        w.len() == MODEL_LEVELS,
        forall|i: int| 0 <= i < MODEL_LEVELS ==> v(#[trigger] x[i]) == f(i),
    ensures
        v(dot_spec(w, x)) == weighed(v, w, f),
{
    lemma_constants(v);
    lemma_accumulate(v, zero_spec(), products(w, x));
    let g = |i: int| v(w[i]) * f(i);
    assert forall|i: int| 0 <= i < MODEL_LEVELS implies #[trigger] read(v, products(w, x))(i) == g(
        i,
    ) by {
        lemma_ops(v, w[i], x[i]);
        assert(v(x[i]) == f(i));
    }
    lemma_sum_same(read(v, products(w, x)), g, MODEL_LEVELS as int);
}

/// Weighed amounts that are not below zero.
proof fn lemma_weighed_not_negative<T: Real>(v: Reading<T>, w: Seq<T>, f: spec_fn(int) -> real)
    requires
        amounts(v, w),
        forall|i: int| 0 <= i < MODEL_LEVELS ==> #[trigger] f(i) >= 0 as real,
    ensures
        weighed(v, w, f) >= 0 as real,
{
    let g = |i: int| v(w[i]) * f(i);
    assert forall|i: int| 0 <= i < MODEL_LEVELS implies #[trigger] g(i) >= 0 as real by {
        let (a, b) = (v(w[i]), f(i));
        assert(a * b >= 0 as real) by (nonlinear_arith)
            requires
                a >= 0 as real,
                b >= 0 as real,
        ;
    }
    lemma_sum_not_negative(g, MODEL_LEVELS as int);
}

/// Is `x` the excess of `up` over `down`, as a part of both?
pub open spec fn is_contrast(x: real, up: real, down: real) -> bool {
    x * (up + down + tiny()) == up - down
}

proof fn lemma_contrast<T: Real>(v: Reading<T>, up: T, down: T)
    requires
        exact(v),
        v(up) >= 0 as real,
        v(down) >= 0 as real,
    ensures
        is_contrast(v(contrast_spec(up, down)), v(up), v(down)),
{
    lemma_constants(v);
    lemma_ops(v, up, down);
    lemma_ops(v, up.plus_spec(down), eps_spec::<T>());
    lemma_over(v, up.minus_spec(down), up.plus_spec(down).plus_spec(eps_spec()));
}

proof fn lemma_imbalance<T: Real>(
    v: Reading<T>,
    w: Seq<T>,
    x: Seq<T>,
    y: Seq<T>,
    f: spec_fn(int) -> real,
    g: spec_fn(int) -> real,
)
    requires
        exact(v),
        amounts(v, w),
        x.len() == MODEL_LEVELS,
        y.len() == MODEL_LEVELS,
        forall|i: int| 0 <= i < MODEL_LEVELS ==> v(#[trigger] x[i]) == f(i) && f(i) >= 0 as real,
        forall|i: int| 0 <= i < MODEL_LEVELS ==> v(#[trigger] y[i]) == g(i) && g(i) >= 0 as real,
    ensures
        is_contrast(v(imbalance_spec(w, x, y)), weighed(v, w, f), weighed(v, w, g)),
{
    lemma_constants(v);
    let n = MODEL_LEVELS as int;
    let less = |i: int| f(i) - g(i);
    let both = |i: int| f(i) + g(i);
    assert forall|i: int| 0 <= i < n implies v(#[trigger] differences(x, y)[i]) == less(i) by {
        lemma_ops(v, x[i], y[i]);
        assert(v(x[i]) == f(i) && v(y[i]) == g(i));
    }
    assert forall|i: int| 0 <= i < n implies v(#[trigger] sums(x, y)[i]) == both(i) by {
        lemma_ops(v, x[i], y[i]);
        assert(v(x[i]) == f(i) && v(y[i]) == g(i));
    }
    lemma_weighed(v, w, differences(x, y), less);
    lemma_weighed(v, w, sums(x, y), both);
    let wf = |i: int| v(w[i]) * f(i);
    let wg = |i: int| v(w[i]) * g(i);
    let wl = |i: int| v(w[i]) * less(i);
    let wb = |i: int| v(w[i]) * both(i);
    assert forall|i: int| 0 <= i < n implies #[trigger] wl(i) == wf(i) - wg(i) && wb(i) == wf(i)
        + wg(i) by {
        let (a, b, c) = (v(w[i]), f(i), g(i));
        assert(a * (b - c) == a * b - a * c && a * (b + c) == a * b + a * c) by (nonlinear_arith);
    }
    assert forall|i: int| 0 <= i < n implies #[trigger] wb(i) == wf(i) + wg(i) by {
        assert(wl(i) == wf(i) - wg(i));
    }
    lemma_sum_minus(wf, wg, wl, n);
    lemma_sum_plus(wf, wg, wb, n);
    assert forall|i: int| 0 <= i < n implies #[trigger] f(i) >= 0 as real by {
        assert(v(x[i]) == f(i));
    }
    assert forall|i: int| 0 <= i < n implies #[trigger] g(i) >= 0 as real by {
        assert(v(y[i]) == g(i));
    }
    lemma_weighed_not_negative(v, w, f);
    lemma_weighed_not_negative(v, w, g);
    let num = dot_spec(w, differences(x, y));
    let den = dot_spec(w, sums(x, y));
    lemma_ops(v, den, eps_spec::<T>());
    lemma_over(v, num, den.plus_spec(eps_spec()));
}

/// The quantities of one side.
pub open spec fn qty_of<T: Real>(v: Reading<T>, side: Seq<Level<T>>) -> spec_fn(int) -> real {
    |i: int| v(side[i].qty)
}

/// L1 imbalance: the best bid against the best ask.
pub proof fn lemma_l1_imbalance<T: Real>(
    v: Reading<T>,
    top: TopView<T>,
    tick: T,
    short: AggView<T>,
    long: AggView<T>,
    depth: DepthView<T>,
    weights: Seq<T>,
)
    requires
        exact(v),
        sane_book(v, top),
    ensures
        is_contrast(
            v(raw_factors(top, tick, short, long, depth, weights)[0]),
            v(top.bids[0].qty),
            v(top.asks[0].qty),
        ),
{
    lemma_contrast(v, top.bids[0].qty, top.asks[0].qty);
}

/// 10-level imbalance: all bids against all asks, by their weights.
pub proof fn lemma_level_imbalance<T: Real>(
    v: Reading<T>,
    top: TopView<T>,
    tick: T,
    short: AggView<T>,
    long: AggView<T>,
    depth: DepthView<T>,
    weights: Seq<T>,
)
    requires
        exact(v),
        sane_book(v, top),
        amounts(v, weights),
    ensures
        is_contrast(
            v(raw_factors(top, tick, short, long, depth, weights)[1]),
            weighed(v, weights, qty_of(v, top.bids)),
            weighed(v, weights, qty_of(v, top.asks)),
        ),
{
    lemma_imbalance(
        v,
        weights,
        qtys(top.bids),
        qtys(top.asks),
        qty_of(v, top.bids),
        qty_of(v, top.asks),
    );
}

/// Microprice offset: the price of the best ask weighted by the best bid's
/// quantity and the other way round lies that many ticks above the middle.
pub proof fn lemma_microprice<T: Real>(
    v: Reading<T>,
    top: TopView<T>,
    tick: T,
    short: AggView<T>,
    long: AggView<T>,
    depth: DepthView<T>,
    weights: Seq<T>,
)
    requires
        exact(v),
        sane_book(v, top),
        v(tick) > 0 as real,
    ensures
        ({
            let x = v(raw_factors(top, tick, short, long, depth, weights)[2]);
            let (bid, ask) = (v(top.bids[0].price), v(top.asks[0].price));
            let (qb, qa) = (v(top.bids[0].qty), v(top.asks[0].qty));
            let middle = (bid + ask) / (2 as real);
            (middle + x * (v(tick) + tiny())) * (qb + qa + tiny()) == ask * qb + bid * qa
        }),
{
    lemma_constants(v);
    let qb = top.bids[0].qty;
    let qa = top.asks[0].qty;
    let a = top.asks[0].price;
    let b = top.bids[0].price;
    let num = a.times_spec(qb).plus_spec(b.times_spec(qa));
    let den = qb.plus_spec(qa).plus_spec(eps_spec());
    lemma_ops(v, a, qb);
    lemma_ops(v, b, qa);
    lemma_ops(v, a.times_spec(qb), b.times_spec(qa));
    lemma_ops(v, qb, qa);
    lemma_ops(v, qb.plus_spec(qa), eps_spec::<T>());
    lemma_over(v, num, den);
    let mp = num.over_spec(den);
    lemma_ops(v, a, b);
    lemma_ratio(v, 1, 2);
    lemma_ops(v, a.plus_spec(b), T::ratio_spec(1, 2));
    let m = a.plus_spec(b).times_spec(T::ratio_spec(1, 2));
    let (va, vb) = (v(a), v(b));
    assert((va + vb) * fraction(1, 2) == (vb + va) / (2 as real)) by (nonlinear_arith);
    lemma_ops(v, mp, m);
    lemma_ops(v, tick, eps_spec::<T>());
    lemma_over(v, mp.minus_spec(m), tick.plus_spec(eps_spec()));
    let x = v(raw_factors(top, tick, short, long, depth, weights)[2]);
    let t = v(tick) + tiny();
    assert(x * t == v(mp) - v(m));
}

/// How many ticks a bid lies below the middle, or an ask above it.
pub open spec fn ticks_away(from: real, to: real, tick: real) -> real {
    (to - from) / (tick + tiny())
}

/// The middle of the best prices.
pub open spec fn middle<T: Real>(v: Reading<T>, top: TopView<T>) -> real {
    (v(top.bids[0].price) + v(top.asks[0].price)) / (2 as real)
}

/// How far bid `i` lies below the middle.
pub open spec fn bid_away<T: Real>(v: Reading<T>, top: TopView<T>, tick: T, i: int) -> real {
    ticks_away(v(top.bids[i].price), middle(v, top), v(tick))
}

/// How far ask `i` lies above the middle.
pub open spec fn ask_away<T: Real>(v: Reading<T>, top: TopView<T>, tick: T, i: int) -> real {
    ticks_away(middle(v, top), v(top.asks[i].price), v(tick))
}

proof fn lemma_away<T: Real>(v: Reading<T>, top: TopView<T>, tick: T, i: int)
    requires
        exact(v),
        sane_book(v, top),
        v(tick) > 0 as real,
        0 <= i < MODEL_LEVELS,
    ensures
        v(bid_distances(top.bids, top.mid(), tick)[i]) == bid_away(v, top, tick, i),
        v(ask_distances(top.asks, top.mid(), tick)[i]) == ask_away(v, top, tick, i),
{
    lemma_constants(v);
    let b = top.bids[0].price;
    let a = top.asks[0].price;
    let m = top.mid();
    lemma_ops(v, b, a);
    lemma_ratio(v, 1, 2);
    lemma_ops(v, b.plus_spec(a), T::ratio_spec(1, 2));
    let (va, vb) = (v(a), v(b));
    assert((vb + va) * fraction(1, 2) == (vb + va) / (2 as real)) by (nonlinear_arith);
    lemma_ops(v, tick, eps_spec::<T>());
    lemma_ops(v, m, top.bids[i].price);
    lemma_ops(v, top.asks[i].price, m);
    lemma_over(v, m.minus_spec(top.bids[i].price), tick.plus_spec(eps_spec()));
    lemma_over(v, top.asks[i].price.minus_spec(m), tick.plus_spec(eps_spec()));
}

/// A quantity by its distance, which counts for a little at least.
pub open spec fn pressing(qty: real, away: real) -> real {
    qty / (if away < tiny() {
        tiny()
    } else {
        away
    })
}

proof fn lemma_pressing<T: Real>(v: Reading<T>, qty: T, d: T)
    requires
        exact(v),
        v(qty) >= 0 as real,
    ensures
        v(qty.over_spec(larger_spec(d, eps_spec()))) == pressing(v(qty), v(d)),
        pressing(v(qty), v(d)) >= 0 as real,
{
    lemma_constants(v);
    lemma_ops(v, d, d);
    lemma_ops(v, eps_spec::<T>(), eps_spec::<T>());
    lemma_ops(v, d, eps_spec::<T>());
    let l = larger_spec(d, eps_spec());
    lemma_over(v, qty, l);
    let (q, y) = (v(qty), v(l));
    assert(q / y >= 0 as real) by (nonlinear_arith)
        requires
            q >= 0 as real,
            y > 0 as real,
    ;
}

/// Distance-weighted pressure: quantities count less the farther they are from
/// the middle; bids push up, asks push down.
pub proof fn lemma_pressure<T: Real>(
    v: Reading<T>,
    top: TopView<T>,
    tick: T,
    short: AggView<T>,
    long: AggView<T>,
    depth: DepthView<T>,
    weights: Seq<T>,
)
    requires
        exact(v),
        sane_book(v, top),
        amounts(v, weights),
        v(tick) > 0 as real,
    ensures
        is_contrast(
            v(raw_factors(top, tick, short, long, depth, weights)[3]),
            weighed(
                v,
                weights,
                |i: int| pressing(v(top.bids[i].qty), bid_away(v, top, tick, i)),
            ),
            weighed(
                v,
                weights,
                |i: int| pressing(v(top.asks[i].qty), ask_away(v, top, tick, i)),
            ),
        ),
{
    let m = top.mid();
    let x = quotients(qtys(top.bids), at_least_eps(bid_distances(top.bids, m, tick)));
    let y = quotients(qtys(top.asks), at_least_eps(ask_distances(top.asks, m, tick)));
    let f = |i: int| pressing(v(top.bids[i].qty), bid_away(v, top, tick, i));
    let g = |i: int| pressing(v(top.asks[i].qty), ask_away(v, top, tick, i));
    assert forall|i: int| 0 <= i < MODEL_LEVELS implies v(#[trigger] x[i]) == f(i) && f(i)
        >= 0 as real by {
        lemma_away(v, top, tick, i);
        assert(v(top.bids[i].qty) >= 0 as real);
        lemma_pressing(v, top.bids[i].qty, bid_distances(top.bids, m, tick)[i]);
    }
    assert forall|i: int| 0 <= i < MODEL_LEVELS implies v(#[trigger] y[i]) == g(i) && g(i)
        >= 0 as real by {
        lemma_away(v, top, tick, i);
        assert(v(top.asks[i].qty) >= 0 as real);
        lemma_pressing(v, top.asks[i].qty, ask_distances(top.asks, m, tick)[i]);
    }
    lemma_imbalance(v, weights, x, y, f, g);
}

/// The part of all that rests at the first three levels.
pub open spec fn near_share(f: spec_fn(int) -> real) -> real {
    big_sum(f, 3) / (summed(f) + tiny())
}

proof fn lemma_near<T: Real>(v: Reading<T>, side: Seq<Level<T>>)
    requires
        exact(v),
        side.len() == MODEL_LEVELS,
        forall|i: int| 0 <= i < MODEL_LEVELS ==> v((#[trigger] side[i]).qty) >= 0 as real,
    ensures
        v(near_part(qtys(side))) == near_share(qty_of(v, side)),
{
    lemma_constants(v);
    let q = qtys(side);
    lemma_total(v, q.take(3));
    lemma_total(v, q);
    lemma_sum_same(read(v, q.take(3)), qty_of(v, side), 3);
    lemma_sum_same(read(v, q), qty_of(v, side), MODEL_LEVELS as int);
    assert forall|i: int| 0 <= i < MODEL_LEVELS implies #[trigger] qty_of(v, side)(i)
        >= 0 as real by {
        assert(v(side[i].qty) >= 0 as real);
    }
    lemma_sum_not_negative(qty_of(v, side), MODEL_LEVELS as int);
    lemma_ops(v, total_spec(q), eps_spec::<T>());
    lemma_over(v, total_spec(q.take(3)), total_spec(q).plus_spec(eps_spec()));
}

/// Near-depth concentration: the part of the bids that rests near the middle,
/// less that of the asks.
pub proof fn lemma_near_depth<T: Real>(
    v: Reading<T>,
    top: TopView<T>,
    tick: T,
    short: AggView<T>,
    long: AggView<T>,
    depth: DepthView<T>,
    weights: Seq<T>,
)
    requires
        exact(v),
        sane_book(v, top),
    ensures
        v(raw_factors(top, tick, short, long, depth, weights)[4]) == near_share(
            qty_of(v, top.bids),
        ) - near_share(qty_of(v, top.asks)),
{
    lemma_near(v, top.bids);
    lemma_near(v, top.asks);
    lemma_ops(v, near_part(qtys(top.bids)), near_part(qtys(top.asks)));
}

/// The mean distance of quantities.
pub open spec fn mean_away(qty: spec_fn(int) -> real, away: spec_fn(int) -> real) -> real {
    summed(|i: int| qty(i) * away(i)) / (summed(qty) + tiny())
}

proof fn lemma_mean_away<T: Real>(
    v: Reading<T>,
    side: Seq<Level<T>>,
    d: Seq<T>,
    away: spec_fn(int) -> real,
)
    requires
        exact(v),
        side.len() == MODEL_LEVELS,
        d.len() == MODEL_LEVELS,
        forall|i: int| 0 <= i < MODEL_LEVELS ==> v((#[trigger] side[i]).qty) >= 0 as real,
        forall|i: int| 0 <= i < MODEL_LEVELS ==> v(#[trigger] d[i]) == away(i),
    ensures
        v(mean_distance(qtys(side), d)) == mean_away(qty_of(v, side), away),
{
    lemma_constants(v);
    let q = qtys(side);
    let f = qty_of(v, side);
    let g = |i: int| f(i) * away(i);
    lemma_accumulate(v, zero_spec(), products(q, d));
    assert forall|i: int| 0 <= i < MODEL_LEVELS implies #[trigger] read(v, products(q, d))(i) == g(
        i,
    ) by {
        lemma_ops(v, q[i], d[i]);
        assert(v(d[i]) == away(i));
    }
    lemma_sum_same(read(v, products(q, d)), g, MODEL_LEVELS as int);
    lemma_accumulate(v, zero_spec(), q);
    lemma_sum_same(read(v, q), f, MODEL_LEVELS as int);
    assert forall|i: int| 0 <= i < MODEL_LEVELS implies #[trigger] f(i) >= 0 as real by {
        assert(v(side[i].qty) >= 0 as real);
    }
    lemma_sum_not_negative(f, MODEL_LEVELS as int);
    lemma_ops(v, sum_of(q), eps_spec::<T>());
    lemma_over(v, sum_of(products(q, d)), sum_of(q).plus_spec(eps_spec()));
}

/// Mean-distance asymmetry: how much farther out the asks rest than the bids.
pub proof fn lemma_mean_distance<T: Real>(
    v: Reading<T>,
    top: TopView<T>,
    tick: T,
    short: AggView<T>,
    long: AggView<T>,
    depth: DepthView<T>,
    weights: Seq<T>,
)
    requires
        exact(v),
        sane_book(v, top),
        v(tick) > 0 as real,
    ensures
        ({
            let up = mean_away(qty_of(v, top.asks), |i: int| ask_away(v, top, tick, i));
            let down = mean_away(qty_of(v, top.bids), |i: int| bid_away(v, top, tick, i));
            up >= 0 as real && down >= 0 as real ==> is_contrast(
                v(raw_factors(top, tick, short, long, depth, weights)[5]),
                up,
                down,
            )
        }),
{
    let m = top.mid();
    let da = ask_distances(top.asks, m, tick);
    let db = bid_distances(top.bids, m, tick);
    let fa = |i: int| ask_away(v, top, tick, i);
    let fb = |i: int| bid_away(v, top, tick, i);
    assert forall|i: int| 0 <= i < MODEL_LEVELS implies v(#[trigger] da[i]) == fa(i) by {
        lemma_away(v, top, tick, i);
    }
    assert forall|i: int| 0 <= i < MODEL_LEVELS implies v(#[trigger] db[i]) == fb(i) by {
        lemma_away(v, top, tick, i);
    }
    lemma_mean_away(v, top.asks, da, fa);
    lemma_mean_away(v, top.bids, db, fb);
    if v(mean_distance(qtys(top.asks), da)) >= 0 as real && v(mean_distance(qtys(top.bids), db))
        >= 0 as real {
        lemma_contrast(v, mean_distance(qtys(top.asks), da), mean_distance(qtys(top.bids), db));
    }
}

/// What a window pushes up at level `i`, less what it pushes down: bids that
/// come and asks that go push up, asks that come and bids that go push down.
pub open spec fn push_at<T: Real>(v: Reading<T>, w: AggView<T>) -> spec_fn(int) -> real {
    |i: int|
        v(w.add_bid[i]) + v(w.cancel_ask[i]) + v(w.exec_ask[i]) - v(w.add_ask[i]) - v(
            w.cancel_bid[i],
        ) - v(w.exec_bid[i])
}

/// The depth by which a rate is measured.
pub open spec fn depth_of<T: Real>(v: Reading<T>, top: TopView<T>, weights: Seq<T>) -> real {
    weighed(v, weights, |i: int| v(top.bids[i].qty) + v(top.asks[i].qty))
}

/// A window as long as there are levels.
pub open spec fn whole_window<T>(w: AggView<T>) -> bool {
    &&& w.add_bid.len() == MODEL_LEVELS
    &&& w.add_ask.len() == MODEL_LEVELS
    &&& w.cancel_bid.len() == MODEL_LEVELS
    &&& w.cancel_ask.len() == MODEL_LEVELS
    &&& w.exec_bid.len() == MODEL_LEVELS
    &&& w.exec_ask.len() == MODEL_LEVELS
}

proof fn lemma_rate<T: Real>(
    v: Reading<T>,
    w: AggView<T>,
    top: TopView<T>,
    weights: Seq<T>,
    ms: i64,
)
    requires
        exact(v),
        sane_book(v, top),
        amounts(v, weights),
        whole_window(w),
        1 <= ms,
    ensures
        v(ofi_rate_spec(w, top, weights, ms)) * (fraction(ms as int, 1000) * depth_of(
            v,
            top,
            weights,
        ) + tiny()) == weighed(v, weights, push_at(v, w)),
        fraction(ms as int, 1000) * depth_of(v, top, weights) + tiny() > 0 as real,
{
    lemma_constants(v);
    let phi = phi_spec(w);
    assert forall|i: int| 0 <= i < MODEL_LEVELS implies v(#[trigger] phi[i]) == push_at(v, w)(
        i,
    ) by {
        let a = w.add_bid[i].plus_spec(w.cancel_ask[i]);
        let b = a.plus_spec(w.exec_ask[i]);
        let c = b.minus_spec(w.add_ask[i]);
        let d = c.minus_spec(w.cancel_bid[i]);
        lemma_ops(v, w.add_bid[i], w.cancel_ask[i]);
        lemma_ops(v, a, w.exec_ask[i]);
        lemma_ops(v, b, w.add_ask[i]);
        lemma_ops(v, c, w.cancel_bid[i]);
        lemma_ops(v, d, w.exec_bid[i]);
    }
    lemma_weighed(v, weights, phi, push_at(v, w));
    let both = |i: int| v(top.bids[i].qty) + v(top.asks[i].qty);
    let s = sums(qtys(top.bids), qtys(top.asks));
    assert forall|i: int| 0 <= i < MODEL_LEVELS implies v(#[trigger] s[i]) == both(i) by {
        lemma_ops(v, top.bids[i].qty, top.asks[i].qty);
    }
    lemma_weighed(v, weights, s, both);
    assert forall|i: int| 0 <= i < MODEL_LEVELS implies #[trigger] both(i) >= 0 as real by {
        assert(v(top.bids[i].qty) >= 0 as real && v(top.asks[i].qty) >= 0 as real);
    }
    lemma_weighed_not_negative(v, weights, both);
    let depth = dot_spec(weights, s);
    lemma_ratio(v, ms, 1);
    lemma_ratio(v, 1000, 1);
    let m = ms as int;
    assert(fraction(1000, 1) == 1000 as real && fraction(m, 1) / fraction(1000, 1) == fraction(
        m,
        1000,
    )) by (nonlinear_arith);
    lemma_over(v, T::ratio_spec(ms, 1), T::ratio_spec(1000, 1));
    let tau = T::ratio_spec(ms, 1).over_spec(T::ratio_spec(1000, 1));
    lemma_ops(v, tau, depth);
    lemma_ops(v, tau.times_spec(depth), eps_spec::<T>());
    let (t, d) = (fraction(m, 1000), v(depth));
    assert(t * d >= 0 as real) by (nonlinear_arith)
        requires
            t == fraction(m, 1000),
            m >= 1,
            d >= 0 as real,
    ;
    lemma_over(v, dot_spec(weights, phi), tau.times_spec(depth).plus_spec(eps_spec()));
}

/// Order flow imbalance: what pushed up less what pushed down in the window,
/// by the weights of the levels, per second and relative to the depth.
pub proof fn lemma_ofi<T: Real>(
    v: Reading<T>,
    top: TopView<T>,
    tick: T,
    short: AggView<T>,
    long: AggView<T>,
    depth: DepthView<T>,
    weights: Seq<T>,
)
    requires
        exact(v),
        sane_book(v, top),
        amounts(v, weights),
        whole_window(short),
        whole_window(long),
    ensures
        ({
            let raw = raw_factors(top, tick, short, long, depth, weights);
            let by = depth_of(v, top, weights);
            &&& v(raw[6]) * (fraction(10, 1000) * by + tiny()) == weighed(
                v,
                weights,
                push_at(v, short),
            )
            &&& v(raw[7]) * (fraction(50, 1000) * by + tiny()) == weighed(
                v,
                weights,
                push_at(v, long),
            )
        }),
{
    lemma_rate(v, short, top, weights, SHORT_MS);
    lemma_rate(v, long, top, weights, LONG_MS);
}

/// The kinds of flow.
pub enum Kind {
    AddBid,
    AddAsk,
    CancelBid,
    CancelAsk,
    ExecBid,
    ExecAsk,
}

impl Kind {
    /// Bids that come and asks that go push the price up.
    pub open spec fn pushes_up(self) -> bool {
        self is AddBid || self is CancelAsk || self is ExecAsk
    }
}

/// The amounts of one kind.
pub open spec fn amounts_of<T>(w: AggView<T>, kind: Kind) -> Seq<T> {
    match kind {
        Kind::AddBid => w.add_bid,
        Kind::AddAsk => w.add_ask,
        Kind::CancelBid => w.cancel_bid,
        Kind::CancelAsk => w.cancel_ask,
        Kind::ExecBid => w.exec_bid,
        Kind::ExecAsk => w.exec_ask,
    }
}

/// Did nothing happen in the window but this one kind of flow at this level?
pub open spec fn only<T: Real>(v: Reading<T>, w: AggView<T>, kind: Kind, at: int) -> bool {
    &&& whole_window(w)
    &&& forall|k: Kind, i: int|
        0 <= i < MODEL_LEVELS && !(k == kind && i == at) ==> v(#[trigger] amounts_of(w, k)[i])
            == 0 as real
}

proof fn lemma_single_push<T: Real>(
    v: Reading<T>,
    w: AggView<T>,
    weights: Seq<T>,
    kind: Kind,
    at: int,
)
    requires
        only(v, w, kind, at),
        0 <= at < MODEL_LEVELS,
    ensures
        ({
            let part = v(weights[at]) * v(amounts_of(w, kind)[at]);
            weighed(v, weights, push_at(v, w)) == if kind.pushes_up() {
                part
            } else {
                -part
            }
        }),
{
    let f = |i: int| v(weights[i]) * push_at(v, w)(i);
    assert forall|i: int| 0 <= i < MODEL_LEVELS implies #[trigger] push_at(v, w)(i) == (if i != at {
        0 as real
    } else if kind.pushes_up() {
        v(amounts_of(w, kind)[at])
    } else {
        -v(amounts_of(w, kind)[at])
    }) by {
        assert(v(amounts_of(w, kind)[i]) == v(amounts_of(w, kind)[i]));
        assert(!(kind == Kind::AddBid && i == at) ==> v(amounts_of(w, Kind::AddBid)[i])
            == 0 as real);
        assert(!(kind == Kind::AddAsk && i == at) ==> v(amounts_of(w, Kind::AddAsk)[i])
            == 0 as real);
        assert(!(kind == Kind::CancelBid && i == at) ==> v(amounts_of(w, Kind::CancelBid)[i])
            == 0 as real);
        assert(!(kind == Kind::CancelAsk && i == at) ==> v(amounts_of(w, Kind::CancelAsk)[i])
            == 0 as real);
        assert(!(kind == Kind::ExecBid && i == at) ==> v(amounts_of(w, Kind::ExecBid)[i])
            == 0 as real);
        assert(!(kind == Kind::ExecAsk && i == at) ==> v(amounts_of(w, Kind::ExecAsk)[i])
            == 0 as real);
    }
    assert forall|i: int| 0 <= i < MODEL_LEVELS && i != at implies #[trigger] f(i) == 0 as real by {
        let a = v(weights[i]);
        assert(a * (0 as real) == 0 as real) by (nonlinear_arith);
    }
    lemma_sum_single(f, MODEL_LEVELS as int, at);
    let (a, q) = (v(weights[at]), v(amounts_of(w, kind)[at]));
    assert(a * (-q) == -(a * q)) by (nonlinear_arith);
}

/// Sign and size of each kind of flow: a single amount `q` at level `at` gives
/// its weight times `q` over time and depth, up if bids came or asks went, down
/// if asks came or bids went.
pub proof fn lemma_ofi_of_one_flow<T: Real>(
    v: Reading<T>,
    top: TopView<T>,
    tick: T,
    short: AggView<T>,
    long: AggView<T>,
    depth: DepthView<T>,
    weights: Seq<T>,
    kind: Kind,
    at: int,
)
    requires
        exact(v),
        sane_book(v, top),
        amounts(v, weights),
        only(v, short, kind, at),
        only(v, long, kind, at),
        0 <= at < MODEL_LEVELS,
    ensures
        ({
            let raw = raw_factors(top, tick, short, long, depth, weights);
            let by = depth_of(v, top, weights);
            let short_part = v(weights[at]) * v(amounts_of(short, kind)[at]) / (fraction(10, 1000)
                * by + tiny());
            let long_part = v(weights[at]) * v(amounts_of(long, kind)[at]) / (fraction(50, 1000)
                * by + tiny());
            &&& v(raw[6]) == if kind.pushes_up() {
                short_part
            } else {
                -short_part
            }
            &&& v(raw[7]) == if kind.pushes_up() {
                long_part
            } else {
                -long_part
            }
        }),
{
    let raw = raw_factors(top, tick, short, long, depth, weights);
    let by = depth_of(v, top, weights);
    lemma_rate(v, short, top, weights, SHORT_MS);
    lemma_rate(v, long, top, weights, LONG_MS);
    lemma_single_push(v, short, weights, kind, at);
    lemma_single_push(v, long, weights, kind, at);
    let ds = fraction(10, 1000) * by + tiny();
    let dl = fraction(50, 1000) * by + tiny();
    let ps = v(weights[at]) * v(amounts_of(short, kind)[at]);
    let pl = v(weights[at]) * v(amounts_of(long, kind)[at]);
    lemma_signed_quotient(v(raw[6]), ps, ds, kind.pushes_up());
    lemma_signed_quotient(v(raw[7]), pl, dl, kind.pushes_up());
}

proof fn lemma_signed_quotient(x: real, p: real, d: real, up: bool)
    requires
        d > 0 as real,
        x * d == if up {
            p
        } else {
            -p
        },
    ensures
        x == if up {
            p / d
        } else {
            -(p / d)
        },
{
    assert(x == if up {
        p / d
    } else {
        -(p / d)
    }) by (nonlinear_arith)
        requires
            d > 0 as real,
            x * d == if up {
                p
            } else {
                -p
            },
    ;
}

/// Is `c` both windows together?
pub open spec fn together<T: Real>(
    v: Reading<T>,
    a: AggView<T>,
    b: AggView<T>,
    c: AggView<T>,
) -> bool {
    &&& whole_window(a)
    &&& whole_window(b)
    &&& whole_window(c)
    &&& forall|k: Kind, i: int|
        0 <= i < MODEL_LEVELS ==> v(#[trigger] amounts_of(c, k)[i]) == v(amounts_of(a, k)[i]) + v(
            amounts_of(b, k)[i],
        )
}

/// The rates of two windows add up to the rate of both together.
pub proof fn lemma_ofi_is_additive<T: Real>(
    v: Reading<T>,
    top: TopView<T>,
    tick: T,
    a: AggView<T>,
    b: AggView<T>,
    c: AggView<T>,
    depth: DepthView<T>,
    weights: Seq<T>,
)
    requires
        exact(v),
        sane_book(v, top),
        amounts(v, weights),
        together(v, a, b, c),
    ensures
        ({
            let of_a = raw_factors(top, tick, a, a, depth, weights);
            let of_b = raw_factors(top, tick, b, b, depth, weights);
            let of_c = raw_factors(top, tick, c, c, depth, weights);
            &&& v(of_c[6]) == v(of_a[6]) + v(of_b[6])
            &&& v(of_c[7]) == v(of_a[7]) + v(of_b[7])
        }),
{
    lemma_rate(v, a, top, weights, SHORT_MS);
    lemma_rate(v, b, top, weights, SHORT_MS);
    lemma_rate(v, c, top, weights, SHORT_MS);
    lemma_rate(v, a, top, weights, LONG_MS);
    lemma_rate(v, b, top, weights, LONG_MS);
    lemma_rate(v, c, top, weights, LONG_MS);
    let fa = |i: int| v(weights[i]) * push_at(v, a)(i);
    let fb = |i: int| v(weights[i]) * push_at(v, b)(i);
    let fc = |i: int| v(weights[i]) * push_at(v, c)(i);
    assert forall|i: int| 0 <= i < MODEL_LEVELS implies #[trigger] fc(i) == fa(i) + fb(i) by {
        assert(v(amounts_of(c, Kind::AddBid)[i]) == v(a.add_bid[i]) + v(b.add_bid[i]));
        assert(v(amounts_of(c, Kind::AddAsk)[i]) == v(a.add_ask[i]) + v(b.add_ask[i]));
        assert(v(amounts_of(c, Kind::CancelBid)[i]) == v(a.cancel_bid[i]) + v(b.cancel_bid[i]));
        assert(v(amounts_of(c, Kind::CancelAsk)[i]) == v(a.cancel_ask[i]) + v(b.cancel_ask[i]));
        assert(v(amounts_of(c, Kind::ExecBid)[i]) == v(a.exec_bid[i]) + v(b.exec_bid[i]));
        assert(v(amounts_of(c, Kind::ExecAsk)[i]) == v(a.exec_ask[i]) + v(b.exec_ask[i]));
        let (w, x, y) = (v(weights[i]), push_at(v, a)(i), push_at(v, b)(i));
        assert(w * (x + y) == w * x + w * y) by (nonlinear_arith);
    }
    lemma_sum_plus(fa, fb, fc, MODEL_LEVELS as int);
    let by = depth_of(v, top, weights);
    lemma_rates_add(
        v(ofi_rate_spec(a, top, weights, SHORT_MS)),
        v(ofi_rate_spec(b, top, weights, SHORT_MS)),
        v(ofi_rate_spec(c, top, weights, SHORT_MS)),
        fraction(10, 1000) * by + tiny(),
    );
    lemma_rates_add(
        v(ofi_rate_spec(a, top, weights, LONG_MS)),
        v(ofi_rate_spec(b, top, weights, LONG_MS)),
        v(ofi_rate_spec(c, top, weights, LONG_MS)),
        fraction(50, 1000) * by + tiny(),
    );
}

proof fn lemma_rates_add(x: real, y: real, z: real, d: real)
    requires
        d > 0 as real,
        z * d == x * d + y * d,
    ensures
        z == x + y,
{
    assert(z == x + y) by (nonlinear_arith)
        requires
            d > 0 as real,
            z * d == x * d + y * d,
    ;
}

/// OFI acceleration: the short rate against the long one, as a part of both
/// sizes.
pub proof fn lemma_acceleration<T: Real>(
    v: Reading<T>,
    top: TopView<T>,
    tick: T,
    short: AggView<T>,
    long: AggView<T>,
    depth: DepthView<T>,
    weights: Seq<T>,
)
    requires
        exact(v),
    ensures
        ({
            let raw = raw_factors(top, tick, short, long, depth, weights);
            v(raw[8]) * (size(v(raw[6])) + size(v(raw[7])) + tiny()) == v(raw[6]) - v(raw[7])
        }),
{
    lemma_constants(v);
    let raw = raw_factors(top, tick, short, long, depth, weights);
    let (a, b) = (raw[6], raw[7]);
    lemma_ops(v, a, b);
    lemma_ops(v, b, b);
    lemma_ops(v, a.magnitude_spec(), b.magnitude_spec());
    lemma_ops(v, a.magnitude_spec().plus_spec(b.magnitude_spec()), eps_spec::<T>());
    lemma_over(
        v,
        a.minus_spec(b),
        a.magnitude_spec().plus_spec(b.magnitude_spec()).plus_spec(eps_spec()),
    );
}

/// 10ms add imbalance: bids that came against asks that came. 10ms cancel
/// imbalance: asks that were pulled against bids that were pulled.
pub proof fn lemma_add_and_cancel<T: Real>(
    v: Reading<T>,
    top: TopView<T>,
    tick: T,
    short: AggView<T>,
    long: AggView<T>,
    depth: DepthView<T>,
    weights: Seq<T>,
)
    requires
        exact(v),
        amounts(v, weights),
        sane_window(v, short),
    ensures
        ({
            let raw = raw_factors(top, tick, short, long, depth, weights);
            &&& is_contrast(
                v(raw[9]),
                weighed(v, weights, read(v, short.add_bid)),
                weighed(v, weights, read(v, short.add_ask)),
            )
            &&& is_contrast(
                v(raw[10]),
                weighed(v, weights, read(v, short.cancel_ask)),
                weighed(v, weights, read(v, short.cancel_bid)),
            )
        }),
{
    lemma_imbalance(
        v,
        weights,
        short.add_bid,
        short.add_ask,
        read(v, short.add_bid),
        read(v, short.add_ask),
    );
    lemma_imbalance(
        v,
        weights,
        short.cancel_ask,
        short.cancel_bid,
        read(v, short.cancel_ask),
        read(v, short.cancel_bid),
    );
}

proof fn lemma_traded<T: Real>(v: Reading<T>, w: AggView<T>)
    requires
        exact(v),
        sane_window(v, w),
    ensures
        is_contrast(
            v(contrast_spec(total_spec(w.exec_ask), total_spec(w.exec_bid))),
            summed(read(v, w.exec_ask)),
            summed(read(v, w.exec_bid)),
        ),
{
    lemma_total(v, w.exec_ask);
    lemma_total(v, w.exec_bid);
    lemma_sum_not_negative(read(v, w.exec_ask), MODEL_LEVELS as int);
    lemma_sum_not_negative(read(v, w.exec_bid), MODEL_LEVELS as int);
    lemma_contrast(v, total_spec(w.exec_ask), total_spec(w.exec_bid));
}

/// Trade imbalance: what was bought at the asks against what was sold at the
/// bids, in each window.
pub proof fn lemma_trade_imbalance<T: Real>(
    v: Reading<T>,
    top: TopView<T>,
    tick: T,
    short: AggView<T>,
    long: AggView<T>,
    depth: DepthView<T>,
    weights: Seq<T>,
)
    requires
        exact(v),
        sane_window(v, short),
        sane_window(v, long),
    ensures
        ({
            let raw = raw_factors(top, tick, short, long, depth, weights);
            &&& is_contrast(
                v(raw[11]),
                summed(read(v, short.exec_ask)),
                summed(read(v, short.exec_bid)),
            )
            &&& is_contrast(
                v(raw[12]),
                summed(read(v, long.exec_ask)),
                summed(read(v, long.exec_bid)),
            )
        }),
{
    lemma_traded(v, short);
    lemma_traded(v, long);
}

/// A weighed amount as a part of another.
pub open spec fn part_of(part: real, whole: real) -> real {
    part / (whole + tiny())
}

proof fn lemma_part<T: Real>(
    v: Reading<T>,
    w: Seq<T>,
    part: Seq<T>,
    whole: Seq<T>,
    f: spec_fn(int) -> real,
    g: spec_fn(int) -> real,
)
    requires
        exact(v),
        amounts(v, w),
        forall|i: int| 0 <= i < MODEL_LEVELS ==> v(#[trigger] part[i]) == f(i) && f(i) >= 0 as real,
        forall|i: int|
            0 <= i < MODEL_LEVELS ==> v(#[trigger] whole[i]) == g(i) && g(i) >= 0 as real,
    ensures
        v(weighted_part(w, part, whole)) == part_of(weighed(v, w, f), weighed(v, w, g)),
        v(weighted_part(w, part, whole)) >= 0 as real,
{
    lemma_constants(v);
    lemma_weighed(v, w, part, f);
    lemma_weighed(v, w, whole, g);
    assert forall|i: int| 0 <= i < MODEL_LEVELS implies #[trigger] f(i) >= 0 as real by {
        assert(v(part[i]) == f(i));
    }
    assert forall|i: int| 0 <= i < MODEL_LEVELS implies #[trigger] g(i) >= 0 as real by {
        assert(v(whole[i]) == g(i));
    }
    lemma_weighed_not_negative(v, w, f);
    lemma_weighed_not_negative(v, w, g);
    lemma_ops(v, dot_spec(w, whole), eps_spec::<T>());
    lemma_over(v, dot_spec(w, part), dot_spec(w, whole).plus_spec(eps_spec()));
    let (x, y) = (weighed(v, w, f), weighed(v, w, g) + tiny());
    assert(x / y >= 0 as real) by (nonlinear_arith)
        requires
            x >= 0 as real,
            y > 0 as real,
    ;
}

/// What went from the bids at level `i`, pulled or executed.
pub open spec fn gone_bid<T: Real>(v: Reading<T>, w: AggView<T>) -> spec_fn(int) -> real {
    |i: int| v(w.cancel_bid[i]) + v(w.exec_bid[i])
}

/// What went from the asks at level `i`, pulled or executed.
pub open spec fn gone_ask<T: Real>(v: Reading<T>, w: AggView<T>) -> spec_fn(int) -> real {
    |i: int| v(w.cancel_ask[i]) + v(w.exec_ask[i])
}

proof fn lemma_gone<T: Real>(v: Reading<T>, w: AggView<T>)
    requires
        exact(v),
        sane_window(v, w),
    ensures
        forall|i: int|
            0 <= i < MODEL_LEVELS ==> v(#[trigger] sums(w.cancel_bid, w.exec_bid)[i]) == gone_bid(
                v,
                w,
            )(i) && gone_bid(v, w)(i) >= 0 as real,
        forall|i: int|
            0 <= i < MODEL_LEVELS ==> v(#[trigger] sums(w.cancel_ask, w.exec_ask)[i]) == gone_ask(
                v,
                w,
            )(i) && gone_ask(v, w)(i) >= 0 as real,
{
    assert forall|i: int| 0 <= i < MODEL_LEVELS implies v(
        #[trigger] sums(w.cancel_bid, w.exec_bid)[i],
    ) == gone_bid(v, w)(i) && gone_bid(v, w)(i) >= 0 as real by {
        lemma_ops(v, w.cancel_bid[i], w.exec_bid[i]);
        assert(v(w.cancel_bid[i]) >= 0 as real && v(w.exec_bid[i]) >= 0 as real);
    }
    assert forall|i: int| 0 <= i < MODEL_LEVELS implies v(
        #[trigger] sums(w.cancel_ask, w.exec_ask)[i],
    ) == gone_ask(v, w)(i) && gone_ask(v, w)(i) >= 0 as real by {
        lemma_ops(v, w.cancel_ask[i], w.exec_ask[i]);
        assert(v(w.cancel_ask[i]) >= 0 as real && v(w.exec_ask[i]) >= 0 as real);
    }
}

/// Depletion imbalance: the part of the asks that went, against the part of the
/// bids that went, of what rested there before.
pub proof fn lemma_depletion<T: Real>(
    v: Reading<T>,
    top: TopView<T>,
    tick: T,
    short: AggView<T>,
    long: AggView<T>,
    depth: DepthView<T>,
    weights: Seq<T>,
)
    requires
        exact(v),
        amounts(v, weights),
        sane_window(v, short),
        amounts(v, depth.bid),
        amounts(v, depth.ask),
    ensures
        is_contrast(
            v(raw_factors(top, tick, short, long, depth, weights)[13]),
            part_of(
                weighed(v, weights, gone_ask(v, short)),
                weighed(v, weights, read(v, depth.ask)),
            ),
            part_of(
                weighed(v, weights, gone_bid(v, short)),
                weighed(v, weights, read(v, depth.bid)),
            ),
        ),
{
    lemma_gone(v, short);
    let asks = sums(short.cancel_ask, short.exec_ask);
    let bids = sums(short.cancel_bid, short.exec_bid);
    lemma_part(v, weights, asks, depth.ask, gone_ask(v, short), read(v, depth.ask));
    lemma_part(v, weights, bids, depth.bid, gone_bid(v, short), read(v, depth.bid));
    lemma_contrast(
        v,
        weighted_part(weights, asks, depth.ask),
        weighted_part(weights, bids, depth.bid),
    );
}

/// Replenish imbalance: what came to the bids of what went from them, against
/// what came to the asks of what went from them.
pub proof fn lemma_replenish<T: Real>(
    v: Reading<T>,
    top: TopView<T>,
    tick: T,
    short: AggView<T>,
    long: AggView<T>,
    depth: DepthView<T>,
    weights: Seq<T>,
)
    requires
        exact(v),
        amounts(v, weights),
        sane_window(v, long),
    ensures
        is_contrast(
            v(raw_factors(top, tick, short, long, depth, weights)[14]),
            part_of(
                weighed(v, weights, read(v, long.add_bid)),
                weighed(v, weights, gone_bid(v, long)),
            ),
            part_of(
                weighed(v, weights, read(v, long.add_ask)),
                weighed(v, weights, gone_ask(v, long)),
            ),
        ),
{
    lemma_gone(v, long);
    let asks = sums(long.cancel_ask, long.exec_ask);
    let bids = sums(long.cancel_bid, long.exec_bid);
    lemma_part(v, weights, long.add_bid, bids, read(v, long.add_bid), gone_bid(v, long));
    lemma_part(v, weights, long.add_ask, asks, read(v, long.add_ask), gone_ask(v, long));
    lemma_contrast(
        v,
        weighted_part(weights, long.add_bid, bids),
        weighted_part(weights, long.add_ask, asks),
    );
}

/// How many seconds a quantity lasts when `gone` goes in 50 ms.
pub open spec fn seconds_left(qty: real, gone: real) -> real {
    qty / (gone * (20 as real) + tiny())
}

proof fn lemma_exhaust<T: Real>(v: Reading<T>, qty: T, cancelled: T, executed: T)
    requires
        exact(v),
        v(qty) >= 0 as real,
        v(cancelled) >= 0 as real,
        v(executed) >= 0 as real,
    ensures
        v(exhaust_time(qty, cancelled, executed)) == seconds_left(
            v(qty),
            v(cancelled) + v(executed),
        ),
        v(exhaust_time(qty, cancelled, executed)) >= 0 as real,
{
    lemma_constants(v);
    lemma_ratio(v, LONG_MS, 1);
    lemma_ratio(v, 1000, 1);
    assert(fraction(1000, 1) == 1000 as real && fraction(50, 1) / fraction(1000, 1) == fraction(
        50,
        1000,
    ) && fraction(50, 1000) > 0 as real) by (nonlinear_arith);
    let tau = T::ratio_spec(LONG_MS, 1).over_spec(T::ratio_spec(1000, 1));
    lemma_over(v, T::ratio_spec(LONG_MS, 1), T::ratio_spec(1000, 1));
    let gone = cancelled.plus_spec(executed);
    lemma_ops(v, cancelled, executed);
    lemma_over(v, gone, tau);
    let rate = gone.over_spec(tau);
    let g = v(gone);
    assert(g / fraction(50, 1000) == g * (20 as real)) by (nonlinear_arith);
    lemma_ops(v, rate, eps_spec::<T>());
    lemma_over(v, qty, rate.plus_spec(eps_spec()));
    let (x, y) = (v(qty), g * (20 as real) + tiny());
    assert(x / y >= 0 as real && y > 0 as real) by (nonlinear_arith)
        requires
            x >= 0 as real,
            g >= 0 as real,
            tiny() > 0 as real,
            y == g * (20 as real) + tiny(),
    ;
}

/// L1 queue exhaust time: how long the best bid lasts against how long the best
/// ask lasts, at the rate of the long window.
pub proof fn lemma_queue<T: Real>(
    v: Reading<T>,
    top: TopView<T>,
    tick: T,
    short: AggView<T>,
    long: AggView<T>,
    depth: DepthView<T>,
    weights: Seq<T>,
)
    requires
        exact(v),
        sane_book(v, top),
        sane_window(v, long),
    ensures
        is_contrast(
            v(raw_factors(top, tick, short, long, depth, weights)[15]),
            seconds_left(v(top.bids[0].qty), v(long.cancel_bid[0]) + v(long.exec_bid[0])),
            seconds_left(v(top.asks[0].qty), v(long.cancel_ask[0]) + v(long.exec_ask[0])),
        ),
{
    let (b, a) = (top.bids[0].qty, top.asks[0].qty);
    assert(v(top.bids[0].qty) >= 0 as real && v(top.asks[0].qty) >= 0 as real);
    assert(v(long.cancel_bid[0]) >= 0 as real && v(long.exec_bid[0]) >= 0 as real);
    assert(v(long.cancel_ask[0]) >= 0 as real && v(long.exec_ask[0]) >= 0 as real);
    lemma_exhaust(v, b, long.cancel_bid[0], long.exec_bid[0]);
    lemma_exhaust(v, a, long.cancel_ask[0], long.exec_ask[0]);
    lemma_contrast(
        v,
        exhaust_time(b, long.cancel_bid[0], long.exec_bid[0]),
        exhaust_time(a, long.cancel_ask[0], long.exec_ask[0]),
    );
}

/// Event-count imbalance: how many events pushed up against how many pushed
/// down, as long as the counts do not wrap around.
pub proof fn lemma_events<T: Real>(
    v: Reading<T>,
    top: TopView<T>,
    tick: T,
    short: AggView<T>,
    long: AggView<T>,
    depth: DepthView<T>,
    weights: Seq<T>,
)
    requires
        exact(v),
        short.n_add_bid + short.n_cancel_ask + short.n_exec_ask <= u32::MAX,
        short.n_add_ask + short.n_cancel_bid + short.n_exec_bid <= u32::MAX,
    ensures
        is_contrast(
            v(raw_factors(top, tick, short, long, depth, weights)[16]),
            (short.n_add_bid + short.n_cancel_ask + short.n_exec_ask) as real,
            (short.n_add_ask + short.n_cancel_bid + short.n_exec_bid) as real,
        ),
{
    let up = short.n_add_bid + short.n_cancel_ask + short.n_exec_ask;
    let down = short.n_add_ask + short.n_cancel_bid + short.n_exec_bid;
    lemma_count(v, up);
    lemma_count(v, down);
    lemma_contrast(v, count_spec::<T>(up), count_spec::<T>(down));
}

/// The weights of the levels add up to one, and are to each other as the decays.
pub proof fn lemma_weights<T: Real>(v: Reading<T>, decays: Seq<T>, i: int, j: int)
    requires
        exact(v),
        decays.len() == MODEL_LEVELS,
        summed(read(v, decays)) != 0 as real,
        0 <= i < MODEL_LEVELS,
        0 <= j < MODEL_LEVELS,
    ensures
        summed(read(v, level_weights_spec(decays))) == 1 as real,
        v(level_weights_spec(decays)[i]) * v(decays[j]) == v(level_weights_spec(decays)[j]) * v(
            decays[i],
        ),
{
    lemma_constants(v);
    let n = MODEL_LEVELS as int;
    let w = level_weights_spec(decays);
    let all = sum_of(decays);
    let s = summed(read(v, decays));
    lemma_accumulate(v, zero_spec(), decays);
    let back = read(v, decays);
    assert forall|k: int| 0 <= k < n implies #[trigger] back(k) == s * read(v, w)(k) by {
        lemma_over(v, decays[k], all);
        let (a, b) = (v(w[k]), s);
        assert(a * b == b * a) by (nonlinear_arith);
    }
    lemma_sum_scaled(s, read(v, w), back, n);
    let t = summed(read(v, w));
    assert(t == 1 as real) by (nonlinear_arith)
        requires
            s == s * t,
            s != 0 as real,
    ;
    lemma_over(v, decays[i], all);
    lemma_over(v, decays[j], all);
    let (wi, wj, di, dj) = (v(w[i]), v(w[j]), v(decays[i]), v(decays[j]));
    assert(wi * dj == wj * di) by (nonlinear_arith)
        requires
            wi * s == di,
            wj * s == dj,
    ;
}

} // verus!
