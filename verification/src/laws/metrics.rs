//! What the metrics say of predictions and outcomes, in real numbers.
use vstd::prelude::*;

#[allow(unused_imports)]
use crate::laws::arithmetic::{
    lemma_cancel, lemma_not_zero, lemma_product_sign, lemma_product_squared, lemma_regroup,
    lemma_same_square, lemma_spread_out, lemma_spread_step, lemma_square_not_negative,
    lemma_sum_squared, lemma_swap, lemma_times_one, lemma_times_zero,
};
#[allow(unused_imports)]
use crate::number::{accumulate, count_spec, finite_spec, larger_spec, zero_spec, Real};
#[allow(unused_imports)]
use crate::reals::{
    big_sum, exact, fraction, lemma_constants, lemma_count, lemma_divide, lemma_ops, lemma_ratio,
    lemma_root, lemma_sign, lemma_sum_not_negative, lemma_sum_same, size, Reading,
};
#[allow(unused_imports)]
use crate::storage::{
    bucket_from, bucket_mean, edge_spec, hit_spec, in_bucket, means_up_to, measures, outcomes,
    valid_pairs, BucketMean, HorizonMetrics, MetricAcc, BUCKETS,
};
#[allow(unused_imports)]
use crate::types::Horizon;

verus! {

/// A prediction and what came of it, as far as they are there.
pub type Pair<T> = (Option<T>, Option<T>);

/// What a pair counts for; nothing unless both are there.
pub open spec fn at<T>(v: Reading<T>, pair: Pair<T>, f: spec_fn(real, real) -> real) -> real {
    match pair {
        (Some(p), Some(a)) => f(v(p), v(a)),
        _ => 0 as real,
    }
}

/// What all pairs count for.
pub open spec fn of_pairs<T>(
    v: Reading<T>,
    pairs: Seq<Pair<T>>,
    f: spec_fn(real, real) -> real,
) -> real {
    big_sum(|i: int| at(v, pairs[i], f), pairs.len() as int)
}

proof fn lemma_step<T>(v: Reading<T>, pairs: Seq<Pair<T>>, f: spec_fn(real, real) -> real)
    requires
        pairs.len() > 0,
    ensures
        of_pairs(v, pairs, f) == of_pairs(v, pairs.drop_last(), f) + at(v, pairs.last(), f),
{
    let front = pairs.drop_last();
    let g = |i: int| at(v, pairs[i], f);
    let h = |i: int| at(v, front[i], f);
    lemma_sum_same(g, h, front.len() as int);
}

/// One.
pub open spec fn one_each() -> spec_fn(real, real) -> real {
    |p: real, a: real| 1 as real
}

/// The prediction.
pub open spec fn predicted() -> spec_fn(real, real) -> real {
    |p: real, a: real| p
}

/// The outcome.
pub open spec fn came() -> spec_fn(real, real) -> real {
    |p: real, a: real| a
}

/// The prediction times itself.
pub open spec fn predicted_squared() -> spec_fn(real, real) -> real {
    |p: real, a: real| p * p
}

/// The outcome times itself.
pub open spec fn came_squared() -> spec_fn(real, real) -> real {
    |p: real, a: real| a * a
}

/// The prediction times the outcome.
pub open spec fn both_times() -> spec_fn(real, real) -> real {
    |p: real, a: real| p * a
}

/// How far the prediction is off.
pub open spec fn off() -> spec_fn(real, real) -> real {
    |p: real, a: real| size(p - a)
}

/// How far the prediction is off, times itself.
pub open spec fn off_squared() -> spec_fn(real, real) -> real {
    |p: real, a: real| (p - a) * (p - a)
}

/// One where the price moved and the prediction says a direction.
pub open spec fn pointed(t: real) -> spec_fn(real, real) -> real {
    |p: real, a: real|
        if a != 0 as real && size(p) >= t {
            1 as real
        } else {
            0 as real
        }
}

/// One where the direction is the right one, too.
pub open spec fn pointed_right(t: real) -> spec_fn(real, real) -> real {
    |p: real, a: real|
        if a != 0 as real && size(p) >= t && (p < 0 as real <==> a < 0 as real) {
            1 as real
        } else {
            0 as real
        }
}

/// How many pairs are valid.
pub open spec fn many<T>(v: Reading<T>, pairs: Seq<Pair<T>>) -> real {
    of_pairs(v, pairs, one_each())
}

/// `n` times the sum of the products less the product of the sums: above zero
/// where predictions and outcomes go together, below zero where they oppose.
pub open spec fn together<T>(v: Reading<T>, pairs: Seq<Pair<T>>) -> real {
    many(v, pairs) * of_pairs(v, pairs, both_times()) - of_pairs(v, pairs, predicted()) * of_pairs(
        v,
        pairs,
        came(),
    )
}

/// How much the predictions vary.
pub open spec fn predicted_spread<T>(v: Reading<T>, pairs: Seq<Pair<T>>) -> real {
    many(v, pairs) * of_pairs(v, pairs, predicted_squared()) - of_pairs(v, pairs, predicted())
        * of_pairs(v, pairs, predicted())
}

/// How much the outcomes vary.
pub open spec fn came_spread<T>(v: Reading<T>, pairs: Seq<Pair<T>>) -> real {
    many(v, pairs) * of_pairs(v, pairs, came_squared()) - of_pairs(v, pairs, came()) * of_pairs(
        v,
        pairs,
        came(),
    )
}

/// The sums that metrics are made from.
proof fn lemma_sums<T: Real>(v: Reading<T>, pairs: Seq<Pair<T>>, thresh: T)
    requires
        exact(v),
        pairs.len() <= i64::MAX,
    ensures
        ({
            let acc = MetricAcc::over(pairs, thresh);
            &&& acc.n_total == pairs.len()
            &&& acc.n_valid as real == many(v, pairs)
            &&& v(acc.sum_p) == of_pairs(v, pairs, predicted())
            &&& v(acc.sum_a) == of_pairs(v, pairs, came())
            &&& v(acc.sum_pp) == of_pairs(v, pairs, predicted_squared())
            &&& v(acc.sum_aa) == of_pairs(v, pairs, came_squared())
            &&& v(acc.sum_pa) == of_pairs(v, pairs, both_times())
            &&& v(acc.sum_abs) == of_pairs(v, pairs, off())
            &&& v(acc.sum_sq) == of_pairs(v, pairs, off_squared())
            &&& acc.dir_n as real == of_pairs(v, pairs, pointed(v(thresh)))
            &&& acc.dir_hits as real == of_pairs(v, pairs, pointed_right(v(thresh)))
            &&& acc.wf()
        }),
    decreases pairs.len(),
{
    lemma_constants(v);
    MetricAcc::<T>::lemma_over_wf(pairs, thresh);
    if pairs.len() > 0 {
        let front = pairs.drop_last();
        lemma_sums(v, front, thresh);
        let before = MetricAcc::over(front, thresh);
        let t = v(thresh);
        lemma_step(v, pairs, one_each());
        lemma_step(v, pairs, predicted());
        lemma_step(v, pairs, came());
        lemma_step(v, pairs, predicted_squared());
        lemma_step(v, pairs, came_squared());
        lemma_step(v, pairs, both_times());
        lemma_step(v, pairs, off());
        lemma_step(v, pairs, off_squared());
        lemma_step(v, pairs, pointed(t));
        lemma_step(v, pairs, pointed_right(t));
        match pairs.last() {
            (Some(p), Some(a)) => {
                let d = p.minus_spec(a);
                lemma_ops(v, p, a);
                lemma_ops(v, p, p);
                lemma_ops(v, a, a);
                lemma_ops(v, d, d);
                lemma_ops(v, before.sum_p, p);
                lemma_ops(v, before.sum_a, a);
                lemma_ops(v, before.sum_pp, p.times_spec(p));
                lemma_ops(v, before.sum_aa, a.times_spec(a));
                lemma_ops(v, before.sum_pa, p.times_spec(a));
                lemma_ops(v, before.sum_abs, d.magnitude_spec());
                lemma_ops(v, before.sum_sq, d.times_spec(d));
                lemma_ops(v, thresh, p.magnitude_spec());
                lemma_ops(v, a, zero_spec::<T>());
                lemma_ops(v, zero_spec::<T>(), a);
                lemma_sign(v, p);
                lemma_sign(v, a);
            },
            _ => {},
        }
    }
}

/// The number of stored predictions, of those with an outcome, of those that say
/// a direction and of those that say the right one.
pub proof fn lemma_counts<T: Real>(
    v: Reading<T>,
    m: HorizonMetrics<T>,
    pairs: Seq<Pair<T>>,
    h: Horizon,
    thresh: T,
)
    requires
        exact(v),
        pairs.len() <= i64::MAX,
        m.sums_up(MetricAcc::over(pairs, thresh), h),
    ensures
        m.n_total == pairs.len(),
        m.n_valid as real == many(v, pairs),
        m.dir_n as real == of_pairs(v, pairs, pointed(v(thresh))),
        m.dir_hits as real == of_pairs(v, pairs, pointed_right(v(thresh))),
{
    lemma_sums(v, pairs, thresh);
}

/// Whether one prediction is a hit is told in the way in which the metrics count
/// hits: where the price moved and the prediction says a direction.
pub proof fn lemma_hit<T: Real>(v: Reading<T>, p: T, a: T, thresh: T)
    requires
        exact(v),
    ensures
        hit_spec(p, a, thresh) is Some <==> v(a) != 0 as real && size(v(p)) >= v(thresh),
        hit_spec(p, a, thresh) is Some ==> (hit_spec(p, a, thresh) == Some(true) <==> (v(p)
            < 0 as real <==> v(a) < 0 as real)),
        pointed(v(thresh))(v(p), v(a)) == if hit_spec(p, a, thresh) is Some {
            1 as real
        } else {
            0 as real
        },
        pointed_right(v(thresh))(v(p), v(a)) == if hit_spec(p, a, thresh) == Some(true) {
            1 as real
        } else {
            0 as real
        },
{
    lemma_constants(v);
    lemma_ops(v, a, zero_spec::<T>());
    lemma_ops(v, zero_spec::<T>(), a);
    lemma_ops(v, p, p);
    lemma_ops(v, a, a);
    lemma_ops(v, p.magnitude_spec(), thresh);
    lemma_sign(v, p);
    lemma_sign(v, a);
}

/// Coverage is the part of all predictions that have an outcome; the direction
/// is right in a part of those that say one.
pub proof fn lemma_parts<T: Real>(
    v: Reading<T>,
    m: HorizonMetrics<T>,
    pairs: Seq<Pair<T>>,
    h: Horizon,
    thresh: T,
)
    requires
        exact(v),
        pairs.len() <= i64::MAX,
        m.sums_up(MetricAcc::over(pairs, thresh), h),
    ensures
        v(m.coverage) * (pairs.len() as real) == many(v, pairs),
        pairs.len() == 0 ==> v(m.coverage) == 0 as real,
        m.dir_acc is None <==> of_pairs(v, pairs, pointed(v(thresh))) == 0 as real,
        m.dir_acc is Some ==> v(m.dir_acc->0) * of_pairs(v, pairs, pointed(v(thresh))) == of_pairs(
            v,
            pairs,
            pointed_right(v(thresh)),
        ),
{
    lemma_sums(v, pairs, thresh);
    lemma_constants(v);
    let acc = MetricAcc::over(pairs, thresh);
    lemma_count(v, acc.n_valid as int);
    lemma_count(v, acc.n_total as int);
    lemma_count(v, acc.dir_n as int);
    lemma_count(v, acc.dir_hits as int);
    lemma_ops(v, count_spec::<T>(acc.n_valid as int), count_spec::<T>(acc.n_total as int));
    lemma_ops(v, count_spec::<T>(acc.dir_hits as int), count_spec::<T>(acc.dir_n as int));
    if acc.n_total != 0 {
        lemma_divide(acc.n_valid as real, acc.n_total as real);
    } else {
        lemma_times_zero(v(m.coverage));
    }
    if acc.dir_n != 0 {
        lemma_divide(acc.dir_hits as real, acc.dir_n as real);
    }
}

/// The mean error times the number of errors is the sum of the errors; the
/// squared errors are likewise summed up by the other one, which is a root.
pub proof fn lemma_errors<T: Real>(
    v: Reading<T>,
    m: HorizonMetrics<T>,
    pairs: Seq<Pair<T>>,
    h: Horizon,
    thresh: T,
)
    requires
        exact(v),
        pairs.len() <= i64::MAX,
        m.sums_up(MetricAcc::over(pairs, thresh), h),
    ensures
        m.mae is None <==> many(v, pairs) == 0 as real,
        m.rmse is None <==> many(v, pairs) == 0 as real,
        m.mae is Some ==> v(m.mae->0) * many(v, pairs) == of_pairs(v, pairs, off()),
        m.rmse is Some ==> v(m.rmse->0) >= 0 as real && v(m.rmse->0) * v(m.rmse->0) * many(
            v,
            pairs,
        ) == of_pairs(v, pairs, off_squared()),
{
    lemma_sums(v, pairs, thresh);
    let acc = MetricAcc::over(pairs, thresh);
    if acc.n_valid != 0 {
        let n = acc.n_valid as real;
        let k = count_spec::<T>(acc.n_valid as int);
        lemma_count(v, acc.n_valid as int);
        lemma_ops(v, acc.sum_abs, k);
        lemma_ops(v, acc.sum_sq, k);
        lemma_divide(v(acc.sum_abs), n);
        lemma_divide(v(acc.sum_sq), n);
        let g = |i: int| at(v, pairs[i], off_squared());
        assert forall|i: int| 0 <= i < pairs.len() implies #[trigger] g(i) >= 0 as real by {
            match pairs[i] {
                (Some(p), Some(a)) => {
                    lemma_square_not_negative(v(p) - v(a));
                },
                _ => {},
            }
        }
        lemma_sum_not_negative(g, pairs.len() as int);
        let (s, q) = (v(acc.sum_sq), v(acc.sum_sq.over_spec(k)));
        lemma_product_sign(q, n);
        lemma_root(v, acc.sum_sq.over_spec(k));
    }
}

/// A sum of one kind and the sum of its squares: `n` times the squares are not
/// less than the sum times itself.
proof fn lemma_spread_not_negative<T>(
    v: Reading<T>,
    pairs: Seq<Pair<T>>,
    f: spec_fn(real, real) -> real,
    ff: spec_fn(real, real) -> real,
)
    requires
        forall|p: real, a: real| #[trigger] ff(p, a) == f(p, a) * f(p, a),
    ensures
        many(v, pairs) >= 0 as real,
        many(v, pairs) * of_pairs(v, pairs, ff) - of_pairs(v, pairs, f) * of_pairs(v, pairs, f)
            >= 0 as real,
        many(v, pairs) == 0 as real ==> of_pairs(v, pairs, f) == 0 as real && of_pairs(
            v,
            pairs,
            ff,
        ) == 0 as real,
    decreases pairs.len(),
{
    if pairs.len() > 0 {
        let front = pairs.drop_last();
        lemma_spread_not_negative(v, front, f, ff);
        lemma_step(v, pairs, one_each());
        lemma_step(v, pairs, f);
        lemma_step(v, pairs, ff);
        match pairs.last() {
            (Some(p), Some(a)) => {
                assert(ff(v(p), v(a)) == f(v(p), v(a)) * f(v(p), v(a)));
                lemma_spread_step(
                    many(v, front),
                    of_pairs(v, front, f),
                    of_pairs(v, front, ff),
                    f(v(p), v(a)),
                );
            },
            _ => {},
        }
    } else {
        lemma_times_zero(0 as real);
    }
}

/// Neither spread is below zero.
proof fn lemma_spreads<T>(v: Reading<T>, pairs: Seq<Pair<T>>)
    ensures
        predicted_spread(v, pairs) >= 0 as real,
        came_spread(v, pairs) >= 0 as real,
{
    lemma_spread_not_negative(v, pairs, predicted(), predicted_squared());
    lemma_spread_not_negative(v, pairs, came(), came_squared());
}

/// `x` times the prediction and `y` times the outcome.
pub open spec fn mixed(x: real, y: real) -> spec_fn(real, real) -> real {
    |p: real, a: real| x * p + y * a
}

/// That, times itself.
pub open spec fn mixed_squared(x: real, y: real) -> spec_fn(real, real) -> real {
    |p: real, a: real| (x * p + y * a) * (x * p + y * a)
}

proof fn lemma_mixed<T>(v: Reading<T>, pairs: Seq<Pair<T>>, x: real, y: real)
    ensures
        of_pairs(v, pairs, mixed(x, y)) == x * of_pairs(v, pairs, predicted()) + y * of_pairs(
            v,
            pairs,
            came(),
        ),
        of_pairs(v, pairs, mixed_squared(x, y)) == (x * x) * of_pairs(
            v,
            pairs,
            predicted_squared(),
        ) + 2 as real * ((x * y) * of_pairs(v, pairs, both_times())) + (y * y) * of_pairs(
            v,
            pairs,
            came_squared(),
        ),
    decreases pairs.len(),
{
    let (xx, xy, yy) = (x * x, x * y, y * y);
    if pairs.len() > 0 {
        let front = pairs.drop_last();
        lemma_mixed(v, front, x, y);
        lemma_step(v, pairs, mixed(x, y));
        lemma_step(v, pairs, mixed_squared(x, y));
        lemma_step(v, pairs, predicted());
        lemma_step(v, pairs, came());
        lemma_step(v, pairs, predicted_squared());
        lemma_step(v, pairs, both_times());
        lemma_step(v, pairs, came_squared());
        match pairs.last() {
            (Some(pp), Some(aa)) => {
                let (p, a) = (v(pp), v(aa));
                lemma_sum_squared(x * p, y * a);
                lemma_product_squared(x, p);
                lemma_product_squared(y, a);
                lemma_regroup(x, p, y * a);
                lemma_regroup(p, y, a);
                lemma_regroup(x, y, p * a);
                lemma_spread_out(x, of_pairs(v, front, predicted()), p);
                lemma_spread_out(y, of_pairs(v, front, came()), a);
                lemma_spread_out(xx, of_pairs(v, front, predicted_squared()), p * p);
                lemma_spread_out(xy, of_pairs(v, front, both_times()), p * a);
                lemma_spread_out(yy, of_pairs(v, front, came_squared()), a * a);
            },
            _ => {},
        }
    } else {
        lemma_times_zero(x);
        lemma_times_zero(y);
        lemma_times_zero(xx);
        lemma_times_zero(xy);
        lemma_times_zero(yy);
    }
}

/// What goes together is bounded by both spreads.
proof fn lemma_bounded<T>(v: Reading<T>, pairs: Seq<Pair<T>>)
    requires
        came_spread(v, pairs) > 0 as real,
    ensures
        together(v, pairs) * together(v, pairs) <= predicted_spread(v, pairs) * came_spread(
            v,
            pairs,
        ),
{
    let n = many(v, pairs);
    let sp = of_pairs(v, pairs, predicted());
    let sa = of_pairs(v, pairs, came());
    let spp = of_pairs(v, pairs, predicted_squared());
    let saa = of_pairs(v, pairs, came_squared());
    let spa = of_pairs(v, pairs, both_times());
    let (vp, va, c) = (
        predicted_spread(v, pairs),
        came_spread(v, pairs),
        together(v, pairs),
    );
    let (x, y) = (va, -c);
    lemma_mixed(v, pairs, x, y);
    lemma_spread_not_negative(v, pairs, mixed(x, y), mixed_squared(x, y));
    let (xx, xy, yy) = (x * x, x * y, y * y);
    // `n` times the squares, less the square of the sum.
    lemma_spread_out(n, xx * spp + 2 as real * (xy * spa), yy * saa);
    lemma_spread_out(n, xx * spp, 2 as real * (xy * spa));
    lemma_regroup(n, xx, spp);
    lemma_regroup(n, 2 as real, xy * spa);
    lemma_regroup(n, xy, spa);
    lemma_regroup(n, yy, saa);
    lemma_sum_squared(x * sp, y * sa);
    lemma_product_squared(x, sp);
    lemma_product_squared(y, sa);
    lemma_regroup(x, sp, y * sa);
    lemma_regroup(sp, y, sa);
    lemma_regroup(x, y, sp * sa);
    lemma_spread_out(xx, n * spp, sp * sp);
    lemma_spread_out(xy, n * spa, sp * sa);
    lemma_spread_out(yy, n * saa, sa * sa);
    assert(xx * vp + 2 as real * (xy * c) + yy * va >= 0 as real);
    // That is `va` times what is left of the bound.
    lemma_regroup(va, va, vp);
    lemma_swap(va, vp);
    lemma_swap(va, c);
    lemma_regroup(va, -c, c);
    lemma_swap(c, c);
    lemma_swap(c, -c);
    lemma_swap(-c, c);
    lemma_swap(c * c, va);
    assert(yy == c * c);
    assert((-c) * c == -(c * c));
    lemma_swap(va, c * c);
    assert(xy * c == -(va * (c * c)));
    lemma_spread_out(va, vp * va, c * c);
    let d = vp * va - c * c;
    assert(va * d >= 0 as real);
    if d < 0 as real {
        lemma_product_sign(d, va);
        lemma_swap(d, va);
    }
}

/// How the correlation comes from what goes together and from both spreads.
proof fn lemma_ic_value<T: Real>(v: Reading<T>, pairs: Seq<Pair<T>>, thresh: T)
    requires
        exact(v),
        pairs.len() <= i64::MAX,
    ensures
        ({
            let ic = MetricAcc::over(pairs, thresh).ic_spec();
            let (n, c) = (many(v, pairs), together(v, pairs));
            let (vp, va) = (predicted_spread(v, pairs), came_spread(v, pairs));
            &&& ic is None <==> n < 2 as real || vp == 0 as real || va == 0 as real
            &&& ic is Some ==> is_correlation(v(ic->0), c, vp, va)
        }),
{
    lemma_sums(v, pairs, thresh);
    lemma_constants(v);
    let acc = MetricAcc::over(pairs, thresh);
    let (n, c) = (many(v, pairs), together(v, pairs));
    let (vp, va) = (predicted_spread(v, pairs), came_spread(v, pairs));
    if acc.n_valid >= 2 {
        lemma_spreads(v, pairs);
        let k = count_spec::<T>(acc.n_valid as int);
        lemma_count(v, acc.n_valid as int);
        lemma_ops(v, k, acc.sum_pa);
        lemma_ops(v, acc.sum_p, acc.sum_a);
        lemma_ops(v, k.times_spec(acc.sum_pa), acc.sum_p.times_spec(acc.sum_a));
        lemma_ops(v, k, acc.sum_pp);
        lemma_ops(v, acc.sum_p, acc.sum_p);
        lemma_ops(v, k.times_spec(acc.sum_pp), acc.sum_p.times_spec(acc.sum_p));
        lemma_ops(v, k, acc.sum_aa);
        lemma_ops(v, acc.sum_a, acc.sum_a);
        lemma_ops(v, k.times_spec(acc.sum_aa), acc.sum_a.times_spec(acc.sum_a));
        let num = k.times_spec(acc.sum_pa).minus_spec(acc.sum_p.times_spec(acc.sum_a));
        let up = k.times_spec(acc.sum_pp).minus_spec(acc.sum_p.times_spec(acc.sum_p));
        let ua = k.times_spec(acc.sum_aa).minus_spec(acc.sum_a.times_spec(acc.sum_a));
        let z = zero_spec::<T>();
        lemma_ops(v, up, up);
        lemma_ops(v, ua, ua);
        lemma_ops(v, z, z);
        lemma_ops(v, up, z);
        lemma_ops(v, ua, z);
        assert(larger_spec(up, z) == up && larger_spec(ua, z) == ua);
        lemma_ops(v, up, ua);
        let prod = up.times_spec(ua);
        lemma_times_zero(vp);
        lemma_times_zero(va);
        if va > 0 as real {
            lemma_product_sign(vp, va);
        }
        lemma_root(v, prod);
        let den = prod.root_spec();
        lemma_ops(v, den, z);
        lemma_ops(v, z, den);
        lemma_ops(v, num, den);
        let d = v(den);
        if d == 0 as real {
            lemma_times_zero(d);
            if vp != 0 as real && va != 0 as real {
                lemma_not_zero(vp, va);
            }
        } else {
            lemma_square_not_negative(d);
            lemma_divide(v(num), d);
            let r = v(num.over_spec(den));
            lemma_product_sign(r, d);
            lemma_product_squared(r, d);
            lemma_times_zero(vp);
            lemma_bounded(v, pairs);
            let (rr, q) = (r * r, vp * va);
            if rr > 1 as real {
                lemma_product_sign(rr - 1 as real, q);
                lemma_spread_out(q, rr, 1 as real);
                lemma_swap(q, rr);
                lemma_swap(q, rr - 1 as real);
                lemma_times_one(q);
            }
            lemma_within_one(r);
        }
    }
}

/// Is `r` the correlation: with the sign of what goes together, and from minus
/// one to one by how much of the spreads that is?
pub open spec fn is_correlation(r: real, c: real, vp: real, va: real) -> bool {
    &&& (r * r) * (vp * va) == c * c
    &&& r < 0 as real <==> c < 0 as real
    &&& r > 0 as real <==> c > 0 as real
    &&& -(1 as real) <= r <= 1 as real
}

/// A number whose square is at most one lies between minus one and one.
proof fn lemma_within_one(r: real)
    requires
        r * r <= 1 as real,
    ensures
        -(1 as real) <= r <= 1 as real,
{
    if r > 1 as real {
        lemma_product_sign(r - 1 as real, r);
        lemma_spread_out(r, r, 1 as real);
        lemma_swap(r - 1 as real, r);
        lemma_times_one(r);
    }
    if r < -(1 as real) {
        let m = -r;
        lemma_product_sign(m - 1 as real, m);
        lemma_spread_out(m, m, 1 as real);
        lemma_swap(m - 1 as real, m);
        lemma_times_one(m);
        lemma_swap(r, r);
        lemma_swap(m, r);
        lemma_swap(r, m);
    }
}

/// The correlation has the sign of what goes together, lies between minus one
/// and one, and is there as soon as two or more predictions vary and their
/// outcomes do.
pub proof fn lemma_ic<T: Real>(
    v: Reading<T>,
    m: HorizonMetrics<T>,
    pairs: Seq<Pair<T>>,
    h: Horizon,
    thresh: T,
)
    requires
        exact(v),
        pairs.len() <= i64::MAX,
        m.sums_up(MetricAcc::over(pairs, thresh), h),
    ensures
        m.ic is None <==> many(v, pairs) < 2 as real || predicted_spread(v, pairs) == 0 as real
            || came_spread(v, pairs) == 0 as real,
        m.ic is Some ==> is_correlation(
            v(m.ic->0),
            together(v, pairs),
            predicted_spread(v, pairs),
            came_spread(v, pairs),
        ),
{
    lemma_ic_value(v, pairs, thresh);
}

/// Are these the same outcomes with predictions that are `x` times as large and
/// shifted by `y`?
pub open spec fn moved<T>(
    v: Reading<T>,
    pairs: Seq<Pair<T>>,
    others: Seq<Pair<T>>,
    x: real,
    y: real,
) -> bool {
    &&& others.len() == pairs.len()
    &&& forall|i: int|
        0 <= i < pairs.len() ==> match (#[trigger] pairs[i], others[i]) {
            ((Some(p), Some(a)), (Some(q), Some(b))) => v(q) == x * v(p) + y && v(b) == v(a),
            ((Some(_), Some(_)), _) => false,
            (_, (Some(_), Some(_))) => false,
            _ => true,
        }
}

proof fn lemma_moved_sums<T>(
    v: Reading<T>,
    pairs: Seq<Pair<T>>,
    others: Seq<Pair<T>>,
    x: real,
    y: real,
)
    requires
        moved(v, pairs, others, x, y),
    ensures
        many(v, others) == many(v, pairs),
        of_pairs(v, others, came()) == of_pairs(v, pairs, came()),
        of_pairs(v, others, came_squared()) == of_pairs(v, pairs, came_squared()),
        of_pairs(v, others, predicted()) == x * of_pairs(v, pairs, predicted()) + y * many(v, pairs),
        of_pairs(v, others, both_times()) == x * of_pairs(v, pairs, both_times()) + y * of_pairs(
            v,
            pairs,
            came(),
        ),
        of_pairs(v, others, predicted_squared()) == (x * x) * of_pairs(
            v,
            pairs,
            predicted_squared(),
        ) + (2 as real * x * y) * of_pairs(v, pairs, predicted()) + (y * y) * many(v, pairs),
    decreases pairs.len(),
{
    let (xx, xy, yy) = (x * x, 2 as real * x * y, y * y);
    if pairs.len() > 0 {
        let front = pairs.drop_last();
        let rest = others.drop_last();
        assert(moved(v, front, rest, x, y)) by {
            assert forall|i: int| 0 <= i < front.len() implies match (#[trigger] front[i], rest[i]) {
                ((Some(p), Some(a)), (Some(q), Some(b))) => v(q) == x * v(p) + y && v(b) == v(a),
                ((Some(_), Some(_)), _) => false,
                (_, (Some(_), Some(_))) => false,
                _ => true,
            } by {
                assert(front[i] == pairs[i]);
            }
        }
        lemma_moved_sums(v, front, rest, x, y);
        lemma_step(v, pairs, one_each());
        lemma_step(v, pairs, came());
        lemma_step(v, pairs, came_squared());
        lemma_step(v, pairs, predicted());
        lemma_step(v, pairs, both_times());
        lemma_step(v, pairs, predicted_squared());
        lemma_step(v, others, one_each());
        lemma_step(v, others, came());
        lemma_step(v, others, came_squared());
        lemma_step(v, others, predicted());
        lemma_step(v, others, both_times());
        lemma_step(v, others, predicted_squared());
        assert(pairs[pairs.len() - 1] == pairs.last());
        match (pairs.last(), others.last()) {
            ((Some(pp), Some(aa)), (Some(qq), Some(_))) => {
                let (p, a, q) = (v(pp), v(aa), v(qq));
                lemma_spread_out(a, x * p, y);
                lemma_regroup(x, p, a);
                lemma_sum_squared(x * p, y);
                lemma_product_squared(x, p);
                lemma_regroup(2 as real * x, y, p);
                lemma_regroup(2 as real, x, y * p);
                lemma_regroup(x, p, y);
                lemma_swap(y, p);
                lemma_times_one(yy);
                lemma_times_one(y);
                lemma_spread_out(x, of_pairs(v, front, predicted()), p);
                lemma_spread_out(y, many(v, front), 1 as real);
                lemma_spread_out(x, of_pairs(v, front, both_times()), p * a);
                lemma_spread_out(y, of_pairs(v, front, came()), a);
                lemma_spread_out(xx, of_pairs(v, front, predicted_squared()), p * p);
                lemma_spread_out(xy, of_pairs(v, front, predicted()), p);
                lemma_spread_out(yy, many(v, front), 1 as real);
            },
            _ => {},
        }
    } else {
        lemma_times_zero(x);
        lemma_times_zero(y);
        lemma_times_zero(xx);
        lemma_times_zero(xy);
        lemma_times_zero(yy);
    }
}

proof fn lemma_moved_spreads<T>(
    v: Reading<T>,
    pairs: Seq<Pair<T>>,
    others: Seq<Pair<T>>,
    x: real,
    y: real,
)
    requires
        moved(v, pairs, others, x, y),
    ensures
        together(v, others) == x * together(v, pairs),
        predicted_spread(v, others) == (x * x) * predicted_spread(v, pairs),
        came_spread(v, others) == came_spread(v, pairs),
{
    lemma_moved_sums(v, pairs, others, x, y);
    let n = many(v, pairs);
    let sp = of_pairs(v, pairs, predicted());
    let sa = of_pairs(v, pairs, came());
    let spp = of_pairs(v, pairs, predicted_squared());
    let spa = of_pairs(v, pairs, both_times());
    let tp = of_pairs(v, others, predicted());
    let tpp = of_pairs(v, others, predicted_squared());
    let tpa = of_pairs(v, others, both_times());
    let (xx, yy) = (x * x, y * y);
    lemma_spread_out(n, x * spa, y * sa);
    lemma_regroup(n, x, spa);
    lemma_regroup(n, y, sa);
    lemma_spread_out(sa, x * sp, y * n);
    lemma_regroup(x, sp, sa);
    lemma_regroup(y, n, sa);
    lemma_spread_out(x, n * spa, sp * sa);
    lemma_sum_squared(x * sp, y * n);
    lemma_product_squared(x, sp);
    lemma_product_squared(y, n);
    lemma_spread_out(n, xx * spp + (2 as real * x * y) * sp, yy * n);
    lemma_spread_out(n, xx * spp, (2 as real * x * y) * sp);
    lemma_regroup(n, xx, spp);
    lemma_regroup(n, yy, n);
    lemma_spread_out(xx, n * spp, sp * sp);
    assert(n * ((2 as real * x * y) * sp) == 2 as real * ((x * sp) * (y * n))) by {
        lemma_regroup(2 as real * x, y, sp);
        lemma_regroup(2 as real, x, y * sp);
        lemma_regroup(n, 2 as real, x * (y * sp));
        lemma_regroup(x, sp, y * n);
        lemma_regroup(sp, y, n);
        lemma_regroup(n, x, y * sp);
        lemma_regroup(n, y, sp);
        lemma_swap(n, sp);
        lemma_regroup(y, sp, n);
    }
    assert(tp == x * sp + y * n && tpa == x * spa + y * sa && tpp == (x * x) * spp + (2 as real * x
        * y) * sp + (y * y) * n);
}

/// Predictions on another scale have the same correlation; on a scale that is
/// turned round, the opposite one. So does, above all, the negative of each
/// prediction.
pub proof fn lemma_ic_of_moved<T: Real>(
    v: Reading<T>,
    m: HorizonMetrics<T>,
    pairs: Seq<Pair<T>>,
    other: HorizonMetrics<T>,
    others: Seq<Pair<T>>,
    h: Horizon,
    thresh: T,
    x: real,
    y: real,
)
    requires
        exact(v),
        pairs.len() <= i64::MAX,
        m.sums_up(MetricAcc::over(pairs, thresh), h),
        other.sums_up(MetricAcc::over(others, thresh), h),
        moved(v, pairs, others, x, y),
        x != 0 as real,
    ensures
        m.ic is Some <==> other.ic is Some,
        m.ic is Some ==> v(other.ic->0) == if x > 0 as real {
            v(m.ic->0)
        } else {
            -v(m.ic->0)
        },
{
    lemma_ic_value(v, pairs, thresh);
    lemma_ic_value(v, others, thresh);
    lemma_moved_sums(v, pairs, others, x, y);
    lemma_moved_spreads(v, pairs, others, x, y);
    let (c, vp, va) = (together(v, pairs), predicted_spread(v, pairs), came_spread(v, pairs));
    let (e, vq) = (together(v, others), predicted_spread(v, others));
    lemma_square_not_negative(x);
    lemma_times_zero(x * x);
    if vp != 0 as real {
        lemma_not_zero(x * x, vp);
    }
    if m.ic is Some {
        let (r, s) = (v(m.ic->0), v(other.ic->0));
        lemma_same_size(r, s, c, e, vp, vq, va, x);
    }
}

proof fn lemma_same_size(
    r: real,
    s: real,
    c: real,
    e: real,
    vp: real,
    vq: real,
    va: real,
    x: real,
)
    requires
        is_correlation(r, c, vp, va),
        is_correlation(s, e, vq, va),
        e == x * c,
        vq == (x * x) * vp,
        x != 0 as real,
        vp != 0 as real,
        va != 0 as real,
    ensures
        s == if x > 0 as real {
            r
        } else {
            -r
        },
{
    let q = vp * va;
    let k = (x * x) * q;
    lemma_square_not_negative(x);
    lemma_not_zero(vp, va);
    lemma_not_zero(x * x, q);
    lemma_regroup(x * x, vp, va);
    lemma_product_squared(x, c);
    lemma_regroup(x * x, r * r, q);
    lemma_cancel(s * s, r * r, k);
    lemma_same_square(s, r);
    lemma_swap(c, x);
    if x > 0 as real {
        lemma_product_sign(c, x);
    } else {
        lemma_product_sign(c, -x);
    }
}

/// Are the predictions `x` times the outcomes, shifted by `y`?
pub open spec fn follows<T>(v: Reading<T>, pairs: Seq<Pair<T>>, x: real, y: real) -> bool {
    forall|i: int|
        0 <= i < pairs.len() ==> match #[trigger] pairs[i] {
            (Some(p), Some(a)) => v(p) == x * v(a) + y,
            _ => true,
        }
}

/// Predictions that follow the outcomes on a scale have a correlation of one;
/// on a scale that is turned round, of minus one.
pub proof fn lemma_ic_of_followers<T: Real>(
    v: Reading<T>,
    m: HorizonMetrics<T>,
    pairs: Seq<Pair<T>>,
    h: Horizon,
    thresh: T,
    x: real,
    y: real,
)
    requires
        exact(v),
        pairs.len() <= i64::MAX,
        m.sums_up(MetricAcc::over(pairs, thresh), h),
        follows(v, pairs, x, y),
        x != 0 as real,
        many(v, pairs) >= 2 as real,
        came_spread(v, pairs) != 0 as real,
    ensures
        m.ic is Some,
        v(m.ic->0) == if x > 0 as real {
            1 as real
        } else {
            -(1 as real)
        },
{
    // The outcomes themselves as predictions.
    let perfect = Seq::new(
        pairs.len(),
        |i: int|
            match pairs[i] {
                (Some(p), Some(a)) => (Some(a), Some(a)),
                _ => (None::<T>, None::<T>),
            },
    );
    assert(moved(v, perfect, pairs, x, y)) by {
        assert forall|i: int| 0 <= i < perfect.len() implies match (#[trigger] perfect[i], pairs[i]) {
            ((Some(p), Some(a)), (Some(q), Some(b))) => v(q) == x * v(p) + y && v(b) == v(a),
            ((Some(_), Some(_)), _) => false,
            (_, (Some(_), Some(_))) => false,
            _ => true,
        } by {
            assert(match pairs[i] {
                (Some(p), Some(a)) => v(p) == x * v(a) + y,
                _ => true,
            });
        }
    }
    lemma_moved_sums(v, perfect, pairs, x, y);
    lemma_moved_spreads(v, perfect, pairs, x, y);
    lemma_own(v, perfect);
    lemma_ic_value(v, pairs, thresh);
    let va = came_spread(v, pairs);
    let (c, vp) = (together(v, pairs), predicted_spread(v, pairs));
    lemma_square_not_negative(x);
    lemma_not_zero(x * x, va);
    let r = v(m.ic->0);
    lemma_spreads(v, pairs);
    let k = (x * va) * (x * va);
    lemma_not_zero(x, va);
    lemma_square_not_negative(x * va);
    lemma_regroup(x * x, va, va);
    lemma_product_squared(x, va);
    let one = 1 as real;
    lemma_times_one(k);
    lemma_times_one(one);
    lemma_cancel(r * r, one, k);
    lemma_same_square(r, one);
    lemma_product_sign(x, va);
}

/// Outcomes against themselves.
proof fn lemma_own<T>(v: Reading<T>, pairs: Seq<Pair<T>>)
    requires
        forall|i: int| 0 <= i < pairs.len() ==> (#[trigger] pairs[i]).0 == pairs[i].1,
    ensures
        together(v, pairs) == came_spread(v, pairs),
        predicted_spread(v, pairs) == came_spread(v, pairs),
{
    let n = pairs.len() as int;
    lemma_sum_same(
        |i: int| at(v, pairs[i], predicted()),
        |i: int| at(v, pairs[i], came()),
        n,
    );
    lemma_sum_same(
        |i: int| at(v, pairs[i], predicted_squared()),
        |i: int| at(v, pairs[i], came_squared()),
        n,
    );
    lemma_sum_same(
        |i: int| at(v, pairs[i], both_times()),
        |i: int| at(v, pairs[i], came_squared()),
        n,
    );
}

/// Where range `k` of predictions begins; the first one is open below, the last
/// one above.
pub open spec fn start_of(k: int) -> real {
    if k <= 1 {
        -fraction(1, 2)
    } else if k == 2 {
        -fraction(1, 10)
    } else if k == 3 {
        fraction(1, 10)
    } else {
        fraction(1, 2)
    }
}

/// Does a prediction lie in range `k`?
pub open spec fn in_range(p: real, k: int) -> bool {
    &&& k <= 0 || start_of(k) <= p
    &&& k >= 4 || p < start_of(k + 1)
}

/// One where the prediction lies in range `k`.
pub open spec fn counted_in(k: int) -> spec_fn(real, real) -> real {
    |p: real, a: real|
        if in_range(p, k) {
            1 as real
        } else {
            0 as real
        }
}

/// The outcome where the prediction lies in range `k`.
pub open spec fn came_in(k: int) -> spec_fn(real, real) -> real {
    |p: real, a: real|
        if in_range(p, k) {
            a
        } else {
            0 as real
        }
}

/// Are all predictions finite?
pub open spec fn all_finite<T: Real>(pairs: Seq<Pair<T>>) -> bool {
    forall|i: int|
        0 <= i < pairs.len() ==> match #[trigger] pairs[i] {
            (Some(p), Some(_)) => finite_spec(p),
            _ => true,
        }
}

proof fn lemma_edges()
    ensures
        fraction(-1, 2) == -fraction(1, 2),
        fraction(-1, 10) == -fraction(1, 10),
        fraction(1, 10) > 0 as real,
        fraction(1, 10) < fraction(1, 2),
{
    assert(fraction(-1, 2) == -fraction(1, 2)) by (nonlinear_arith);
    assert(fraction(-1, 10) == -fraction(1, 10)) by (nonlinear_arith);
    assert(fraction(1, 10) > 0 as real) by (nonlinear_arith);
    assert(fraction(1, 10) < fraction(1, 2)) by (nonlinear_arith);
}

proof fn lemma_place<T: Real>(v: Reading<T>, p: T, k: int)
    requires
        exact(v),
        finite_spec(p),
        0 <= k < BUCKETS,
    ensures
        bucket_from(p, 0) == k <==> in_range(v(p), k),
{
    lemma_constants(v);
    let inf = T::infinity_spec();
    lemma_ops(v, p.magnitude_spec(), inf);
    lemma_ops(v, p, p);
    lemma_ops(v, zero_spec::<T>(), inf);
    lemma_ratio(v, (-1) as i64, 2);
    lemma_ratio(v, (-1) as i64, 10);
    lemma_ratio(v, 1, 10);
    lemma_ratio(v, 1, 2);
    lemma_edges();
    reveal_with_fuel(bucket_from, 6);
    assert forall|i: int| 0 <= i < 5 implies #[trigger] in_bucket(p, i) == in_range(v(p), i) by {
        lemma_ops(v, edge_spec::<T>(i), p);
        lemma_ops(v, p, edge_spec::<T>(i + 1));
    }
    assert(in_bucket(p, 0) == in_range(v(p), 0));
    assert(in_bucket(p, 1) == in_range(v(p), 1));
    assert(in_bucket(p, 2) == in_range(v(p), 2));
    assert(in_bucket(p, 3) == in_range(v(p), 3));
    assert(in_bucket(p, 4) == in_range(v(p), 4));
}

proof fn lemma_bucket_sums<T: Real>(v: Reading<T>, pairs: Seq<Pair<T>>, k: int)
    requires
        exact(v),
        all_finite(pairs),
        0 <= k < BUCKETS,
    ensures
        outcomes(valid_pairs(pairs), k).len() as real == of_pairs(v, pairs, counted_in(k)),
        v(accumulate(zero_spec(), outcomes(valid_pairs(pairs), k))) == of_pairs(
            v,
            pairs,
            came_in(k),
        ),
        outcomes(valid_pairs(pairs), k).len() <= pairs.len(),
    decreases pairs.len(),
{
    lemma_constants(v);
    if pairs.len() > 0 {
        let front = pairs.drop_last();
        assert(all_finite(front)) by {
            assert forall|i: int| 0 <= i < front.len() implies match #[trigger] front[i] {
                (Some(p), Some(_)) => finite_spec(p),
                _ => true,
            } by {
                assert(front[i] == pairs[i]);
            }
        }
        lemma_bucket_sums(v, front, k);
        lemma_step(v, pairs, counted_in(k));
        lemma_step(v, pairs, came_in(k));
        assert(pairs[pairs.len() - 1] == pairs.last());
        match pairs.last() {
            (Some(p), Some(a)) => {
                lemma_place(v, p, k);
                let all = valid_pairs(pairs);
                assert(all.drop_last() =~= valid_pairs(front));
                assert(all.last() == (p, a));
                let before = outcomes(valid_pairs(front), k);
                if in_range(v(p), k) {
                    assert(outcomes(all, k) == before.push(a));
                    assert(before.push(a).drop_last() =~= before);
                    lemma_ops(v, accumulate(zero_spec(), before), a);
                }
            },
            _ => {},
        }
    }
}

/// Is this the mean outcome of the predictions in range `k`? The open ends are
/// shown as a thousand million.
pub open spec fn is_mean_of<T: Real>(
    v: Reading<T>,
    b: BucketMean<T>,
    pairs: Seq<Pair<T>>,
    k: int,
) -> bool {
    &&& 0 <= k < 5
    &&& v(b.lo) == if k == 0 {
        -(1_000_000_000 as real)
    } else {
        start_of(k)
    }
    &&& v(b.hi) == if k == 4 {
        1_000_000_000 as real
    } else {
        start_of(k + 1)
    }
    &&& b.n > 0
    &&& b.n as real == of_pairs(v, pairs, counted_in(k))
    &&& v(b.mean_actual) * (b.n as real) == of_pairs(v, pairs, came_in(k))
}

proof fn lemma_one_mean<T: Real>(v: Reading<T>, pairs: Seq<Pair<T>>, k: int)
    requires
        exact(v),
        all_finite(pairs),
        0 <= k < BUCKETS,
        outcomes(valid_pairs(pairs), k).len() > 0,
        pairs.len() <= i64::MAX,
    ensures
        is_mean_of(v, bucket_mean(valid_pairs(pairs), k), pairs, k),
{
    lemma_bucket_sums(v, pairs, k);
    let own = outcomes(valid_pairs(pairs), k);
    let n = own.len() as int;
    lemma_count(v, n);
    let sum = accumulate(zero_spec(), own);
    lemma_ops(v, sum, count_spec::<T>(n));
    lemma_divide(v(sum), n as real);
    lemma_ratio(v, (-1) as i64, 2);
    lemma_ratio(v, (-1) as i64, 10);
    lemma_ratio(v, 1, 10);
    lemma_ratio(v, 1, 2);
    lemma_ratio(v, (-1_000_000_000) as i64, 1);
    lemma_ratio(v, 1_000_000_000, 1);
    lemma_edges();
    assert(fraction(-1_000_000_000, 1) == -(1_000_000_000 as real)) by (nonlinear_arith);
    assert(fraction(1_000_000_000, 1) == 1_000_000_000 as real) by (nonlinear_arith);
}

/// Each range with predictions in it is shown once, with the mean of their
/// outcomes; the ranges come in order, and nothing else is shown. Returns the
/// range of each mean that is shown.
pub proof fn lemma_buckets<T: Real>(
    v: Reading<T>,
    m: HorizonMetrics<T>,
    pairs: Seq<Pair<T>>,
    h: Horizon,
    thresh: T,
) -> (ranges: Seq<int>)
    requires
        exact(v),
        all_finite(pairs),
        pairs.len() <= i64::MAX,
        measures(m, pairs, h, thresh),
    ensures
        ranges.len() == m.buckets@.len(),
        forall|i: int|
            0 <= i < ranges.len() ==> is_mean_of(v, m.buckets@[i], pairs, #[trigger] ranges[i]),
        forall|i: int, j: int| 0 <= i < j < ranges.len() ==> ranges[i] < ranges[j],
        forall|k: int|
            0 <= k < 5 && #[trigger] of_pairs(v, pairs, counted_in(k)) > 0 as real
                ==> ranges.contains(k),
{
    lemma_shown(v, pairs, BUCKETS as int)
}

proof fn lemma_shown<T: Real>(v: Reading<T>, pairs: Seq<Pair<T>>, upto: int) -> (ranges: Seq<int>)
    requires
        exact(v),
        all_finite(pairs),
        pairs.len() <= i64::MAX,
        0 <= upto <= BUCKETS,
    ensures
        ({
            let shown = means_up_to(valid_pairs(pairs), upto);
            &&& ranges.len() == shown.len()
            &&& forall|i: int|
                0 <= i < ranges.len() ==> is_mean_of(v, shown[i], pairs, #[trigger] ranges[i])
                    && ranges[i] < upto
            &&& forall|i: int, j: int| 0 <= i < j < ranges.len() ==> ranges[i] < ranges[j]
            &&& forall|k: int|
                0 <= k < upto && #[trigger] of_pairs(v, pairs, counted_in(k)) > 0 as real
                    ==> ranges.contains(k)
        }),
    decreases upto,
{
    if upto == 0 {
        Seq::empty()
    } else {
        let before = lemma_shown(v, pairs, upto - 1);
        lemma_bucket_sums(v, pairs, upto - 1);
        if outcomes(valid_pairs(pairs), upto - 1).len() > 0 {
            lemma_one_mean(v, pairs, upto - 1);
            let ranges = before.push(upto - 1);
            assert forall|k: int|
                0 <= k < upto && #[trigger] of_pairs(v, pairs, counted_in(k))
                    > 0 as real implies ranges.contains(k) by {
                if k == upto - 1 {
                    assert(ranges[before.len() as int] == k);
                } else {
                    let i = choose|i: int| 0 <= i < before.len() && before[i] == k;
                    assert(ranges[i] == k);
                }
            }
            ranges
        } else {
            before
        }
    }
}

} // verus!
