//! What predictions are made of, in real numbers.
use vstd::prelude::*;

#[allow(unused_imports)]
use crate::laws::arithmetic::{lemma_cancel, lemma_times_one};
#[allow(unused_imports)]
use crate::live::StreamFrame;
#[allow(unused_imports)]
use crate::number::{accumulate, count_spec, total_spec, zero_spec, Real};
#[allow(unused_imports)]
use crate::reals::{
    big_sum, exact, fraction, lemma_accumulate, lemma_constants, lemma_count, lemma_divide,
    lemma_ops, lemma_ratio, lemma_sum_same, lemma_sum_scaled, lemma_total, read, Reading,
};
#[allow(unused_imports)]
use crate::ridge::{reduced, Samples};
#[allow(unused_imports)]
use crate::signal::engine::EngineSnapshot;
#[allow(unused_imports)]
use crate::signal::model::is_cold_start;
#[allow(unused_imports)]
use crate::signal::model::cold_weights;
#[allow(unused_imports)]
use crate::signal::model::{RAW_W10, RAW_W25, RAW_W50, RENORM_10, RENORM_25, RENORM_50};
#[allow(unused_imports)]
use crate::types::{products, shares, FittedModel, Horizon, HorizonParams, RunPhase};

verus! {

/// Each factor times its coefficient.
pub open spec fn parts<T>(v: Reading<T>, beta: Seq<T>, x: Seq<T>) -> spec_fn(int) -> real {
    |i: int| v(beta[i]) * v(x[i])
}

proof fn lemma_products<T: Real>(v: Reading<T>, beta: Seq<T>, x: Seq<T>)
    requires
        exact(v),
    ensures
        big_sum(read(v, products(beta, x)), beta.len() as int) == big_sum(
            parts(v, beta, x),
            beta.len() as int,
        ),
{
    let terms = products(beta, x);
    assert forall|i: int| 0 <= i < beta.len() implies #[trigger] read(v, terms)(i) == parts(
        v,
        beta,
        x,
    )(i) by {
        lemma_ops(v, beta[i], x[i]);
    }
    lemma_sum_same(read(v, terms), parts(v, beta, x), beta.len() as int);
}

/// A prediction is the intercept and each of the seventeen factors times its
/// coefficient.
pub proof fn lemma_prediction<T: Real>(v: Reading<T>, p: HorizonParams<T>, x: Seq<T>)
    requires
        exact(v),
    ensures
        v(p.predict_spec(x)) == v(p.intercept) + big_sum(parts(v, p.beta@, x), 17),
{
    lemma_accumulate(v, p.intercept, products(p.beta@, x));
    lemma_products(v, p.beta@, x);
}

/// The predictions come in the order of the horizons.
pub proof fn lemma_predictions<T: Real>(v: Reading<T>, m: FittedModel<T>, x: Seq<T>)
    requires
        exact(v),
    ensures
        m.predict_all_spec(x).len() == 3,
        v(m.predict_all_spec(x)[0]) == v(m.h10.intercept) + big_sum(parts(v, m.h10.beta@, x), 17),
        v(m.predict_all_spec(x)[1]) == v(m.h25.intercept) + big_sum(parts(v, m.h25.beta@, x), 17),
        v(m.predict_all_spec(x)[2]) == v(m.h50.intercept) + big_sum(parts(v, m.h50.beta@, x), 17),
{
    lemma_prediction(v, m.h10, x);
    lemma_prediction(v, m.h25, x);
    lemma_prediction(v, m.h50, x);
}

/// More of one factor moves a prediction by its coefficient.
pub proof fn lemma_prediction_moves<T: Real>(
    v: Reading<T>,
    p: HorizonParams<T>,
    x: Seq<T>,
    y: Seq<T>,
    k: int,
)
    requires
        exact(v),
        0 <= k < 17,
        forall|i: int| 0 <= i < 17 && i != k ==> #[trigger] y[i] == x[i],
    ensures
        v(p.predict_spec(y)) - v(p.predict_spec(x)) == v(p.beta@[k]) * (v(y[k]) - v(x[k])),
{
    lemma_prediction(v, p, x);
    lemma_prediction(v, p, y);
    let f = parts(v, p.beta@, x);
    let g = parts(v, p.beta@, y);
    let d = |i: int| g(i) - f(i);
    crate::reals::lemma_sum_minus(g, f, d, 17);
    assert forall|i: int| 0 <= i < 17 && i != k implies #[trigger] d(i) == 0 as real by {
        assert(y[i] == x[i]);
    }
    crate::reals::lemma_sum_single(d, 17, k);
    crate::laws::arithmetic::lemma_spread_out(v(p.beta@[k]), v(y[k]), v(x[k]));
}

/// The shares of coefficients that sum up to more than zero add up to one, and
/// each is to the whole as its coefficient is to the sum.
pub proof fn lemma_shares<T: Real>(v: Reading<T>, beta: Seq<T>, k: int)
    requires
        exact(v),
        beta.len() == 17,
        0 <= k < 17,
    ensures
        ({
            let sum = big_sum(read(v, beta), 17);
            &&& shares(beta).len() == 17
            &&& sum > 0 as real ==> big_sum(read(v, shares(beta)), 17) == 1 as real
            &&& sum > 0 as real ==> v(shares(beta)[k]) * sum == v(beta[k])
            &&& sum <= 0 as real ==> v(shares(beta)[k]) == 0 as real
        }),
{
    lemma_constants(v);
    lemma_total(v, beta);
    let scale = total_spec(beta);
    let sum = big_sum(read(v, beta), 17);
    lemma_ops(v, zero_spec::<T>(), scale);
    if sum > 0 as real {
        let own = read(v, beta);
        let part = read(v, shares(beta));
        assert forall|i: int| 0 <= i < 17 implies #[trigger] own(i) == sum * part(i) by {
            lemma_ops(v, beta[i], scale);
            lemma_divide(v(beta[i]), sum);
            crate::laws::arithmetic::lemma_swap(part(i), sum);
        }
        lemma_sum_scaled(sum, part, own, 17);
        let all = big_sum(part, 17);
        crate::laws::arithmetic::lemma_swap(sum, all);
        lemma_times_one(sum);
        lemma_cancel(all, 1 as real, sum);
        assert(own(k) == sum * part(k));
        crate::laws::arithmetic::lemma_swap(sum, part(k));
    }
}

/// What the factors contribute to each prediction of a frame adds up, with the
/// intercept, to what the model predicts from those factors, and the weights
/// shown beside them are shares of one.
pub proof fn lemma_frame<T: Real>(
    v: Reading<T>,
    frame: StreamFrame<T>,
    snap: EngineSnapshot<T>,
    phase: RunPhase,
    ts_ms: i64,
    h: Horizon,
)
    requires
        exact(v),
        frame.shows(snap, phase, ts_ms),
    ensures
        ({
            let p = snap.model.params_spec(h);
            &&& v(p.intercept) + big_sum(read(v, frame.contributions@[h.index_spec()]@), 17) == v(
                p.predict_spec(snap.factors@),
            )
            &&& big_sum(read(v, p.beta@), 17) > 0 as real ==> big_sum(
                read(v, frame.weights@[h.index_spec()]@),
                17,
            ) == 1 as real
        }),
{
    let p = snap.model.params_spec(h);
    lemma_prediction(v, p, snap.factors@);
    lemma_products(v, p.beta@, snap.factors@);
    lemma_shares(v, p.beta@, 0);
    assert(frame.contributions@[h.index_spec()]@ == products(p.beta@, snap.factors@));
    assert(frame.weights@[h.index_spec()]@ == shares(p.beta@));
}

proof fn lemma_reduced<T: Real>(v: Reading<T>, init: T, s: Seq<T>)
    requires
        exact(v),
    ensures
        v(reduced(init, s)) == v(init) - big_sum(read(v, s), s.len() as int),
    decreases s.len(),
{
    if s.len() > 0 {
        let front = s.drop_last();
        lemma_reduced(v, init, front);
        lemma_ops(v, reduced(init, front), s.last());
        lemma_sum_same(read(v, front), read(v, s), front.len() as int);
    }
}

/// A fit goes through the middle of its samples: of mean factors it predicts
/// the mean outcome.
pub proof fn lemma_fit_through_means<T: Real>(
    v: Reading<T>,
    s: Samples<T>,
    p: HorizonParams<T>,
    x: Seq<T>,
)
    requires
        exact(v),
        1 <= s.xs.len() <= i64::MAX,
        s.xs.len() == s.ys.len(),
        p.intercept == s.intercept(p.beta@),
        forall|k: int|
            0 <= k < 17 ==> v(#[trigger] x[k]) * (s.xs.len() as real) == big_sum(
                |i: int| v(s.xs[i]@[k]),
                s.xs.len() as int,
            ),
    ensures
        v(p.predict_spec(x)) * (s.xs.len() as real) == big_sum(read(v, s.ys), s.ys.len() as int),
{
    let n = s.xs.len() as int;
    lemma_constants(v);
    lemma_count(v, n);
    let terms = products(p.beta@, s.x_means());
    lemma_reduced(v, s.y_mean(), terms);
    lemma_products(v, p.beta@, s.x_means());
    lemma_prediction(v, p, x);
    assert(s.ys.take(n) =~= s.ys);
    lemma_accumulate(v, zero_spec(), s.ys);
    lemma_ops(v, accumulate(zero_spec(), s.ys), count_spec::<T>(n));
    lemma_divide(big_sum(read(v, s.ys), n), n as real);
    assert forall|k: int| 0 <= k < 17 implies #[trigger] parts(v, p.beta@, x)(k) == parts(
        v,
        p.beta@,
        s.x_means(),
    )(k) by {
        lemma_accumulate(v, zero_spec(), s.factor(k));
        lemma_ops(v, accumulate(zero_spec(), s.factor(k)), count_spec::<T>(n));
        let g = |i: int| v(s.xs[i]@[k]);
        lemma_sum_same(read(v, s.factor(k)), g, n);
        lemma_divide(big_sum(g, n), n as real);
        assert(s.x_means()[k] == s.x_mean(k));
        assert(v(x[k]) * (n as real) == big_sum(g, n));
        lemma_cancel(v(x[k]), v(s.x_mean(k)), n as real);
    }
    lemma_sum_same(parts(v, p.beta@, x), parts(v, p.beta@, s.x_means()), 17);
}

proof fn lemma_cold_weights<T: Real>(v: Reading<T>, raw: Seq<i64>, mass: i64)
    requires
        exact(v),
        raw.len() == 17,
        mass > 0,
        whole_sum(raw, 17) == mass,
    ensures
        big_sum(read(v, cold_weights::<T>(raw, mass)), 17) == 1 as real,
{
    let w = cold_weights::<T>(raw, mass);
    let m = T::ratio_spec(mass, 100);
    lemma_ratio(v, mass, 100);
    let ms = mass as int;
    assert(fraction(ms, 100) > 0 as real && fraction(ms, 100) * (100 as real) == ms as real)
        by (nonlinear_arith)
        requires
            ms > 0,
    ;
    let vm = v(m);
    let own = |i: int| raw[i] as real;
    let part = read(v, w);
    let big = vm * (100 as real);
    assert forall|i: int| 0 <= i < 17 implies #[trigger] own(i) == big * part(i) by {
        lemma_ratio(v, raw[i], 100);
        let r = raw[i] as int;
        assert(fraction(r, 100) * (100 as real) == r as real) by (nonlinear_arith);
        lemma_ops(v, T::ratio_spec(raw[i], 100), m);
        lemma_divide(v(T::ratio_spec(raw[i], 100)), vm);
        let (p, c) = (part(i), 100 as real);
        assert((vm * c) * p == (p * vm) * c) by (nonlinear_arith);
    }
    lemma_sum_scaled(big, part, own, 17);
    lemma_whole_sum(raw, 17);
    let all = big_sum(part, 17);
    crate::laws::arithmetic::lemma_swap(big, all);
    lemma_times_one(big);
    lemma_cancel(all, 1 as real, big);
}

/// `s[0] + .. + s[n - 1]`.
pub open spec fn whole_sum(s: Seq<i64>, n: int) -> int
    decreases n,
{
    if n <= 0 {
        0
    } else {
        whole_sum(s, n - 1) + s[n - 1]
    }
}

proof fn lemma_whole_sum(s: Seq<i64>, n: int)
    ensures
        big_sum(|i: int| s[i] as real, n) == whole_sum(s, n) as real,
    decreases n,
{
    if n > 0 {
        lemma_whole_sum(s, n - 1);
    }
}

/// The coefficients of a cold start add up to one for each horizon, and its
/// predictions have no intercept.
pub proof fn lemma_cold_start<T: Real>(
    v: Reading<T>,
    m: FittedModel<T>,
    created_at_ms: i64,
    activated_at_ms: i64,
    h: Horizon,
)
    requires
        exact(v),
        is_cold_start(m, created_at_ms, activated_at_ms),
    ensures
        big_sum(read(v, m.params_spec(h).beta@), 17) == 1 as real,
        v(m.params_spec(h).intercept) == 0 as real,
{
    lemma_constants(v);
    reveal_with_fuel(whole_sum, 18);
    lemma_cold_weights(v, RAW_W10@, RENORM_10);
    lemma_cold_weights(v, RAW_W25@, RENORM_25);
    lemma_cold_weights(v, RAW_W50@, RENORM_50);
}

} // verus!
