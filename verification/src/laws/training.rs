//! What is trained, with which samples, and when.
use vstd::prelude::*;

#[allow(unused_imports)]
use crate::config::Config;
#[allow(unused_imports)]
use crate::laws::labels::are_places;
#[allow(unused_imports)]
use crate::laws::metrics::{at, lemma_errors, off_squared, one_each};
#[allow(unused_imports)]
use crate::laws::prediction::{lemma_prediction, parts};
#[allow(unused_imports)]
use crate::laws::promotion::{error_sum, has_errors, lemma_promoted_saves, slack};
#[allow(unused_imports)]
use crate::number::{count_spec, Real};
#[allow(unused_imports)]
use crate::reals::{
    big_sum, exact, fraction, lemma_count, lemma_ops, lemma_ratio, lemma_sum_same, Reading,
};
#[allow(unused_imports)]
use crate::storage::{HorizonMetrics, MetricAcc, SampleRow};
#[allow(unused_imports)]
use crate::trainer::{
    fits, cut_spec, fit_samples, judged, judges, next_train_spec, rules_of, should_train_spec,
    Schedule, TrainDecision, Trainer, TrainerTick,
};
#[allow(unused_imports)]
use crate::types::{FittedModel, Horizon, HorizonParams, RunPhase};

verus! {

/// Four fifths of the samples, rounded down, are trained with.
pub proof fn lemma_cut<T: Real>(v: Reading<T>, n: int)
    requires
        exact(v),
        2 <= n <= i64::MAX,
        n <= usize::MAX,
    ensures
        5 * cut_spec::<T>(n) <= 4 * n < 5 * (cut_spec::<T>(n) + 1),
{
    lemma_count(v, n);
    lemma_ratio(v, 4, 5);
    let x = count_spec::<T>(n).times_spec(T::ratio_spec(4, 5));
    lemma_ops(v, count_spec::<T>(n), T::ratio_spec(4, 5));
    let r = v(x);
    assert(r * (5 as real) == (4 * n) as real) by (nonlinear_arith)
        requires
            r == n as real * fraction(4, 5),
    ;
    crate::reals::lemma_floor(v, x);
}

/// The place of a horizon in a list: the shortest first.
pub open spec fn place(h: Horizon) -> int {
    match h {
        Horizon::H10 => 0,
        Horizon::H25 => 1,
        Horizon::H50 => 2,
    }
}

/// A horizon is fitted to all samples that have its label, in their order:
/// their factors, and that label. Returns the places of those samples.
pub proof fn lemma_fit_samples<T: Real>(rows: Seq<SampleRow<T>>, h: Horizon) -> (places: Seq<int>)
    ensures
        ({
            let s = fit_samples(rows, h);
            &&& are_places(places, rows.len() as int)
            &&& s.xs.len() == places.len()
            &&& s.ys.len() == places.len()
            &&& forall|j: int|
                0 <= j < places.len() ==> s.xs[j] == rows[#[trigger] places[j]].factors && Some(
                    s.ys[j],
                ) == rows[places[j]].actual@[place(h)]
            &&& forall|i: int|
                0 <= i < rows.len() && (#[trigger] rows[i]).actual@[place(h)] is Some
                    ==> places.contains(i)
        }),
    decreases rows.len(),
{
    if rows.len() == 0 {
        Seq::empty()
    } else {
        let front = rows.drop_last();
        let before = lemma_fit_samples(front, h);
        let last = rows.len() - 1;
        let out = if rows.last().actual@[place(h)] is Some {
            before.push(last)
        } else {
            before
        };
        let s = fit_samples(rows, h);
        let f = fit_samples(front, h);
        assert forall|j: int| 0 <= j < out.len() implies s.xs[j] == rows[#[trigger] out[j]].factors
            && Some(s.ys[j]) == rows[out[j]].actual@[place(h)] by {
            if j < before.len() {
                assert(before[j] == out[j]);
                assert(front[before[j]] == rows[before[j]]);
                assert(s.xs[j] == f.xs[j] && s.ys[j] == f.ys[j]);
            }
        }
        assert forall|i: int|
            0 <= i < rows.len() && (#[trigger] rows[i]).actual@[place(h)]
                is Some implies out.contains(i) by {
            if i < last {
                assert(front[i] == rows[i]);
                let j = choose|j: int| 0 <= j < before.len() && before[j] == i;
                assert(out[j] == i);
            } else {
                assert(out[before.len() as int] == i);
            }
        }
        out
    }
}

/// What a model predicts of a sample less what came, times itself; nothing
/// where the label is missing.
pub open spec fn miss_squared<T: Real>(
    v: Reading<T>,
    model: FittedModel<T>,
    rows: Seq<SampleRow<T>>,
    h: Horizon,
) -> spec_fn(int) -> real {
    |i: int|
        match rows[i].actual@[place(h)] {
            Some(a) => {
                let p = model.params_spec(h);
                let miss = v(p.intercept) + big_sum(parts(v, p.beta@, rows[i].factors@), 17) - v(a);
                miss * miss
            },
            None => 0 as real,
        }
}

/// One for each sample with a label.
pub open spec fn has_label<T: Real>(rows: Seq<SampleRow<T>>, h: Horizon) -> spec_fn(int) -> real {
    |i: int|
        if rows[i].actual@[place(h)] is Some {
            1 as real
        } else {
            0 as real
        }
}

/// The error of a model on samples is the root of the mean square of what its
/// predictions miss the labels of that horizon by.
pub proof fn lemma_judged<T: Real>(
    v: Reading<T>,
    m: Seq<HorizonMetrics<T>>,
    model: FittedModel<T>,
    rows: Seq<SampleRow<T>>,
    thresh: T,
    h: Horizon,
)
    requires
        exact(v),
        judges(m, model, rows, thresh),
        rows.len() <= i64::MAX,
    ensures
        ({
            let n = rows.len() as int;
            let labels = big_sum(has_label(rows, h), n);
            &&& m[place(h)].rmse is Some <==> labels != 0 as real
            &&& m[place(h)].rmse is Some ==> {
                let r = v(m[place(h)].rmse->0);
                r >= 0 as real && r * r * labels == big_sum(miss_squared(v, model, rows, h), n)
            }
            &&& m[place(h)].n_total == n
        }),
{
    let pairs = judged(model, rows, h);
    assert(m[h.index_spec()].sums_up(MetricAcc::over(pairs, thresh), h));
    lemma_errors(v, m[place(h)], pairs, h, thresh);
    crate::laws::metrics::lemma_counts(v, m[place(h)], pairs, h, thresh);
    let n = rows.len() as int;
    let p = model.params_spec(h);
    let f = |i: int| at(v, pairs[i], off_squared());
    let g = |i: int| at(v, pairs[i], one_each());
    assert forall|i: int| 0 <= i < n implies #[trigger] f(i) == miss_squared(v, model, rows, h)(
        i,
    ) by {
        lemma_prediction(v, p, rows[i].factors@);
    }
    lemma_sum_same(f, miss_squared(v, model, rows, h), n);
    lemma_sum_same(g, has_label(rows, h), n);
}

/// A trained model is put to use only if, on the newest fifth of the samples,
/// its errors are small enough beside those of the current model.
pub proof fn lemma_decision<T: Real>(
    v: Reading<T>,
    d: TrainDecision<T>,
    samples: Seq<SampleRow<T>>,
    current: FittedModel<T>,
    lambda: T,
    cfg: Config<T>,
    named_at_ms: i64,
    created_at_ms: i64,
)
    requires
        exact(v),
        2 <= samples.len() <= i64::MAX,
        d.decides(samples, current, lambda, cfg, named_at_ms, created_at_ms),
        d.promote,
        has_errors(d.current_metrics@),
        error_sum(v, d.current_metrics@) >= 3 as real * fraction(1, 1_000_000_000_000),
    ensures
        has_errors(d.candidate_metrics@),
        error_sum(v, d.candidate_metrics@) <= (1 as real - v(cfg.promote_rmse_improve) + slack())
            * error_sum(v, d.current_metrics@),
        judges(
            d.candidate_metrics@,
            d.candidate,
            samples.skip(cut_spec::<T>(samples.len() as int)),
            cfg.directional_pred_threshold,
        ),
        judges(
            d.current_metrics@,
            current,
            samples.skip(cut_spec::<T>(samples.len() as int)),
            cfg.directional_pred_threshold,
        ),
        forall|k: int|
            0 <= k < 3 ==> 5 * (#[trigger] d.candidate_metrics@[k]).n_valid + 5
                > cfg.min_train_samples,
{
    let rules = rules_of(cfg);
    let (cur, cand) = (d.current_metrics@, d.candidate_metrics@);
    crate::trainer::lemma_promoted(cur, cand, rules, 0);
    crate::trainer::lemma_promoted(cur, cand, rules, 1);
    crate::trainer::lemma_promoted(cur, cand, rules, 2);
    lemma_promoted_saves(v, cur, cand, rules);
    let valid = samples.skip(cut_spec::<T>(samples.len() as int));
    let t = cfg.directional_pred_threshold;
    assert forall|k: int| 0 <= k < 3 implies 5 * (#[trigger] cand[k]).n_valid + 5
        > cfg.min_train_samples by {
        crate::trainer::lemma_promoted(cur, cand, rules, k);
        let h = Horizon::all_spec()[k];
        assert(cand[h.index_spec()].sums_up(
            MetricAcc::over(judged(d.candidate, valid, h), t),
            h,
        ));
        MetricAcc::<T>::lemma_over_wf(judged(d.candidate, valid, h), t);
    }
}

/// Training is due exactly when labelled samples that lie in the past span the
/// first wait, and the last training is a period ago.
pub proof fn lemma_due(
    now: i64,
    first: i64,
    last: i64,
    last_train_ms: Option<i64>,
    first_after_ms: i64,
    period_ms: i64,
)
    requires
        first_after_ms >= 0,
    ensures
        should_train_spec(now, Some((first, last)), last_train_ms, first_after_ms, period_ms)
            <==> last <= now && first_after_ms <= last - first && match last_train_ms {
            Some(t) => period_ms <= now - t,
            None => true,
        },
        !should_train_spec(now, None, last_train_ms, first_after_ms, period_ms),
{
}

/// The first training is expected when the samples will span long enough, if
/// more come in as time goes on; each later one a period after the last.
pub proof fn lemma_expected(
    now: i64,
    first: i64,
    last: i64,
    last_train_ms: Option<i64>,
    first_after_ms: i64,
    period_ms: i64,
)
    ensures
        ({
            let next = next_train_spec(
                now,
                Some((first, last)),
                last_train_ms,
                first_after_ms,
                period_ms,
            );
            &&& last_train_ms is None ==> next >= now
            &&& last_train_ms is None && next > now ==> (last + (next - now)) - first
                == first_after_ms
            &&& last_train_ms is None && next == now ==> last - first >= first_after_ms
            &&& last_train_ms matches Some(t) ==> next - t == period_ms
        }),
        next_train_spec(now, None, last_train_ms, first_after_ms, period_ms) - now
            == first_after_ms,
{
}

/// Training looks back over the window, and no tick trains while samples
/// cannot be stored.
pub proof fn lemma_tick(
    t: Trainer,
    phase: RunPhase,
    now: i64,
    span: Option<(i64, i64)>,
    s: Schedule,
)
    requires
        s.wf(),
        t.tick_fits(phase, now, span, s),
    ensures
        match t.tick_spec(phase, now, span, s) {
            TrainerTick::Paused => phase == RunPhase::Degraded,
            TrainerTick::Wait { next_train_ms } => {
                &&& phase != RunPhase::Degraded
                &&& !should_train_spec(now, span, t.last_train_ms, s.first_ms, s.period_ms)
            },
            TrainerTick::Train { next_train_ms, since_ms } => {
                &&& phase != RunPhase::Degraded
                &&& should_train_spec(now, span, t.last_train_ms, s.first_ms, s.period_ms)
                &&& now - since_ms == s.window_ms
                &&& next_train_ms <= now
            },
        },
{
}

/// Parameters are fitted exactly where there are three labels or more.
pub proof fn lemma_enough_labels<T: Real>(
    r: Option<HorizonParams<T>>,
    train: Seq<SampleRow<T>>,
    h: Horizon,
    prior: Seq<T>,
    lambda: T,
)
    requires
        fits(r, train, h, prior, lambda),
    ensures
        r is Some <==> big_sum(has_label(train, h), train.len() as int) >= 3 as real,
{
    lemma_labels_counted(train, h);
}

proof fn lemma_labels_counted<T: Real>(rows: Seq<SampleRow<T>>, h: Horizon)
    ensures
        big_sum(has_label(rows, h), rows.len() as int) == fit_samples(rows, h).xs.len() as real,
    decreases rows.len(),
{
    if rows.len() > 0 {
        let front = rows.drop_last();
        lemma_labels_counted(front, h);
        lemma_sum_same(has_label(front, h), has_label(rows, h), front.len() as int);
    }
}

} // verus!
