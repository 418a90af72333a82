//! Training: when it is due, what it fits, and whether the outcome is put to use.
use vstd::prelude::*;
use vstd::slice::slice_subrange;
use vstd::string::StringExecFns;

use crate::clock::now_ms;
use crate::config::Config;
use crate::json::{decision_json, params_json};
#[allow(unused_imports)]
use crate::json::{decision_text, params_text};
use crate::number::{count, eps, finite, larger, zero, Real};
#[allow(unused_imports)]
use crate::number::{accumulate, count_spec, eps_spec, finite_spec, larger_spec, zero_spec};
pub use crate::ridge::nonneg_ridge;
#[allow(unused_imports)]
use crate::ridge::Samples;
use crate::signal::model::cold_start_weights;
#[allow(unused_imports)]
use crate::signal::model::{
    cold_weights, RAW_W10, RAW_W25, RAW_W50, RENORM_10, RENORM_25, RENORM_50,
};
use crate::storage::{HorizonMetrics, MetricAcc, SampleRow};
#[allow(unused_imports)]
use crate::storage::or_zero;
use crate::text::push_integer;
#[allow(unused_imports)]
use crate::text::integer_text;
use crate::types::{
    FittedModel, Horizon, HorizonParams, ModelStatus, RunPhase, DEPTH_GRANULARITY_NOTE,
    FEATURE_COUNT, FEATURE_VERSION,
};

verus! {

/// The model in force, and whether another one is being trained.
#[derive(Debug)]
pub struct ModelManager<T> {
    current: FittedModel<T>,
    training: bool,
}

/// What a [`ModelManager`] holds.
pub struct ManagerState<T> {
    pub current: FittedModel<T>,
    pub training: bool,
}

impl<T: Real> View for ModelManager<T> {
    type V = ManagerState<T>;

    closed spec fn view(&self) -> ManagerState<T> {
        ManagerState { current: self.current, training: self.training }
    }
}

/// The model, put to use at this time.
pub open spec fn activated<T>(model: FittedModel<T>, at_ms: i64) -> FittedModel<T> {
    FittedModel { status: ModelStatus::Active, activated_at_ms: Some(at_ms), ..model }
}

impl<T: Real> ModelManager<T> {
    pub fn new(model: FittedModel<T>) -> (r: Self)
        ensures
            r@ == (ManagerState { current: model, training: false }),
    {
        ModelManager { current: model, training: false }
    }

    pub fn current(&self) -> (r: FittedModel<T>)
        ensures
            r == self@.current,
    {
        self.current.clone()
    }

    /// Puts a model in force at this time. Returns it as it stands then.
    pub fn swap_active_at(&mut self, next: FittedModel<T>, at_ms: i64) -> (r: FittedModel<T>)
        ensures
            r == activated(next, at_ms),
            final(self)@ == (ManagerState { current: r, ..old(self)@ }),
    {
        let mut next = next;
        next.status = ModelStatus::Active;
        next.activated_at_ms = Some(at_ms);
        self.current = next.clone();
        next
    }

    /// Puts a model in force now. Returns it as it stands then.
    pub fn swap_active(&mut self, next: FittedModel<T>) -> (r: FittedModel<T>)
        ensures
            exists|at_ms: i64| r == #[trigger] activated(next, at_ms),
            final(self)@ == (ManagerState { current: r, ..old(self)@ }),
    {
        let at_ms: i64 = now_ms();
        self.swap_active_at(next, at_ms)
    }

    pub fn training(&self) -> (r: bool)
        ensures
            r == self@.training,
    {
        self.training
    }

    pub fn set_training(&mut self, on: bool)
        ensures
            final(self)@ == (ManagerState { training: on, ..old(self)@ }),
    {
        self.training = on;
    }
}

/// How many of `n` samples are trained with: four fifths, but not none and not all.
pub open spec fn cut_spec<T: Real>(n: int) -> int {
    let at = count_spec::<T>(n).times_spec(T::ratio_spec(4, 5)).floor_spec() as int;
    if at < 1 {
        1
    } else if at > n - 1 {
        n - 1
    } else {
        at
    }
}

/// The older samples, to train with, and the newer ones, to judge by.
pub fn time_split<T: Real>(samples: &[SampleRow<T>]) -> (r: (&[SampleRow<T>], &[SampleRow<T>]))
    requires
        2 <= samples@.len() <= i64::MAX,
    ensures
        r.0@ == samples@.take(cut_spec::<T>(samples@.len() as int)),
        r.1@ == samples@.skip(cut_spec::<T>(samples@.len() as int)),
        r.0@.len() >= 1,
        r.1@.len() >= 1,
        r.0@ + r.1@ == samples@,
{
    let n: usize = samples.len();
    let at: usize = count::<T>(n as i64).times(T::ratio(4, 5)).floor();
    let cut: usize = if at < 1 {
        1
    } else if at > n - 1 {
        n - 1
    } else {
        at
    };
    let train = slice_subrange(samples, 0, cut);
    let valid = slice_subrange(samples, cut, n);
    assert(train@ =~= samples@.take(cut as int));
    assert(valid@ =~= samples@.skip(cut as int));
    assert(train@ + valid@ =~= samples@);
    (train, valid)
}

/// Where the samples are in the order of time, no sample that is trained with
/// is newer than one that is judged by.
pub proof fn lemma_split_in_time<T: Real>(samples: Seq<SampleRow<T>>, i: int, j: int)
    requires
        samples.len() >= 2,
        forall|a: int, b: int|
            0 <= a <= b < samples.len() ==> samples[a].ts_ms <= samples[b].ts_ms,
        0 <= i < samples.take(cut_spec::<T>(samples.len() as int)).len(),
        0 <= j < samples.skip(cut_spec::<T>(samples.len() as int)).len(),
    ensures
        samples.take(cut_spec::<T>(samples.len() as int))[i].ts_ms <= samples.skip(
            cut_spec::<T>(samples.len() as int),
        )[j].ts_ms,
{
    let cut = cut_spec::<T>(samples.len() as int);
    assert(samples[i].ts_ms <= samples[cut + j].ts_ms);
}

/// `a - b`, held in the range of 64 bits.
pub open spec fn span_spec(a: i64, b: i64) -> int {
    if a - b > i64::MAX {
        i64::MAX as int
    } else if a - b < i64::MIN {
        i64::MIN as int
    } else {
        a - b
    }
}

/// Do labelled samples span long enough, with an end that does not lie in the
/// future?
pub open spec fn labels_reach(
    now_ms: i64,
    labeled_span: Option<(i64, i64)>,
    first_after_ms: i64,
) -> bool {
    labeled_span matches Some((first, last)) && span_spec(last, first) >= first_after_ms
        && now_ms >= last
}

/// Is training due? Labelled samples have to span long enough, their end may
/// not lie in the future, and the last training has to be a period ago.
pub open spec fn should_train_spec(
    now_ms: i64,
    labeled_span: Option<(i64, i64)>,
    last_train_ms: Option<i64>,
    first_after_ms: i64,
    period_ms: i64,
) -> bool {
    &&& labels_reach(now_ms, labeled_span, first_after_ms)
    &&& last_train_ms matches Some(t) ==> now_ms - t >= period_ms
}

/// Does a sum of times stay in range?
pub open spec fn in_i64(t: int) -> bool {
    i64::MIN <= t <= i64::MAX
}

/// Does the difference behind [`should_train`] stay in range?
pub open spec fn wait_fits(
    now_ms: i64,
    labeled_span: Option<(i64, i64)>,
    last_train_ms: Option<i64>,
    first_after_ms: i64,
) -> bool {
    labels_reach(now_ms, labeled_span, first_after_ms) ==> (last_train_ms matches Some(t)
        ==> in_i64(now_ms - t))
}

fn reaches(now_ms: i64, labeled_span: Option<(i64, i64)>, first_after_ms: i64) -> (r: bool)
    ensures
        r == labels_reach(now_ms, labeled_span, first_after_ms),
{
    match labeled_span {
        None => false,
        Some((first, last)) => {
            let span: i128 = last as i128 - first as i128;
            let span: i128 = if span > i64::MAX as i128 {
                i64::MAX as i128
            } else if span < i64::MIN as i128 {
                i64::MIN as i128
            } else {
                span
            };
            span >= first_after_ms as i128 && now_ms >= last
        },
    }
}

pub fn should_train(
    now_ms: i64,
    labeled_span: Option<(i64, i64)>,
    last_train_ms: Option<i64>,
    first_after_ms: i64,
    period_ms: i64,
) -> (r: bool)
    requires
        wait_fits(now_ms, labeled_span, last_train_ms, first_after_ms),
    ensures
        r == should_train_spec(now_ms, labeled_span, last_train_ms, first_after_ms, period_ms),
{
    reaches(now_ms, labeled_span, first_after_ms) && match last_train_ms {
        None => true,
        Some(t) => now_ms - t >= period_ms,
    }
}

/// When training is expected next.
pub open spec fn next_train_spec(
    now: i64,
    labeled_span: Option<(i64, i64)>,
    last_train_ms: Option<i64>,
    first_after_ms: i64,
    period_ms: i64,
) -> int {
    match (labeled_span, last_train_ms) {
        (None, _) => now + first_after_ms,
        (Some((first, last)), None) => if last >= first + first_after_ms {
            now as int
        } else {
            now + (first + first_after_ms - last)
        },
        (Some(_), Some(t)) => t + period_ms,
    }
}

/// Do the sums behind [`next_train_time`] stay in range?
pub open spec fn times_fit(
    now: i64,
    labeled_span: Option<(i64, i64)>,
    last_train_ms: Option<i64>,
    first_after_ms: i64,
    period_ms: i64,
) -> bool {
    let next = next_train_spec(now, labeled_span, last_train_ms, first_after_ms, period_ms);
    &&& in_i64(next)
    &&& labeled_span matches Some((first, last)) ==> last_train_ms is None ==> {
        &&& in_i64(first + first_after_ms)
        &&& first + first_after_ms - last <= i64::MAX
    }
}

pub fn next_train_time(
    now: i64,
    labeled_span: Option<(i64, i64)>,
    last_train_ms: Option<i64>,
    first_after_ms: i64,
    period_ms: i64,
) -> (r: i64)
    requires
        times_fit(now, labeled_span, last_train_ms, first_after_ms, period_ms),
    ensures
        r == next_train_spec(now, labeled_span, last_train_ms, first_after_ms, period_ms),
{
    match (labeled_span, last_train_ms) {
        (None, _) => now + first_after_ms,
        (Some((first, last)), None) => {
            let ready_at: i64 = first + first_after_ms;
            if last >= ready_at {
                now
            } else {
                now + (ready_at - last)
            }
        },
        (Some(_), Some(t)) => t + period_ms,
    }
}

/// When training is due, the time for it has come.
pub proof fn lemma_due_means_now(
    now: i64,
    labeled_span: Option<(i64, i64)>,
    last_train_ms: Option<i64>,
    first_after_ms: i64,
    period_ms: i64,
)
    requires
        first_after_ms >= 0,
        should_train_spec(now, labeled_span, last_train_ms, first_after_ms, period_ms),
    ensures
        next_train_spec(now, labeled_span, last_train_ms, first_after_ms, period_ms) <= now,
{
}

/// The first training waits until labelled samples span long enough, however
/// much time has passed; a later one waits for a period as well.
pub proof fn lemma_no_early_training(
    now: i64,
    first: i64,
    last: i64,
    last_train_ms: Option<i64>,
    first_after_ms: i64,
    period_ms: i64,
)
    requires
        first_after_ms >= 0,
        last - first < first_after_ms || (last_train_ms matches Some(t) && now - t < period_ms),
    ensures
        !should_train_spec(now, Some((first, last)), last_train_ms, first_after_ms, period_ms),
{
}

/// The samples that have a label for the horizon.
pub open spec fn labelled_for<T>(rows: Seq<SampleRow<T>>, h: Horizon) -> Seq<SampleRow<T>>
    decreases rows.len(),
{
    if rows.len() == 0 {
        Seq::empty()
    } else {
        let rest = labelled_for(rows.drop_last(), h);
        if rows.last().actual@[h.index_spec()] is Some {
            rest.push(rows.last())
        } else {
            rest
        }
    }
}

/// Factors and labels of the samples that have a label for the horizon.
pub open spec fn fit_samples<T: Real>(rows: Seq<SampleRow<T>>, h: Horizon) -> Samples<T> {
    let own = labelled_for(rows, h);
    Samples {
        xs: own.map_values(|s: SampleRow<T>| s.factors),
        ys: own.map_values(|s: SampleRow<T>| s.actual@[h.index_spec()]->0),
    }
}

/// What is fitted for a horizon. Fewer than three labels are too few.
pub open spec fn fits<T: Real>(
    r: Option<HorizonParams<T>>,
    train: Seq<SampleRow<T>>,
    h: Horizon,
    prior: Seq<T>,
    lambda: T,
) -> bool {
    let s = fit_samples(train, h);
    match r {
        Some(p) => {
            &&& s.xs.len() >= 3
            &&& p.beta@ == s.beta(prior, lambda)
            &&& p.intercept == s.intercept(p.beta@)
        },
        None => s.xs.len() < 3,
    }
}

pub fn fit_horizon<T: Real>(
    train: &[SampleRow<T>],
    h: Horizon,
    prior: &HorizonParams<T>,
    lambda: T,
) -> (r: Option<HorizonParams<T>>)
    requires
        train@.len() <= i64::MAX,
    ensures
        fits(r, train@, h, prior.beta@, lambda),
{
    let idx: usize = h.index();
    let mut xs: Vec<[T; FEATURE_COUNT]> = Vec::new();
    let mut ys: Vec<T> = Vec::new();
    let mut i: usize = 0;
    proof {
        assert(train@.take(0) =~= Seq::<SampleRow<T>>::empty());
        assert(xs@ =~= fit_samples(train@.take(0), h).xs);
        assert(ys@ =~= fit_samples(train@.take(0), h).ys);
    }
    while i < train.len()
        invariant
            0 <= i <= train@.len() <= i64::MAX,
            idx == h.index_spec(),
            idx < 3,
            xs@ == fit_samples(train@.take(i as int), h).xs,
            ys@ == fit_samples(train@.take(i as int), h).ys,
            xs@.len() <= i,
        decreases train@.len() - i,
    {
        let ghost before = train@.take(i as int);
        let ghost after = train@.take(i + 1);
        proof {
            assert(after.drop_last() =~= before);
            assert(after.last() == train@[i as int]);
        }
        if let Some(y) = train[i].actual[idx] {
            proof {
                assert(fit_samples(after, h).xs =~= fit_samples(before, h).xs.push(
                    train@[i as int].factors,
                ));
                assert(fit_samples(after, h).ys =~= fit_samples(before, h).ys.push(y));
            }
            xs.push(train[i].factors);
            ys.push(y);
        }
        i = i + 1;
    }
    assert(train@.take(i as int) =~= train@);
    if xs.len() < 3 {
        return None;
    }
    proof {
        let s = fit_samples(train@, h);
        assert((Samples { xs: xs@, ys: ys@ }) == s);
    }
    Some(nonneg_ridge(xs.as_slice(), ys.as_slice(), &prior.beta, prior.intercept, lambda))
}

/// What a model predicts of the samples, and what came of it.
pub open spec fn judged<T: Real>(
    model: FittedModel<T>,
    rows: Seq<SampleRow<T>>,
    h: Horizon,
) -> Seq<(Option<T>, Option<T>)> {
    rows.map_values(
        |s: SampleRow<T>|
            (
                Some(model.params_spec(h).predict_spec(s.factors@)),
                s.actual@[h.index_spec()],
            ),
    )
}

/// Are these the metrics of the model on the samples?
pub open spec fn judges<T: Real>(
    m: Seq<HorizonMetrics<T>>,
    model: FittedModel<T>,
    rows: Seq<SampleRow<T>>,
    dir_thresh: T,
) -> bool {
    &&& m.len() == 3
    &&& forall|h: Horizon|
        {
            &&& (#[trigger] m[h.index_spec()]).sums_up(
                MetricAcc::over(judged(model, rows, h), dir_thresh),
                h,
            )
            &&& m[h.index_spec()].buckets@.len() == 0
        }
}

fn judge<T: Real>(model: &FittedModel<T>, valid: &[SampleRow<T>], h: Horizon, dir_thresh: T) -> (r:
    HorizonMetrics<T>)
    requires
        valid@.len() <= i64::MAX,
    ensures
        r.sums_up(MetricAcc::over(judged(*model, valid@, h), dir_thresh), h),
        r.buckets@.len() == 0,
{
    let idx: usize = h.index();
    let params = model.params(h);
    let ghost pairs = judged(*model, valid@, h);
    let mut acc: MetricAcc<T> = MetricAcc::default();
    let mut i: usize = 0;
    assert(pairs.take(0) =~= Seq::<(Option<T>, Option<T>)>::empty());
    while i < valid.len()
        invariant
            0 <= i <= valid@.len() <= i64::MAX,
            idx == h.index_spec(),
            idx < 3,
            *params == model.params_spec(h),
            pairs == judged(*model, valid@, h),
            acc == MetricAcc::over(pairs.take(i as int), dir_thresh),
        decreases valid@.len() - i,
    {
        proof {
            assert(pairs.take(i + 1).drop_last() =~= pairs.take(i as int));
            assert(pairs.take(i + 1).last() == pairs[i as int]);
            MetricAcc::<T>::lemma_over_wf(pairs.take(i as int), dir_thresh);
        }
        acc.add(Some(params.predict(&valid[i].factors)), valid[i].actual[idx], dir_thresh);
        i = i + 1;
    }
    assert(pairs.take(i as int) =~= pairs);
    acc.to_metrics(h)
}

/// The metrics of a model on samples, one for each horizon.
pub fn eval_model<T: Real>(model: &FittedModel<T>, valid: &[SampleRow<T>], dir_thresh: T) -> (r: [
    HorizonMetrics<T>; 3])
    requires
        valid@.len() <= i64::MAX,
    ensures
        judges(r@, *model, valid@, dir_thresh),
{
    [
        judge(model, valid, Horizon::H10, dir_thresh),
        judge(model, valid, Horizon::H25, dir_thresh),
        judge(model, valid, Horizon::H50, dir_thresh),
    ]
}

/// Why a model is put to use or not. `place` is the place of the horizon.
#[derive(Clone, Copy, Debug)]
pub enum PromoteReason<T> {
    TooFewSamples { place: usize, n_valid: i64 },
    LowCoverage { place: usize, coverage: T, min_coverage: T },
    NoScores { place: usize },
    IcDrop { place: usize, drop: T, max_drop: T },
    NotFinite,
    TooLittleGain { gain: T, needed: T },
    Improved { gain: T },
}

/// What the rules for putting a model to use are set to.
#[derive(Clone, Copy, Debug)]
pub struct PromoteRules<T> {
    pub rmse_improve: T,
    pub max_ic_drop: T,
    pub min_samples: usize,
    pub min_coverage: T,
}

/// Why the metrics of one horizon cannot be judged, if so.
pub open spec fn unfit<T: Real>(m: HorizonMetrics<T>, place: usize, rules: PromoteRules<T>) -> Option<
    PromoteReason<T>,
> {
    if (m.n_valid as usize) < rules.min_samples {
        Some(PromoteReason::TooFewSamples { place, n_valid: m.n_valid })
    } else if m.coverage.below_spec(rules.min_coverage) {
        Some(
            PromoteReason::LowCoverage {
                place,
                coverage: m.coverage,
                min_coverage: rules.min_coverage,
            },
        )
    } else if m.rmse is None || m.ic is None {
        Some(PromoteReason::NoScores { place })
    } else {
        None
    }
}

/// By how much the correlation of one horizon drops.
pub open spec fn ic_drop<T: Real>(cur: HorizonMetrics<T>, cand: HorizonMetrics<T>) -> T {
    or_zero(cur.ic).minus_spec(or_zero(cand.ic))
}

/// Why one horizon stands in the way, if so: its correlation drops too far.
pub open spec fn worse<T: Real>(
    cur: HorizonMetrics<T>,
    cand: HorizonMetrics<T>,
    place: usize,
    rules: PromoteRules<T>,
) -> Option<PromoteReason<T>> {
    if rules.max_ic_drop.below_spec(ic_drop(cur, cand)) {
        Some(
            PromoteReason::IcDrop {
                place,
                drop: ic_drop(cur, cand),
                max_drop: rules.max_ic_drop,
            },
        )
    } else {
        None
    }
}

/// The error of one horizon, beyond all numbers where there is none.
pub open spec fn rmse_or_more<T: Real>(m: HorizonMetrics<T>) -> T {
    match m.rmse {
        Some(v) => v,
        None => T::infinity_spec(),
    }
}

/// The mean error of the three horizons.
pub open spec fn mean_rmse<T: Real>(m: Seq<HorizonMetrics<T>>) -> T {
    zero_spec::<T>().plus_spec(rmse_or_more(m[0])).plus_spec(rmse_or_more(m[1])).plus_spec(
        rmse_or_more(m[2]),
    ).over_spec(T::ratio_spec(3, 1))
}

/// The first reason in a row, if there is one.
pub open spec fn first_of<T>(
    a: Option<PromoteReason<T>>,
    b: Option<PromoteReason<T>>,
    c: Option<PromoteReason<T>>,
) -> Option<PromoteReason<T>> {
    if a is Some {
        a
    } else if b is Some {
        b
    } else {
        c
    }
}

/// How much of the mean error the candidate saves.
pub open spec fn gain_of<T: Real>(
    current: Seq<HorizonMetrics<T>>,
    candidate: Seq<HorizonMetrics<T>>,
) -> T {
    let cur = mean_rmse(current);
    cur.minus_spec(mean_rmse(candidate)).over_spec(larger_spec(cur, eps_spec()))
}

/// Whether a candidate is put to use in place of the current model, and why:
/// it needs enough samples and coverage, may not drop too far in correlation
/// in any horizon, and has to save enough of the error.
pub open spec fn promote_spec<T: Real>(
    current: Seq<HorizonMetrics<T>>,
    candidate: Seq<HorizonMetrics<T>>,
    rules: PromoteRules<T>,
) -> (bool, PromoteReason<T>) {
    let a = first_of(
        unfit(candidate[0], 0, rules),
        unfit(candidate[1], 1, rules),
        unfit(candidate[2], 2, rules),
    );
    let b = first_of(
        worse(current[0], candidate[0], 0, rules),
        worse(current[1], candidate[1], 1, rules),
        worse(current[2], candidate[2], 2, rules),
    );
    let gain = gain_of(current, candidate);
    if a is Some {
        (false, a->0)
    } else if b is Some {
        (false, b->0)
    } else if !finite_spec(mean_rmse(candidate)) || !finite_spec(mean_rmse(current)) {
        (false, PromoteReason::NotFinite)
    } else if gain.plus_spec(T::ratio_spec(1, 1_000_000_000_000_000)).below_spec(
        rules.rmse_improve,
    ) {
        (false, PromoteReason::TooLittleGain { gain, needed: rules.rmse_improve })
    } else {
        (true, PromoteReason::Improved { gain })
    }
}

fn unfit_reason<T: Real>(m: &HorizonMetrics<T>, place: usize, rules: &PromoteRules<T>) -> (r: Option<
    PromoteReason<T>,
>)
    ensures
        r == unfit(*m, place, *rules),
{
    if (m.n_valid as usize) < rules.min_samples {
        Some(PromoteReason::TooFewSamples { place, n_valid: m.n_valid })
    } else if m.coverage.below(rules.min_coverage) {
        Some(
            PromoteReason::LowCoverage {
                place,
                coverage: m.coverage,
                min_coverage: rules.min_coverage,
            },
        )
    } else if m.rmse.is_none() || m.ic.is_none() {
        Some(PromoteReason::NoScores { place })
    } else {
        None
    }
}

fn worse_reason<T: Real>(
    cur: &HorizonMetrics<T>,
    cand: &HorizonMetrics<T>,
    place: usize,
    rules: &PromoteRules<T>,
) -> (r: Option<PromoteReason<T>>)
    ensures
        r == worse(*cur, *cand, place, *rules),
{
    let cur_ic = match cur.ic {
        Some(v) => v,
        None => zero(),
    };
    let cand_ic = match cand.ic {
        Some(v) => v,
        None => zero(),
    };
    let drop = cur_ic.minus(cand_ic);
    if rules.max_ic_drop.below(drop) {
        Some(PromoteReason::IcDrop { place, drop, max_drop: rules.max_ic_drop })
    } else {
        None
    }
}

fn rmse_of<T: Real>(m: &HorizonMetrics<T>) -> (r: T)
    ensures
        r == rmse_or_more(*m),
{
    match m.rmse {
        Some(v) => v,
        None => T::infinity(),
    }
}

fn mean_rmse_of<T: Real>(m: &[HorizonMetrics<T>; 3]) -> (r: T)
    ensures
        r == mean_rmse(m@),
{
    zero::<T>().plus(rmse_of(&m[0])).plus(rmse_of(&m[1])).plus(rmse_of(&m[2])).over(T::ratio(3, 1))
}

/// Is a candidate put to use in place of the current model, and why?
pub fn promotion<T: Real>(
    current: &[HorizonMetrics<T>; 3],
    candidate: &[HorizonMetrics<T>; 3],
    rmse_improve: T,
    max_ic_drop: T,
    min_samples: usize,
    min_coverage: T,
) -> (r: (bool, PromoteReason<T>))
    ensures
        r == promote_spec(
            current@,
            candidate@,
            PromoteRules { rmse_improve, max_ic_drop, min_samples, min_coverage },
        ),
{
    let rules = PromoteRules { rmse_improve, max_ic_drop, min_samples, min_coverage };
    let mut i: usize = 0;
    while i < 3
        invariant
            0 <= i <= 3,
            forall|k: usize| 0 <= k < i ==> #[trigger] unfit(candidate@[k as int], k, rules) is None,
            rules == (PromoteRules { rmse_improve, max_ic_drop, min_samples, min_coverage }),
        decreases 3 - i,
    {
        if let Some(reason) = unfit_reason(&candidate[i], i, &rules) {
            proof {
                assert(i > 0 ==> unfit(candidate@[0], 0, rules) is None);
                assert(i > 1 ==> unfit(candidate@[1], 1, rules) is None);
            }
            return (false, reason);
        }
        i = i + 1;
    }
    proof {
        assert(unfit(candidate@[0], 0, rules) is None);
        assert(unfit(candidate@[1], 1, rules) is None);
        assert(unfit(candidate@[2], 2, rules) is None);
    }
    let mut i: usize = 0;
    while i < 3
        invariant
            0 <= i <= 3,
            unfit(candidate@[0], 0, rules) is None,
            unfit(candidate@[1], 1, rules) is None,
            unfit(candidate@[2], 2, rules) is None,
            rules == (PromoteRules { rmse_improve, max_ic_drop, min_samples, min_coverage }),
            forall|k: usize|
                0 <= k < i ==> #[trigger] worse(
                    current@[k as int],
                    candidate@[k as int],
                    k,
                    rules,
                ) is None,
        decreases 3 - i,
    {
        if let Some(reason) = worse_reason(&current[i], &candidate[i], i, &rules) {
            proof {
                assert(i > 0 ==> worse(current@[0], candidate@[0], 0, rules) is None);
                assert(i > 1 ==> worse(current@[1], candidate@[1], 1, rules) is None);
            }
            return (false, reason);
        }
        i = i + 1;
    }
    proof {
        assert(worse(current@[0], candidate@[0], 0, rules) is None);
        assert(worse(current@[1], candidate@[1], 1, rules) is None);
        assert(worse(current@[2], candidate@[2], 2, rules) is None);
    }
    let cur = mean_rmse_of(current);
    let cand = mean_rmse_of(candidate);
    if !finite(cand) || !finite(cur) {
        return (false, PromoteReason::NotFinite);
    }
    let gain = cur.minus(cand).over(larger(cur, eps()));
    if gain.plus(T::ratio(1, 1_000_000_000_000_000)).below(rmse_improve) {
        return (false, PromoteReason::TooLittleGain { gain, needed: rmse_improve });
    }
    (true, PromoteReason::Improved { gain })
}

/// A reason in words. The horizons go by the names in the candidate's metrics.
pub open spec fn reason_text<T: Real>(
    reason: PromoteReason<T>,
    candidate: Seq<HorizonMetrics<T>>,
) -> Seq<char> {
    match reason {
        PromoteReason::TooFewSamples { place, n_valid } => candidate[place as int].horizon@
            + " too few valid samples "@ + integer_text(n_valid as int),
        PromoteReason::LowCoverage { place, coverage, min_coverage } => candidate[place as int].horizon@
            + " coverage "@ + coverage.text_spec()@ + " below "@ + min_coverage.text_spec()@,
        PromoteReason::NoScores { place } => candidate[place as int].horizon@
            + " missing rmse/ic"@,
        PromoteReason::IcDrop { place, drop, max_drop } => candidate[place as int].horizon@
            + " IC drop "@ + drop.text_spec()@ + " > "@ + max_drop.text_spec()@,
        PromoteReason::NotFinite => "rmse not finite"@,
        PromoteReason::TooLittleGain { gain, needed } => "mean RMSE improve "@
            + gain.text_spec()@ + " < "@ + needed.text_spec()@,
        PromoteReason::Improved { gain } => "mean RMSE improve "@ + gain.text_spec()@,
    }
}

/// The horizon that a reason speaks of has its metrics.
pub open spec fn names_horizon<T>(reason: PromoteReason<T>) -> bool {
    match reason {
        PromoteReason::TooFewSamples { place, .. } => place < 3,
        PromoteReason::LowCoverage { place, .. } => place < 3,
        PromoteReason::NoScores { place } => place < 3,
        PromoteReason::IcDrop { place, .. } => place < 3,
        _ => true,
    }
}

fn reason_in_words<T: Real>(
    reason: PromoteReason<T>,
    candidate: &[HorizonMetrics<T>; 3],
) -> (r: String)
    requires
        names_horizon(reason),
    ensures
        r@ == reason_text(reason, candidate@),
{
    match reason {
        PromoteReason::TooFewSamples { place, n_valid } => {
            let mut out = candidate[place].horizon.clone();
            out.append(" too few valid samples ");
            push_integer(&mut out, n_valid);
            out
        },
        PromoteReason::LowCoverage { place, coverage, min_coverage } => {
            let mut out = candidate[place].horizon.clone();
            out.append(" coverage ");
            out.append(coverage.text().as_str());
            out.append(" below ");
            out.append(min_coverage.text().as_str());
            out
        },
        PromoteReason::NoScores { place } => {
            let mut out = candidate[place].horizon.clone();
            out.append(" missing rmse/ic");
            out
        },
        PromoteReason::IcDrop { place, drop, max_drop } => {
            let mut out = candidate[place].horizon.clone();
            out.append(" IC drop ");
            out.append(drop.text().as_str());
            out.append(" > ");
            out.append(max_drop.text().as_str());
            out
        },
        PromoteReason::NotFinite => "rmse not finite".to_string(),
        PromoteReason::TooLittleGain { gain, needed } => {
            let mut out = "mean RMSE improve ".to_string();
            out.append(gain.text().as_str());
            out.append(" < ");
            out.append(needed.text().as_str());
            out
        },
        PromoteReason::Improved { gain } => {
            let mut out = "mean RMSE improve ".to_string();
            out.append(gain.text().as_str());
            out
        },
    }
}

/// Is a candidate put to use in place of the current model, and why, in words?
pub fn should_promote<T: Real>(
    current: &[HorizonMetrics<T>; 3],
    candidate: &[HorizonMetrics<T>; 3],
    rmse_improve: T,
    max_ic_drop: T,
    min_samples: usize,
    min_coverage: T,
) -> (r: (bool, String))
    ensures
        ({
            let (promote, reason) = promote_spec(
                current@,
                candidate@,
                PromoteRules { rmse_improve, max_ic_drop, min_samples, min_coverage },
            );
            r.0 == promote && r.1@ == reason_text(reason, candidate@)
        }),
{
    let (promote, reason) = promotion(
        current,
        candidate,
        rmse_improve,
        max_ic_drop,
        min_samples,
        min_coverage,
    );
    (promote, reason_in_words(reason, candidate))
}

/// A model is put to use only where every horizon has enough samples and
/// coverage, has scores, and does not drop too far in correlation.
pub proof fn lemma_promoted<T: Real>(
    current: Seq<HorizonMetrics<T>>,
    candidate: Seq<HorizonMetrics<T>>,
    rules: PromoteRules<T>,
    i: int,
)
    requires
        0 <= i < 3,
        promote_spec(current, candidate, rules).0,
    ensures
        candidate[i].n_valid as usize >= rules.min_samples,
        !candidate[i].coverage.below_spec(rules.min_coverage),
        candidate[i].rmse is Some,
        candidate[i].ic is Some,
        !rules.max_ic_drop.below_spec(ic_drop(current[i], candidate[i])),
        finite_spec(mean_rmse(current)),
        finite_spec(mean_rmse(candidate)),
{
}

/// What training came to.
#[derive(Debug)]
pub struct TrainDecision<T> {
    pub promote: bool,
    pub reason: String,
    pub candidate: FittedModel<T>,
    pub current_metrics: [HorizonMetrics<T>; 3],
    pub candidate_metrics: [HorizonMetrics<T>; 3],
}

impl<T: Real> Clone for TrainDecision<T> {
    fn clone(&self) -> (r: Self)
        ensures
            r.promote == self.promote,
            r.reason == self.reason,
            r.candidate == self.candidate,
            forall|i: int|
                0 <= i < 3 ==> (#[trigger] r.current_metrics@[i]).same_as(
                    self.current_metrics@[i],
                ),
            forall|i: int|
                0 <= i < 3 ==> (#[trigger] r.candidate_metrics@[i]).same_as(
                    self.candidate_metrics@[i],
                ),
    {
        TrainDecision {
            promote: self.promote,
            reason: self.reason.clone(),
            candidate: self.candidate.clone(),
            current_metrics: copied(&self.current_metrics),
            candidate_metrics: copied(&self.candidate_metrics),
        }
    }
}

fn copied<T: Real>(m: &[HorizonMetrics<T>; 3]) -> (r: [HorizonMetrics<T>; 3])
    ensures
        forall|i: int| 0 <= i < 3 ==> (#[trigger] r@[i]).same_as(m@[i]),
{
    [m[0].clone(), m[1].clone(), m[2].clone()]
}

/// The coefficients of a cold start.
pub open spec fn cold_prior<T: Real>(h: Horizon) -> Seq<T> {
    match h {
        Horizon::H10 => cold_weights::<T>(RAW_W10@, RENORM_10),
        Horizon::H25 => cold_weights::<T>(RAW_W25@, RENORM_25),
        Horizon::H50 => cold_weights::<T>(RAW_W50@, RENORM_50),
    }
}

/// What the coefficients are drawn towards: those of the current model, or of
/// a cold start where that is provisional.
pub open spec fn prior_of<T: Real>(current: FittedModel<T>, h: Horizon) -> Seq<T> {
    if current.status == ModelStatus::Provisional {
        cold_prior(h)
    } else {
        current.params_spec(h).beta@
    }
}

/// The lowest coefficient that passes for one not below zero: `-10^-12`.
pub open spec fn slack_spec<T: Real>() -> T {
    T::ratio_spec((-1) as i64, 1_000_000_000_000)
}

/// Is coefficient `b` a number that can be used?
pub open spec fn sound_beta<T: Real>(b: T) -> bool {
    finite_spec(b) && !b.below_spec(slack_spec())
}

/// Can the parameters be used?
pub open spec fn sound<T: Real>(p: HorizonParams<T>) -> bool {
    &&& forall|k: int| 0 <= k < FEATURE_COUNT ==> sound_beta(#[trigger] p.beta@[k])
    &&& finite_spec(p.intercept)
}

fn is_sound<T: Real>(p: &HorizonParams<T>) -> (r: bool)
    ensures
        r == sound(*p),
{
    let mut k: usize = 0;
    while k < FEATURE_COUNT
        invariant
            0 <= k <= FEATURE_COUNT,
            forall|c: int| 0 <= c < k ==> sound_beta(#[trigger] p.beta@[c]),
        decreases FEATURE_COUNT - k,
    {
        if !finite(p.beta[k]) || p.beta[k].below(T::ratio(-1, 1_000_000_000_000)) {
            assert(!sound_beta(p.beta@[k as int]));
            return false;
        }
        k = k + 1;
    }
    finite(p.intercept)
}

/// The parameters that are fitted to the samples for each horizon.
pub struct Fit<T> {
    pub h10: HorizonParams<T>,
    pub h25: HorizonParams<T>,
    pub h50: HorizonParams<T>,
}

/// Are these the parameters that are fitted to the samples?
pub open spec fn is_fit<T: Real>(
    f: Fit<T>,
    train: Seq<SampleRow<T>>,
    current: FittedModel<T>,
    lambda: T,
) -> bool {
    &&& fits(Some(f.h10), train, Horizon::H10, prior_of(current, Horizon::H10), lambda)
    &&& fits(Some(f.h25), train, Horizon::H25, prior_of(current, Horizon::H25), lambda)
    &&& fits(Some(f.h50), train, Horizon::H50, prior_of(current, Horizon::H50), lambda)
    &&& sound(f.h10)
    &&& sound(f.h25)
    &&& sound(f.h50)
}

/// Fits parameters for each horizon, if there are enough labels and the
/// parameters can be used.
fn fit_all<T: Real>(train: &[SampleRow<T>], current: &FittedModel<T>, lambda: T) -> (r: Option<Fit<T>>)
    requires
        train@.len() <= i64::MAX,
    ensures
        match r {
            Some(f) => is_fit(f, train@, *current, lambda),
            None => forall|f: Fit<T>| !(#[trigger] is_fit(f, train@, *current, lambda)),
        },
{
    let (p10, p25, p50) = match current.status {
        ModelStatus::Provisional => {
            let w = cold_start_weights::<T>();
            (
                HorizonParams { intercept: zero(), beta: w[0] },
                HorizonParams { intercept: zero(), beta: w[1] },
                HorizonParams { intercept: zero(), beta: w[2] },
            )
        },
        _ => (current.h10, current.h25, current.h50),
    };
    let f10 = fit_horizon(train, Horizon::H10, &p10, lambda);
    let f25 = fit_horizon(train, Horizon::H25, &p25, lambda);
    let f50 = fit_horizon(train, Horizon::H50, &p50, lambda);
    match (f10, f25, f50) {
        (Some(h10), Some(h25), Some(h50)) => {
            if is_sound(&h10) && is_sound(&h25) && is_sound(&h50) {
                Some(Fit { h10, h25, h50 })
            } else {
                proof {
                    assert forall|f: Fit<T>| !(#[trigger] is_fit(f, train@, *current, lambda)) by {
                        if is_fit(f, train@, *current, lambda) {
                            assert(f.h10.beta@ =~= h10.beta@);
                            assert(f.h25.beta@ =~= h25.beta@);
                            assert(f.h50.beta@ =~= h50.beta@);
                            assert(sound(h10) && sound(h25) && sound(h50));
                        }
                    }
                }
                None
            }
        },
        _ => None,
    }
}

/// The fifth of the samples that a model has to be judged by at least.
pub open spec fn min_judged(min_train_samples: usize) -> usize {
    if min_train_samples / 5 >= 1 {
        min_train_samples / 5
    } else {
        1
    }
}

/// The rules that the settings give.
pub open spec fn rules_of<T>(cfg: Config<T>) -> PromoteRules<T> {
    PromoteRules {
        rmse_improve: cfg.promote_rmse_improve,
        max_ic_drop: cfg.promote_max_ic_drop,
        min_samples: min_judged(cfg.min_train_samples),
        min_coverage: cfg.min_coverage,
    }
}

/// Is this the candidate that is trained from the samples, named and made at
/// these times?
pub open spec fn is_candidate<T: Real>(
    m: FittedModel<T>,
    samples: Seq<SampleRow<T>>,
    current: FittedModel<T>,
    lambda: T,
    promote: bool,
    named_at_ms: i64,
    created_at_ms: i64,
) -> bool {
    let cut = cut_spec::<T>(samples.len() as int);
    let train = samples.take(cut);
    let valid = samples.skip(cut);
    &&& m.version@ == "trained-"@ + integer_text(named_at_ms as int)
    &&& m.status == (if promote {
        ModelStatus::Active
    } else {
        ModelStatus::Rejected
    })
    &&& m.feature_version@ == FEATURE_VERSION@
    &&& is_fit(Fit { h10: m.h10, h25: m.h25, h50: m.h50 }, train, current, lambda)
    &&& m.train_start_ms == Some(train[0].ts_ms)
    &&& m.train_end_ms == Some(train.last().ts_ms)
    &&& m.valid_start_ms == Some(valid[0].ts_ms)
    &&& m.valid_end_ms == Some(valid.last().ts_ms)
    &&& m.train_params_json@ == params_text(
        lambda,
        train.len() as int,
        valid.len() as int,
        current.version@,
    )
    &&& m.created_at_ms == created_at_ms
    &&& m.activated_at_ms is None
    &&& m.depth_granularity_note@ == DEPTH_GRANULARITY_NOTE@
}

impl<T: Real> TrainDecision<T> {
    /// Is this what training with the samples comes to?
    pub open spec fn decides(
        self,
        samples: Seq<SampleRow<T>>,
        current: FittedModel<T>,
        lambda: T,
        cfg: Config<T>,
        named_at_ms: i64,
        created_at_ms: i64,
    ) -> bool {
        let cut = cut_spec::<T>(samples.len() as int);
        let valid = samples.skip(cut);
        &&& is_candidate(
            self.candidate,
            samples,
            current,
            lambda,
            self.promote,
            named_at_ms,
            created_at_ms,
        )
        &&& judges(self.current_metrics@, current, valid, cfg.directional_pred_threshold)
        &&& judges(self.candidate_metrics@, self.candidate, valid, cfg.directional_pred_threshold)
        &&& self.promote == promote_spec(
            self.current_metrics@,
            self.candidate_metrics@,
            rules_of(cfg),
        ).0
        &&& self.reason@ == reason_text(
            promote_spec(self.current_metrics@, self.candidate_metrics@, rules_of(cfg)).1,
            self.candidate_metrics@,
        )
        &&& self.candidate.metrics_json@ == decision_text(
            self.current_metrics@,
            self.candidate_metrics@,
            self.promote,
            self.reason@,
        )
    }
}

/// Are there too few samples, or is nothing fitted to them that can be used?
pub open spec fn nothing_trained<T: Real>(
    samples: Seq<SampleRow<T>>,
    current: FittedModel<T>,
    lambda: T,
    cfg: Config<T>,
) -> bool {
    let train = samples.take(cut_spec::<T>(samples.len() as int));
    samples.len() < cfg.min_train_samples || forall|f: Fit<T>|
        !(#[trigger] is_fit(f, train, current, lambda))
}

/// Trains a candidate that is named and made at these times, and decides
/// whether it is to be put to use. The older samples train it, the newer ones
/// judge it against the current model.
pub fn train_candidate_at<T: Real>(
    samples: &[SampleRow<T>],
    current: &FittedModel<T>,
    lambda: T,
    cfg: &Config<T>,
    named_at_ms: i64,
    created_at_ms: i64,
) -> (r: Option<TrainDecision<T>>)
    requires
        samples@.len() <= i64::MAX,
        cfg.min_train_samples <= samples@.len() ==> samples@.len() >= 2,
    ensures
        match r {
            Some(d) => {
                &&& samples@.len() >= cfg.min_train_samples
                &&& d.decides(samples@, *current, lambda, *cfg, named_at_ms, created_at_ms)
            },
            None => nothing_trained(samples@, *current, lambda, *cfg),
        },
{
    if samples.len() < cfg.min_train_samples {
        return None;
    }
    let (train, valid) = time_split(samples);
    let fit = match fit_all(train, current, lambda) {
        Some(f) => f,
        None => {
            return None;
        },
    };
    let mut version = "trained-".to_string();
    push_integer(&mut version, named_at_ms);
    let mut candidate = FittedModel {
        version,
        status: ModelStatus::Rejected,
        feature_version: FEATURE_VERSION.to_string(),
        h10: fit.h10,
        h25: fit.h25,
        h50: fit.h50,
        train_start_ms: Some(train[0].ts_ms),
        train_end_ms: Some(train[train.len() - 1].ts_ms),
        valid_start_ms: Some(valid[0].ts_ms),
        valid_end_ms: Some(valid[valid.len() - 1].ts_ms),
        train_params_json: params_json(
            lambda,
            train.len() as i64,
            valid.len() as i64,
            current.version.as_str(),
        ),
        metrics_json: "{}".to_string(),
        created_at_ms,
        activated_at_ms: None,
        depth_granularity_note: DEPTH_GRANULARITY_NOTE.to_string(),
    };
    let current_metrics = eval_model(current, valid, cfg.directional_pred_threshold);
    let candidate_metrics = eval_model(&candidate, valid, cfg.directional_pred_threshold);
    let ghost judged_model = candidate;
    let fifth: usize = cfg.min_train_samples / 5;
    let (promote, reason) = should_promote(
        &current_metrics,
        &candidate_metrics,
        cfg.promote_rmse_improve,
        cfg.promote_max_ic_drop,
        if fifth >= 1 {
            fifth
        } else {
            1
        },
        cfg.min_coverage,
    );
    candidate.metrics_json = decision_json(
        &current_metrics,
        &candidate_metrics,
        promote,
        reason.as_str(),
    );
    if promote {
        candidate.status = ModelStatus::Active;
    }
    proof {
        assert forall|h: Horizon|
            #![trigger candidate_metrics@[h.index_spec()]]
            judged(judged_model, valid@, h) == judged(candidate, valid@, h) by {
            assert(judged(judged_model, valid@, h) =~= judged(candidate, valid@, h));
        }
    }
    Some(
        TrainDecision {
            promote,
            reason,
            candidate,
            current_metrics,
            candidate_metrics,
        },
    )
}

/// Trains a candidate, and decides whether it is to be put to use.
pub fn train_candidate<T: Real>(
    samples: &[SampleRow<T>],
    current: &FittedModel<T>,
    lambda: T,
    cfg: &Config<T>,
) -> (r: Option<TrainDecision<T>>)
    requires
        samples@.len() <= i64::MAX,
        cfg.min_train_samples <= samples@.len() ==> samples@.len() >= 2,
    ensures
        match r {
            Some(d) => samples@.len() >= cfg.min_train_samples && exists|named: i64, created: i64|
                #[trigger] d.decides(samples@, *current, lambda, *cfg, named, created),
            None => nothing_trained(samples@, *current, lambda, *cfg),
        },
{
    let named: i64 = now_ms();
    let created: i64 = now_ms();
    train_candidate_at(samples, current, lambda, cfg, named, created)
}

/// Where the current model is provisional, what it holds has no part in the
/// fit: training with the same samples fits the same parameters from any two
/// provisional models.
pub proof fn lemma_provisional_prior<T: Real>(
    d: TrainDecision<T>,
    e: TrainDecision<T>,
    samples: Seq<SampleRow<T>>,
    of_d: FittedModel<T>,
    of_e: FittedModel<T>,
    lambda: T,
    cfg: Config<T>,
    times: (i64, i64, i64, i64),
    h: Horizon,
)
    requires
        d.decides(samples, of_d, lambda, cfg, times.0, times.1),
        e.decides(samples, of_e, lambda, cfg, times.2, times.3),
        of_d.status == ModelStatus::Provisional,
        of_e.status == ModelStatus::Provisional,
    ensures
        d.candidate.params_spec(h) == e.candidate.params_spec(h),
{
    let p = d.candidate.params_spec(h);
    let q = e.candidate.params_spec(h);
    assert(p.beta@ == q.beta@);
    assert(p.beta =~= q.beta);
}

/// Where the current model is not provisional, the fit is that of
/// [`fit_horizon`] with the parameters of the current model for a prior:
/// whatever that fits to the training part is there, and is in the candidate.
pub proof fn lemma_current_prior<T: Real>(
    d: TrainDecision<T>,
    samples: Seq<SampleRow<T>>,
    current: FittedModel<T>,
    lambda: T,
    cfg: Config<T>,
    named_at_ms: i64,
    created_at_ms: i64,
    h: Horizon,
    fitted: Option<HorizonParams<T>>,
)
    requires
        d.decides(samples, current, lambda, cfg, named_at_ms, created_at_ms),
        current.status != ModelStatus::Provisional,
        fits(
            fitted,
            samples.take(cut_spec::<T>(samples.len() as int)),
            h,
            current.params_spec(h).beta@,
            lambda,
        ),
    ensures
        fitted == Some(d.candidate.params_spec(h)),
{
    let p = d.candidate.params_spec(h);
    assert(fitted is Some);
    assert(fitted->0.beta@ == p.beta@);
    assert(fitted->0.beta =~= p.beta);
}

/// A trained model is either put to use or rejected, never left provisional,
/// and only coefficients that can be used are in it.
pub proof fn lemma_candidate_sound<T: Real>(
    d: TrainDecision<T>,
    samples: Seq<SampleRow<T>>,
    current: FittedModel<T>,
    lambda: T,
    cfg: Config<T>,
    named_at_ms: i64,
    created_at_ms: i64,
    h: Horizon,
)
    requires
        d.decides(samples, current, lambda, cfg, named_at_ms, created_at_ms),
    ensures
        sound(d.candidate.params_spec(h)),
        d.promote <==> d.candidate.status == ModelStatus::Active,
        !d.promote <==> d.candidate.status == ModelStatus::Rejected,
{
}

/// Milliseconds in the longest span of time that the settings can hold.
pub const LONGEST_SPAN_MS: i64 = 18_446_744_073_709;

/// When training takes place, and over which time.
#[derive(Clone, Copy, Debug)]
pub struct Schedule {
    pub first_ms: i64,
    pub period_ms: i64,
    pub window_ms: i64,
}

impl Schedule {
    pub open spec fn of<T>(cfg: Config<T>) -> Self {
        Schedule {
            first_ms: (cfg.first_train_after / 1_000_000) as i64,
            period_ms: (cfg.train_period / 1_000_000) as i64,
            window_ms: (cfg.train_window / 1_000_000) as i64,
        }
    }

    /// Spans that are not below zero and not longer than settings can hold.
    pub open spec fn wf(self) -> bool {
        &&& 0 <= self.first_ms <= LONGEST_SPAN_MS
        &&& 0 <= self.period_ms <= LONGEST_SPAN_MS
        &&& 0 <= self.window_ms <= LONGEST_SPAN_MS
    }

    /// The schedule that the settings give.
    pub fn from_config<T: Real>(cfg: &Config<T>) -> (r: Self)
        ensures
            r == Schedule::of(*cfg),
            r.wf(),
    {
        Schedule {
            first_ms: (cfg.first_train_after / 1_000_000) as i64,
            period_ms: (cfg.train_period / 1_000_000) as i64,
            window_ms: (cfg.train_window / 1_000_000) as i64,
        }
    }
}

/// What the trainer does at a tick.
#[derive(Clone, Copy, Debug, PartialEq, Eq, Structural)]
pub enum TrainerTick {
    /// Nothing: samples cannot be stored.
    Paused,
    /// Only the next time for training is told.
    Wait { next_train_ms: i64 },
    /// A candidate is trained with the samples since this time.
    Train { next_train_ms: i64, since_ms: i64 },
}

/// How training ended.
#[derive(Debug)]
pub enum TrainOutcome<T> {
    Decided(TrainDecision<T>),
    /// There were not enough samples.
    NotEnough,
    /// The samples could not be read, or training broke off.
    Failed,
}

/// What follows on training.
#[derive(Debug)]
pub enum TrainerAction<T> {
    /// The model is stored, and put in force once it is.
    Promote(FittedModel<T>),
    /// The model is stored, and not put in force.
    Record(FittedModel<T>),
    Nothing,
}

/// When the last training was.
#[derive(Clone, Copy, Debug)]
pub struct Trainer {
    pub last_train_ms: Option<i64>,
}

impl Trainer {
    pub open spec fn tick_spec(
        self,
        phase: RunPhase,
        now: i64,
        span: Option<(i64, i64)>,
        s: Schedule,
    ) -> TrainerTick {
        let next = next_train_spec(now, span, self.last_train_ms, s.first_ms, s.period_ms) as i64;
        if phase == RunPhase::Degraded {
            TrainerTick::Paused
        } else if should_train_spec(now, span, self.last_train_ms, s.first_ms, s.period_ms) {
            TrainerTick::Train { next_train_ms: next, since_ms: (now - s.window_ms) as i64 }
        } else {
            TrainerTick::Wait { next_train_ms: next }
        }
    }

    /// Do all times that a tick reckons with stay in range?
    pub open spec fn tick_fits(
        self,
        phase: RunPhase,
        now: i64,
        span: Option<(i64, i64)>,
        s: Schedule,
    ) -> bool {
        phase != RunPhase::Degraded ==> {
            &&& times_fit(now, span, self.last_train_ms, s.first_ms, s.period_ms)
            &&& wait_fits(now, span, self.last_train_ms, s.first_ms)
            &&& should_train_spec(now, span, self.last_train_ms, s.first_ms, s.period_ms)
                ==> in_i64(now - s.window_ms)
        }
    }

    pub fn new() -> (r: Self)
        ensures
            r.last_train_ms is None,
    {
        Trainer { last_train_ms: None }
    }

    /// Do all times that [`Trainer::on_tick`] reckons with stay in range?
    pub fn can_tick(
        &self,
        phase: RunPhase,
        now: i64,
        span: Option<(i64, i64)>,
        s: &Schedule,
    ) -> (r: bool)
        ensures
            r == self.tick_fits(phase, now, span, *s),
    {
        if let RunPhase::Degraded = phase {
            return true;
        }
        let next_fits = match (span, self.last_train_ms) {
            (None, _) => now.checked_add(s.first_ms).is_some(),
            (Some((first, last)), None) => match first.checked_add(s.first_ms) {
                None => false,
                Some(ready_at) => last >= ready_at || match ready_at.checked_sub(last) {
                    None => false,
                    Some(wait) => now.checked_add(wait).is_some(),
                },
            },
            (Some(_), Some(t)) => t.checked_add(s.period_ms).is_some(),
        };
        if !next_fits || !reaches(now, span, s.first_ms) {
            return next_fits;
        }
        let due = match self.last_train_ms {
            None => true,
            Some(t) => match now.checked_sub(t) {
                None => {
                    return false;
                },
                Some(ago) => ago >= s.period_ms,
            },
        };
        !due || now.checked_sub(s.window_ms).is_some()
    }

    /// What is to be done at this time, with labelled samples over this span.
    pub fn on_tick(
        &self,
        phase: RunPhase,
        now: i64,
        span: Option<(i64, i64)>,
        s: &Schedule,
    ) -> (r: TrainerTick)
        requires
            self.tick_fits(phase, now, span, *s),
        ensures
            r == self.tick_spec(phase, now, span, *s),
    {
        match phase {
            RunPhase::Degraded => TrainerTick::Paused,
            _ => {
                let next: i64 = next_train_time(
                    now,
                    span,
                    self.last_train_ms,
                    s.first_ms,
                    s.period_ms,
                );
                if should_train(now, span, self.last_train_ms, s.first_ms, s.period_ms) {
                    TrainerTick::Train { next_train_ms: next, since_ms: now - s.window_ms }
                } else {
                    TrainerTick::Wait { next_train_ms: next }
                }
            },
        }
    }

    /// What follows on training that ended at this time, and when the next
    /// one is expected. Training that found too few samples does not count.
    pub fn on_outcome<T: Real>(
        &mut self,
        outcome: TrainOutcome<T>,
        now: i64,
        s: &Schedule,
    ) -> (r: (TrainerAction<T>, Option<i64>))
        requires
            outcome is NotEnough || in_i64(now + s.period_ms),
        ensures
            match outcome {
                TrainOutcome::Decided(d) => {
                    &&& final(self).last_train_ms == Some(now)
                    &&& r.1 == Some((now + s.period_ms) as i64)
                    &&& r.0 == (if d.promote {
                        TrainerAction::Promote(activated(d.candidate, now))
                    } else {
                        TrainerAction::Record(
                            FittedModel { status: ModelStatus::Rejected, ..d.candidate },
                        )
                    })
                },
                TrainOutcome::NotEnough => {
                    &&& *final(self) == *old(self)
                    &&& r.1 is None
                    &&& r.0 == TrainerAction::<T>::Nothing
                },
                TrainOutcome::Failed => {
                    &&& final(self).last_train_ms == Some(now)
                    &&& r.1 == Some((now + s.period_ms) as i64)
                    &&& r.0 == TrainerAction::<T>::Nothing
                },
            },
    {
        match outcome {
            TrainOutcome::Decided(d) => {
                self.last_train_ms = Some(now);
                let mut model = d.candidate;
                let action = if d.promote {
                    model.status = ModelStatus::Active;
                    model.activated_at_ms = Some(now);
                    TrainerAction::Promote(model)
                } else {
                    model.status = ModelStatus::Rejected;
                    TrainerAction::Record(model)
                };
                (action, Some(now + s.period_ms))
            },
            TrainOutcome::NotEnough => (TrainerAction::Nothing, None),
            TrainOutcome::Failed => {
                self.last_train_ms = Some(now);
                (TrainerAction::Nothing, Some(now + s.period_ms))
            },
        }
    }
}

/// A promoted model is put in force only once it has been stored.
pub fn on_stored<T: Real>(
    models: &mut ModelManager<T>,
    model: FittedModel<T>,
    stored: bool,
    now: i64,
) -> (switched: bool)
    ensures
        switched == stored,
        final(models)@ == (if stored {
            ManagerState { current: activated(model, now), ..old(models)@ }
        } else {
            old(models)@
        }),
{
    if stored {
        models.swap_active_at(model, now);
        true
    } else {
        false
    }
}

/// While samples cannot be stored nothing is trained, and once training has
/// come to a decision none follows within the period.
pub proof fn lemma_training_pauses(
    t: Trainer,
    phase: RunPhase,
    now: i64,
    span: Option<(i64, i64)>,
    s: Schedule,
)
    requires
        phase == RunPhase::Degraded || (t.last_train_ms matches Some(last) && now - last
            < s.period_ms),
    ensures
        !(t.tick_spec(phase, now, span, s) is Train),
{
}

} // verus!
