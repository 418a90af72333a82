use rust_decimal::prelude::ToPrimitive;
use serde_json::Value;
use trend_mm::config::Config;
use trend_mm::eval::{degraded_change, phase_of, CompletedSample, DegradedChange, Evaluator};
use trend_mm::fixed::{Fixed, LIMIT, UNIT};
use trend_mm::json::horizon_json;
use trend_mm::live::LiveState;
use trend_mm::market::book::MODEL_LEVELS;
use trend_mm::market::gate::MarketEvent;
use trend_mm::number::Real;
use trend_mm::ridge::gauss;
use trend_mm::signal::engine::SignalEngine;
use trend_mm::signal::model::{cold_start_model, cold_start_model_at};
use trend_mm::storage::{
    bucket_means, cleanup_cutoff, directional_hit, downsample, last_active, minute_of,
    minute_rows, parse_factors, parse_params, pearson, query_metrics, train_samples,
    BucketMean, HorizonMetrics, MetricAcc, ModelRow, Outcome, SampleRow, StoredParams,
};
use trend_mm::trainer::{
    eval_model, fit_horizon, next_train_time, nonneg_ridge, on_stored, promotion, should_promote,
    should_train, time_split, train_candidate, train_candidate_at, ModelManager, PromoteReason,
    Schedule, TrainOutcome, Trainer, TrainerAction, TrainerTick,
};
use trend_mm::types::{
    DataQuality, FittedModel, Horizon, ModelStatus, RunPhase, FEATURE_COUNT, FEATURE_VERSION,
};
use trend_mm::web::{metric_windows, point_of, MetricWindow, SamplesQ};

const MS: u64 = 1_000_000;

#[derive(Clone, Copy, Debug, PartialEq)]
struct F(f64);

impl Real for F {
    fn ratio_spec(num: i64, den: i64) -> F {
        F::ratio(num, den)
    }
    fn plus_spec(self, r: F) -> F {
        self.plus(r)
    }
    fn minus_spec(self, r: F) -> F {
        self.minus(r)
    }
    fn times_spec(self, r: F) -> F {
        self.times(r)
    }
    fn over_spec(self, r: F) -> F {
        self.over(r)
    }
    fn root_spec(self) -> F {
        self.root()
    }
    fn magnitude_spec(self) -> F {
        self.magnitude()
    }
    fn negative_spec(self) -> bool {
        self.negative()
    }
    fn floor_spec(self) -> usize {
        self.floor()
    }
    fn below_spec(self, r: F) -> bool {
        self.below(r)
    }
    fn at_most_spec(self, r: F) -> bool {
        self.at_most(r)
    }
    fn rank_spec(self) -> i128 {
        self.rank()
    }
    fn infinity_spec() -> F {
        F::infinity()
    }
    fn from_decimal_spec(m: i128, s: u32) -> F {
        F::from_decimal(m, s)
    }
    fn text_spec(self) -> String {
        self.text()
    }
    fn json_spec(self) -> String {
        self.json()
    }
    fn law_order(_a: F, _b: F) {}
    fn law_whole(_m: i64, _n: i64) {}
    fn law_whole_quotient(_n: i64, _d: i64) {}
    fn law_quotient_order(_a: F, _b: F, _c: F) {}
    fn law_quotient_number(_a: F, _b: F) {}
    fn law_root(_a: F) {}
    fn law_sum_above_zero(_a: F, _b: F) {}
    fn law_eps() {}
    fn law_no_difference(_a: F) {}
    fn text(self) -> String {
        format!("{}", self.0)
    }
    fn json(self) -> String {
        serde_json::Value::from(self.0).to_string()
    }
    fn ratio(num: i64, den: i64) -> F {
        F(num as f64 / den as f64)
    }
    fn plus(self, r: F) -> F {
        F(self.0 + r.0)
    }
    fn minus(self, r: F) -> F {
        F(self.0 - r.0)
    }
    fn times(self, r: F) -> F {
        F(self.0 * r.0)
    }
    fn over(self, r: F) -> F {
        F(self.0 / r.0)
    }
    fn root(self) -> F {
        F(self.0.sqrt())
    }
    fn magnitude(self) -> F {
        F(self.0.abs())
    }
    fn negative(self) -> bool {
        self.0.is_sign_negative()
    }
    fn floor(self) -> usize {
        self.0.floor() as usize
    }
    fn below(self, r: F) -> bool {
        self.0 < r.0
    }
    fn at_most(self, r: F) -> bool {
        self.0 <= r.0
    }
    fn rank(self) -> i128 {
        let b = self.0.to_bits() as i64;
        (b ^ (((b >> 63) as u64) >> 1) as i64) as i128
    }
    fn infinity() -> F {
        F(f64::INFINITY)
    }
    fn from_decimal(m: i128, s: u32) -> F {
        F(rust_decimal::Decimal::from_i128_with_scale(m, s).to_f64().unwrap())
    }
}

fn some(v: [f64; 3]) -> [Option<F>; 3] {
    [Some(F(v[0])), Some(F(v[1])), Some(F(v[2]))]
}

fn row(ts: i64, x0: f64, y: f64) -> SampleRow<F> {
    let mut factors = [F(0.0); FEATURE_COUNT];
    factors[0] = F(x0);
    SampleRow {
        ts_ms: ts,
        mid: F(100.0),
        tick_size: F(0.1),
        factors,
        model_version: "v".into(),
        feature_version: FEATURE_VERSION.into(),
        pred: some([0.0; 3]),
        actual: some([y; 3]),
        quality: "ok".into(),
    }
}

fn sample_row(ts: i64, feat: &str, pred: [f64; 3], actual: [Option<F>; 3]) -> SampleRow<F> {
    SampleRow {
        ts_ms: ts,
        mid: F(100.0),
        tick_size: F(0.1),
        factors: [F(0.1); FEATURE_COUNT],
        model_version: "provisional-cold-start".into(),
        feature_version: feat.into(),
        pred: some(pred),
        actual,
        quality: "ok".into(),
    }
}

#[test]
fn feature_version_mismatch_excluded_from_train() {
    let rows = train_samples(
        vec![
            sample_row(10, FEATURE_VERSION, [1.0; 3], some([1.0; 3])),
            sample_row(20, "old_factors", [1.0; 3], some([1.0; 3])),
        ],
        0,
        FEATURE_VERSION,
    );
    assert_eq!(rows.len(), 1);
    assert_eq!(rows[0].ts_ms, 10);
    assert_eq!(rows[0].feature_version, FEATURE_VERSION);
}

#[test]
fn training_takes_only_good_and_labelled_samples() {
    let mut stale = row(30, 0.0, 0.0);
    stale.quality = "stale".into();
    let mut unlabelled = row(40, 0.0, 0.0);
    unlabelled.actual[1] = None;
    let rows = train_samples(
        vec![row(5, 0.0, 0.0), row(10, 0.0, 0.0), stale, unlabelled, row(50, 0.0, 0.0)],
        10,
        FEATURE_VERSION,
    );
    let kept: Vec<i64> = rows.iter().map(|r| r.ts_ms).collect();
    assert_eq!(kept, vec![10, 50]);
}

#[test]
fn metrics_coverage_ic_mae_rmse_dir_and_buckets() {
    // three valid + one missing actual
    let rows = [
        Outcome { pred: some([1.0; 3]), actual: some([1.0; 3]) },
        Outcome { pred: some([2.0; 3]), actual: some([2.0; 3]) },
        Outcome { pred: some([3.0; 3]), actual: some([3.0; 3]) },
        Outcome { pred: some([4.0; 3]), actual: [None; 3] },
    ];
    let m = query_metrics(&rows, F(0.05));
    let h = &m[0];
    assert_eq!(h.horizon, "10ms");
    assert_eq!(h.n_total, 4);
    assert_eq!(h.n_valid, 3);
    assert!((h.coverage.0 - 0.75).abs() < 1e-12);
    let ic = h.ic.unwrap().0;
    assert!((ic - 1.0).abs() < 1e-9, "perfect correlation, got {ic}");
    assert!((h.mae.unwrap().0 - 0.0).abs() < 1e-12);
    assert!((h.rmse.unwrap().0 - 0.0).abs() < 1e-12);
    assert_eq!(h.dir_n, 3);
    assert_eq!(h.dir_hits, 3);
    assert!((h.dir_acc.unwrap().0 - 1.0).abs() < 1e-12);
    assert!(!h.buckets.is_empty());
    let mean: f64 = h.buckets.iter().map(|b| b.mean_actual.0 * b.n as f64).sum::<f64>()
        / h.buckets.iter().map(|b| b.n as f64).sum::<f64>();
    assert!((mean - 2.0).abs() < 1e-12);
}

#[test]
fn directional_only_when_actual_nonzero_and_pred_above_threshold() {
    assert_eq!(directional_hit(F(0.2), F(1.0), F(0.05)), Some(true));
    assert_eq!(directional_hit(F(-0.2), F(1.0), F(0.05)), Some(false));
    assert_eq!(directional_hit(F(0.2), F(0.0), F(0.05)), None);
    assert_eq!(directional_hit(F(0.01), F(1.0), F(0.05)), None);
}

#[test]
fn metrics_of_a_few_predictions() {
    let mut acc: MetricAcc<F> = MetricAcc::default();
    assert_eq!(acc.coverage(), F(0.0));
    assert!(acc.mae().is_none() && acc.rmse().is_none() && acc.dir_acc().is_none());
    assert!(acc.pearson_ic().is_none());
    acc.add(Some(F(1.0)), Some(F(4.0)), F(0.5));
    acc.add(Some(F(-2.0)), Some(F(2.0)), F(0.5));
    acc.add(Some(F(0.1)), Some(F(0.1)), F(0.5));
    acc.add(None, Some(F(0.1)), F(0.5));
    assert_eq!((acc.n_total, acc.n_valid, acc.dir_n, acc.dir_hits), (4, 3, 2, 1));
    assert_eq!(acc.mae(), Some(F(7.0 / 3.0)));
    assert_eq!(acc.rmse(), Some(F((25.0f64 / 3.0).sqrt())));
    assert_eq!(acc.dir_acc(), Some(F(0.5)));
    let m = acc.to_metrics(Horizon::H50);
    assert_eq!((&m.horizon[..], m.coverage), ("50ms", F(0.75)));
    assert!(m.buckets.is_empty());
    // 1, 2, 3 against 2, 4, 6
    assert_eq!(pearson(3, F(6.0), F(12.0), F(14.0), F(56.0), F(28.0)), Some(F(1.0)));
    assert_eq!(pearson(3, F(6.0), F(3.0), F(14.0), F(3.0), F(6.0)), None);
    assert_eq!(pearson(1, F(6.0), F(3.0), F(14.0), F(3.0), F(6.0)), None);
    let blank: HorizonMetrics<F> = HorizonMetrics::default();
    assert_eq!((&blank.horizon[..], blank.n_total, blank.coverage), ("", 0, F(0.0)));
}

#[test]
fn buckets_hold_every_prediction_once() {
    let pairs = [
        (F(-0.7), F(1.0)),
        (F(-0.5), F(2.0)),
        (F(0.0), F(3.0)),
        (F(0.05), F(5.0)),
        (F(0.5), F(7.0)),
        (F(9.0), F(9.0)),
    ];
    let b = bucket_means(&pairs);
    let shown: Vec<(f64, f64, f64, i64)> =
        b.iter().map(|x| (x.lo.0, x.hi.0, x.mean_actual.0, x.n)).collect();
    assert_eq!(
        shown,
        vec![
            (-1e9, -0.5, 1.0, 1),
            (-0.5, -0.1, 2.0, 1),
            (-0.1, 0.1, 4.0, 2),
            (0.5, 1e9, 8.0, 2)
        ]
    );
    assert!(bucket_means::<F>(&[]).is_empty());
    let nan = bucket_means(&[(F(f64::NAN), F(1.0))]);
    assert_eq!(nan[0].hi, F(1e9));
}

#[test]
fn rows_are_thinned_out_evenly() {
    let rows = |n: i64| (0..n).map(|i| row(i, 0.0, 0.0)).collect::<Vec<_>>();
    let ts = |r: Vec<SampleRow<F>>| r.iter().map(|x| x.ts_ms).collect::<Vec<_>>();
    assert_eq!(ts(downsample(rows(10), 4)), vec![0, 2, 5, 7]);
    assert_eq!(ts(downsample(rows(3), 4)), vec![0, 1, 2]);
    assert_eq!(ts(downsample(rows(3), 0)), vec![0, 1, 2]);
}

#[test]
fn stored_numbers_are_filled_up() {
    let f = parse_factors(&[F(1.0), F(2.0)]);
    assert_eq!((f[0], f[1], f[2]), (F(1.0), F(2.0), F(0.0)));
    assert_eq!(parse_factors(&[F(3.0); 40])[16], F(3.0));
    let p = parse_params(&StoredParams {
        intercept: None,
        beta: vec![Some(F(1.5)), None, Some(F(2.5))],
    });
    assert_eq!(p.intercept, F(0.0));
    assert_eq!((p.beta[0], p.beta[1], p.beta[2], p.beta[3]), (F(1.5), F(0.0), F(2.5), F(0.0)));
}

fn stored(p: &trend_mm::types::HorizonParams<F>) -> StoredParams<F> {
    StoredParams { intercept: Some(p.intercept), beta: p.beta.iter().map(|b| Some(*b)).collect() }
}

fn model_row(m: &FittedModel<F>) -> ModelRow<F> {
    ModelRow {
        version: m.version.clone(),
        status: m.status.as_str().to_string(),
        feature_version: m.feature_version.clone(),
        h10: stored(&m.h10),
        h25: stored(&m.h25),
        h50: stored(&m.h50),
        train_start_ms: m.train_start_ms,
        train_end_ms: m.train_end_ms,
        valid_start_ms: m.valid_start_ms,
        valid_end_ms: m.valid_end_ms,
        train_params_json: m.train_params_json.clone(),
        metrics_json: m.metrics_json.clone(),
        created_at_ms: m.created_at_ms,
        activated_at_ms: m.activated_at_ms,
        depth_granularity_note: m.depth_granularity_note.clone(),
    }
}

#[test]
fn atomic_switch_and_reload() {
    let cold = cold_start_model::<F>();
    let mut rows = vec![model_row(&cold)];
    let mut mgr = ModelManager::new(cold.clone());
    let mut next = cold.clone();
    next.version = "trained-1".into();
    next.h10.intercept = F(0.3);
    let swapped = mgr.swap_active(next);
    assert_eq!(mgr.current().version, "trained-1");
    assert_eq!(mgr.current().status, ModelStatus::Active);
    assert_eq!(swapped.status, ModelStatus::Active);
    rows.push(model_row(&mgr.current()));
    let at = last_active(&rows).unwrap();
    let loaded = rows.swap_remove(at).into_model();
    assert_eq!(loaded.version, "trained-1");
    assert_eq!(loaded.status, ModelStatus::Active);
    assert!((loaded.h10.intercept.0 - 0.3).abs() < 1e-12);
}

#[test]
fn active_models_are_taken_up_before_provisional_ones() {
    let m = |status: ModelStatus, created: i64, activated: Option<i64>| {
        let mut c = cold_start_model_at::<F>(created, 0);
        c.status = status;
        c.activated_at_ms = activated;
        model_row(&c)
    };
    let rows = vec![
        m(ModelStatus::Provisional, 100, None),
        m(ModelStatus::Active, 1, Some(5)),
        m(ModelStatus::Active, 7, None),
        m(ModelStatus::Rejected, 900, Some(900)),
    ];
    assert_eq!(last_active(&rows), Some(2));
    assert_eq!(last_active(&rows[..1]), Some(0));
    assert_eq!(last_active(&rows[3..]), None);
    let mut odd = m(ModelStatus::Active, 1, None);
    odd.status = "odd".into();
    assert_eq!(odd.into_model().status, ModelStatus::Provisional);
}

fn completed(ts: i64, pred: f64, actual: f64) -> CompletedSample<F> {
    CompletedSample {
        ts_ms: ts,
        mid: F(100.0),
        tick_size: F(0.1),
        factors: [F(0.1); FEATURE_COUNT],
        model_version: "v1".into(),
        feature_version: FEATURE_VERSION.into(),
        pred: some([pred; 3]),
        actual: some([actual; 3]),
        quality: "ok".into(),
    }
}

#[test]
fn samples_count_for_their_minute() {
    let rows = minute_rows(&completed(61_000, 0.2, 0.1), F(0.05));
    for (r, h) in rows.iter().zip(Horizon::all()) {
        assert_eq!((r.minute_ms, &r.model_version[..], r.horizon), (60_000, "v1", h.as_str()));
        assert_eq!((r.acc.n_total, r.acc.n_valid, r.acc.dir_n, r.acc.dir_hits), (1, 1, 1, 1));
        assert_eq!(r.acc.sum_p, F(0.2));
    }
    assert_eq!(minute_of(59_999), 0);
    assert_eq!(minute_of(-59_999), 0);
    assert_eq!(minute_of(-60_001), -60_000);
    assert_eq!(minute_of(i64::MIN), i64::MIN / 60_000 * 60_000);
    assert_eq!(cleanup_cutoff(86_400_000 * 40, 30), Some(86_400_000 * 10));
    assert_eq!(cleanup_cutoff(0, i64::MAX), None);
}

#[test]
fn split_is_time_order_80_20() {
    let rows: Vec<_> = (0..10).map(|i| row(i * 1000, 0.0, 0.0)).collect();
    let (tr, va) = time_split(&rows);
    assert_eq!(tr.len(), 8);
    assert_eq!(va.len(), 2);
    assert!(tr.last().unwrap().ts_ms < va.first().unwrap().ts_ms);
    assert!(tr.windows(2).all(|w| w[0].ts_ms <= w[1].ts_ms));
    let (tr, va) = time_split(&rows[..2]);
    assert_eq!((tr.len(), va.len()), (1, 1));
}

#[test]
fn beta_nonnegative_and_prior_cold_start() {
    let mut rows = Vec::new();
    for i in 0..40 {
        let x = (i as f64) / 40.0;
        rows.push(row(i as i64 * 1000, x, 2.0 * x));
    }
    let current = cold_start_model::<F>();
    let mut cfg: Config<F> = Config::default();
    cfg.min_train_samples = 5;
    let d = train_candidate(&rows, &current, F(0.1), &cfg).unwrap();
    for p in [&d.candidate.h10, &d.candidate.h25, &d.candidate.h50] {
        assert!(p.beta.iter().all(|b| b.0 >= -1e-12));
        assert!(p.beta[0].0 > 0.0);
    }
    assert_eq!(d.candidate.h10.beta.len(), FEATURE_COUNT);

    let mut active = d.candidate.clone();
    active.status = ModelStatus::Active;
    let prior_beta = active.h10.beta;
    let d2 = train_candidate(&rows, &active, F(10.0), &cfg).unwrap();
    // large lambda keeps the second fit near the active prior, not a fresh cold-start
    let dist_active: f64 = d2
        .candidate
        .h10
        .beta
        .iter()
        .zip(prior_beta.iter())
        .map(|(a, b)| (a.0 - b.0).abs())
        .sum();
    let cold = cold_start_model::<F>().h10.beta;
    let dist_cold: f64 = d2
        .candidate
        .h10
        .beta
        .iter()
        .zip(cold.iter())
        .map(|(a, b)| (a.0 - b.0).abs())
        .sum();
    assert!(dist_active < dist_cold);
}

#[test]
fn candidate_tells_how_it_was_trained() {
    let rows: Vec<_> = (0..20).map(|i| row(i * 1000, i as f64 / 20.0, i as f64)).collect();
    let mut cfg: Config<F> = Config::default();
    cfg.min_train_samples = 21;
    let current = cold_start_model_at::<F>(0, 0);
    assert!(train_candidate_at(&rows, &current, F(1.0), &cfg, 77, 78).is_none());
    cfg.min_train_samples = 5;
    let d = train_candidate_at(&rows, &current, F(1.0), &cfg, 77, 78).unwrap();
    assert_eq!(d.candidate.version, "trained-77");
    assert_eq!(d.candidate.created_at_ms, 78);
    assert_eq!(d.candidate.train_start_ms, Some(0));
    assert_eq!(d.candidate.train_end_ms, Some(15_000));
    assert_eq!(d.candidate.valid_start_ms, Some(16_000));
    assert_eq!(d.candidate.valid_end_ms, Some(19_000));
    assert_eq!(
        d.candidate.train_params_json,
        r#"{"lambda":1.0,"n_train":16,"n_valid":4,"prior_version":"provisional-cold-start"}"#
    );
    assert_eq!(d.promote, d.candidate.status == ModelStatus::Active);
    assert_eq!(d.candidate_metrics[0].n_valid, 4);
    let mut unlabelled: Vec<_> = rows.iter().cloned().collect();
    for r in unlabelled.iter_mut() {
        r.actual[2] = None;
    }
    assert!(train_candidate_at(&unlabelled, &current, F(1.0), &cfg, 1, 1).is_none());
    assert!(fit_horizon(&rows[..2], Horizon::H10, &current.h10, F(1.0)).is_none());
}

#[test]
fn fit_finds_the_line_and_never_a_negative_slope() {
    let mut xs = Vec::new();
    let mut ys = Vec::new();
    let mut down = Vec::new();
    for i in 0..10 {
        let mut x = [F(0.0); FEATURE_COUNT];
        x[0] = F(i as f64);
        xs.push(x);
        ys.push(F(3.0 + 2.0 * i as f64));
        down.push(F(-2.0 * i as f64));
    }
    let none = [F(0.0); FEATURE_COUNT];
    let p = nonneg_ridge(&xs, &ys, &none, F(0.0), F(1e-9));
    assert!((p.beta[0].0 - 2.0).abs() < 1e-6);
    assert!((p.intercept.0 - 3.0).abs() < 1e-6);
    assert_eq!(p.beta[1], F(0.0));
    let q = nonneg_ridge(&xs, &down, &none, F(0.0), F(1.0));
    assert_eq!(q.beta[0], F(0.0));
    assert!((q.intercept.0 + 9.0).abs() < 1e-9);
    let steps = |s: i128| Fixed::from_steps(s * UNIT);
    let exact: Vec<[Fixed; FEATURE_COUNT]> = (0..4)
        .map(|i| {
            let mut x = [steps(0); FEATURE_COUNT];
            x[2] = steps(i);
            x
        })
        .collect();
    let falling: Vec<Fixed> = (0..4).map(|i| steps(-5 * i)).collect();
    let r = nonneg_ridge(&exact, &falling, &[steps(0); FEATURE_COUNT], steps(0), steps(1));
    assert!(r.beta.iter().all(|b| b.steps() >= 0));
}

#[test]
fn equations_are_solved_with_pivots() {
    let a = vec![vec![F(0.0), F(2.0)], vec![F(4.0), F(1.0)]];
    let x = gauss(a, vec![F(6.0), F(11.0)]);
    assert_eq!((x[0], x[1]), (F(2.0), F(3.0)));
    let singular = gauss(vec![vec![F(0.0)]], vec![F(5.0)]);
    assert_eq!(singular[0], F(5.0));
}

fn scores(rmse: f64, ic: f64) -> HorizonMetrics<F> {
    HorizonMetrics {
        horizon: "10ms".into(),
        n_total: 100,
        n_valid: 100,
        coverage: F(1.0),
        ic: Some(F(ic)),
        mae: Some(F(rmse)),
        rmse: Some(F(rmse)),
        dir_hits: 50,
        dir_n: 100,
        dir_acc: Some(F(0.5)),
        buckets: vec![],
    }
}

fn promote(cur: &[HorizonMetrics<F>; 3], cand: &[HorizonMetrics<F>; 3]) -> (bool, PromoteReason<F>) {
    promotion(cur, cand, F(0.01), F(0.01), 10, F(0.5))
}

fn in_words(cur: &[HorizonMetrics<F>; 3], cand: &[HorizonMetrics<F>; 3]) -> (bool, String) {
    should_promote(cur, cand, F(0.01), F(0.01), 10, F(0.5))
}

#[test]
fn promote_and_reject_rules() {
    let m = scores;
    let cur = [m(1.0, 0.2), m(1.0, 0.2), m(1.0, 0.2)];
    let better = [m(0.98, 0.2), m(0.98, 0.2), m(0.98, 0.2)];
    let (ok, _) = in_words(&cur, &better);
    assert!(ok);
    let worse_rmse = [m(0.995, 0.2), m(0.995, 0.2), m(0.995, 0.2)];
    let (ok, _) = in_words(&cur, &worse_rmse);
    assert!(!ok);
    let ic_drop = [m(0.9, 0.18), m(0.9, 0.2), m(0.9, 0.2)];
    let (ok, _) = in_words(&cur, &ic_drop);
    assert!(!ok);
}

#[test]
fn every_reason_against_a_model() {
    let m = scores;
    let cur = [m(1.0, 0.2), m(1.0, 0.2), m(1.0, 0.2)];
    let good = || [m(0.5, 0.2), m(0.5, 0.2), m(0.5, 0.2)];
    match promote(&cur, &good()) {
        (true, PromoteReason::Improved { gain }) => assert!((gain.0 - 0.5).abs() < 1e-12),
        other => panic!("{other:?}"),
    }
    let mut few = good();
    few[1].n_valid = 9;
    assert!(matches!(
        promote(&cur, &few),
        (false, PromoteReason::TooFewSamples { place: 1, n_valid: 9 })
    ));
    let mut thin = good();
    thin[2].coverage = F(0.4);
    assert!(matches!(promote(&cur, &thin), (false, PromoteReason::LowCoverage { place: 2, .. })));
    let mut blind = good();
    blind[0].ic = None;
    assert!(matches!(promote(&cur, &blind), (false, PromoteReason::NoScores { place: 0 })));
    let mut drop = good();
    drop[2].ic = Some(F(0.1));
    assert!(matches!(promote(&cur, &drop), (false, PromoteReason::IcDrop { place: 2, .. })));
    let mut boundless = [m(1.0, 0.2), m(1.0, 0.2), m(1.0, 0.2)];
    boundless[0].rmse = None;
    assert!(matches!(promote(&boundless, &good()), (false, PromoteReason::NotFinite)));
    assert!(matches!(promote(&cur, &cur), (false, PromoteReason::TooLittleGain { .. })));

    let told = |cand: &[HorizonMetrics<F>; 3]| in_words(&cur, cand).1;
    few[1].horizon = "25ms".into();
    assert_eq!(told(&few), "25ms too few valid samples 9");
    assert_eq!(told(&thin), "10ms coverage 0.4 below 0.5");
    assert_eq!(told(&blind), "10ms missing rmse/ic");
    drop[2].ic = Some(F(-0.3));
    assert_eq!(told(&drop), "10ms IC drop 0.5 > 0.01");
    assert_eq!(in_words(&boundless, &good()), (false, "rmse not finite".to_string()));
    assert_eq!(told(&cur), "mean RMSE improve 0 < 0.01");
    let halved = [m(0.5, 0.2), m(0.5, 0.2), m(0.5, 0.2)];
    assert_eq!(in_words(&cur, &halved), (true, "mean RMSE improve 0.5".to_string()));
}

#[test]
fn exact_error_beyond_all_numbers_is_not_finite() {
    let m = |rmse: Option<i128>| HorizonMetrics {
        horizon: "10ms".into(),
        n_total: 100,
        n_valid: 100,
        coverage: Fixed::from_steps(UNIT),
        ic: Some(Fixed::from_steps(UNIT / 5)),
        mae: None,
        rmse: rmse.map(|v| Fixed::from_steps(v * UNIT)),
        dir_hits: 50,
        dir_n: 100,
        dir_acc: None,
        buckets: vec![],
    };
    let one_percent = Fixed::from_steps(UNIT / 100);
    let decide = |cur: &[HorizonMetrics<Fixed>; 3], cand: &[HorizonMetrics<Fixed>; 3]| {
        promotion(cur, cand, one_percent, one_percent, 10, Fixed::from_steps(UNIT / 2))
    };
    let good = [m(Some(1)), m(Some(1)), m(Some(1))];
    let none = [m(None), m(None), m(None)];
    assert!(matches!(decide(&none, &good), (false, PromoteReason::NotFinite)));
    let one = [m(Some(2)), m(None), m(Some(2))];
    assert!(matches!(decide(&one, &good), (false, PromoteReason::NotFinite)));
    let weak = [m(Some(2)), m(Some(2)), m(Some(2))];
    assert!(decide(&weak, &good).0);
}

#[test]
fn prior_is_the_cold_start_for_every_provisional_model() {
    let rows: Vec<_> = (0..40).map(|i| row(i, i as f64 / 40.0, i as f64 / 20.0)).collect();
    let mut cfg: Config<F> = Config::default();
    cfg.min_train_samples = 5;
    let cold = cold_start_model_at::<F>(0, 0);
    let mut other = cold.clone();
    other.h10.beta = [F(7.0); FEATURE_COUNT];
    other.h25.intercept = F(3.0);
    let a = train_candidate_at(&rows, &cold, F(50.0), &cfg, 1, 1).unwrap();
    let b = train_candidate_at(&rows, &other, F(50.0), &cfg, 2, 2).unwrap();
    for h in [Horizon::H10, Horizon::H25, Horizon::H50] {
        let (p, q) = (a.candidate.params(h), b.candidate.params(h));
        assert_eq!((p.beta, p.intercept), (q.beta, q.intercept));
    }
    other.status = ModelStatus::Active;
    let c = train_candidate_at(&rows, &other, F(50.0), &cfg, 3, 3).unwrap();
    let (train, _) = time_split(&rows);
    for h in [Horizon::H10, Horizon::H25, Horizon::H50] {
        let fitted = fit_horizon(train, h, other.params(h), F(50.0)).unwrap();
        let p = c.candidate.params(h);
        assert_eq!((p.beta, p.intercept), (fitted.beta, fitted.intercept));
    }
    assert_ne!(c.candidate.h10.beta, a.candidate.h10.beta);
    let copy = c.clone();
    assert_eq!((copy.promote, &copy.candidate.version), (c.promote, &c.candidate.version));
    assert_eq!(copy.candidate_metrics[1].rmse, c.candidate_metrics[1].rmse);
    assert_eq!(copy.reason, c.reason);
    assert_eq!(copy.candidate.metrics_json, c.candidate.metrics_json);
}

fn object(members: Vec<(&str, Value)>) -> Value {
    Value::Object(members.into_iter().map(|(k, v)| (k.to_string(), v)).collect())
}

fn maybe(x: Option<F>) -> Value {
    x.map_or(Value::Null, |v| Value::from(v.0))
}

fn metrics_value(m: &HorizonMetrics<F>) -> Value {
    let bucket = |b: &BucketMean<F>| {
        object(vec![
            ("lo", Value::from(b.lo.0)),
            ("hi", Value::from(b.hi.0)),
            ("mean_actual", Value::from(b.mean_actual.0)),
            ("n", Value::from(b.n)),
        ])
    };
    object(vec![
        ("horizon", Value::from(m.horizon.as_str())),
        ("n_total", Value::from(m.n_total)),
        ("n_valid", Value::from(m.n_valid)),
        ("coverage", Value::from(m.coverage.0)),
        ("ic", maybe(m.ic)),
        ("mae", maybe(m.mae)),
        ("rmse", maybe(m.rmse)),
        ("dir_hits", Value::from(m.dir_hits)),
        ("dir_n", Value::from(m.dir_n)),
        ("dir_acc", maybe(m.dir_acc)),
        ("buckets", m.buckets.iter().map(bucket).collect()),
    ])
}

#[test]
fn training_is_written_out_as_json() {
    let rows: Vec<_> = (0..40).map(|i| row(i, i as f64 / 40.0, i as f64 / 20.0)).collect();
    let mut cfg: Config<F> = Config::default();
    cfg.min_train_samples = 5;
    let mut current = cold_start_model_at::<F>(0, 0);
    current.version = "a \"b\" \\ \u{1}\u{1f}\n\t\u{8}\u{c}\r \u{7f}é".to_string();
    let d = train_candidate_at(&rows, &current, F(1e-7), &cfg, 1, 1).unwrap();
    let params = object(vec![
        ("lambda", Value::from(1e-7)),
        ("n_train", Value::from(32)),
        ("n_valid", Value::from(8)),
        ("prior_version", Value::from(current.version.as_str())),
    ]);
    assert_eq!(d.candidate.train_params_json, params.to_string());
    let list = |m: &[HorizonMetrics<F>; 3]| -> Value { m.iter().map(metrics_value).collect() };
    let judged = object(vec![
        ("current", list(&d.current_metrics)),
        ("candidate", list(&d.candidate_metrics)),
        ("reason", Value::from(d.reason.as_str())),
        ("promote", Value::from(d.promote)),
    ]);
    assert_eq!(d.candidate.metrics_json, judged.to_string());
    let mut m = scores(1.5, 0.25);
    m.horizon = "10\"ms".to_string();
    m.dir_acc = None;
    m.mae = Some(F(f64::NAN));
    m.coverage = F(1e300);
    m.n_total = -3;
    m.buckets = bucket_means(&[(F(-1.0), F(2.0)), (F(1.0), F(4.0))]);
    assert_eq!(horizon_json(&m), metrics_value(&m).to_string());
}

#[test]
fn exact_numbers_are_written_out() {
    let n = |s: i128| Fixed::from_steps(s);
    assert_eq!(n(3 * UNIT / 2).text(), "1.500000000000");
    assert_eq!(n(-1).text(), "-0.000000000001");
    assert_eq!(n(0).json(), "0.000000000000");
    assert_eq!(n(-12 * UNIT).json(), "-12.000000000000");
    assert_eq!((n(LIMIT).text(), n(LIMIT).json()), ("inf".to_string(), "null".to_string()));
    assert_eq!(n(-LIMIT).text(), "-inf");
}

#[test]
fn fit_passes_through_the_mean_point() {
    let n = |x: i128| Fixed::from_steps(x * UNIT);
    let mut xs = [[n(0); FEATURE_COUNT]; 4];
    for (i, x) in xs.iter_mut().enumerate() {
        x[0] = n(i as i128);
        x[3] = n((i * i) as i128);
    }
    let ys = [n(1), n(4), n(6), n(13)];
    let p = nonneg_ridge(&xs, &ys, &[n(0); FEATURE_COUNT], n(0), n(1));
    let mut mean = [n(0); FEATURE_COUNT];
    mean[0] = Fixed::from_steps(3 * UNIT / 2);
    mean[3] = Fixed::from_steps(7 * UNIT / 2);
    assert_eq!(p.predict(&mean), n(6));
}

#[test]
fn copied_metrics_keep_their_buckets() {
    let mut m = scores(1.0, 0.2);
    m.buckets = bucket_means(&[(F(-1.0), F(2.0)), (F(1.0), F(4.0))]);
    assert!(!m.buckets.is_empty());
    let copy = m.clone();
    assert_eq!(copy.horizon, m.horizon);
    assert_eq!(copy.buckets.len(), m.buckets.len());
    for (a, b) in copy.buckets.iter().zip(&m.buckets) {
        assert_eq!((a.lo, a.hi, a.mean_actual, a.n), (b.lo, b.hi, b.mean_actual, b.n));
    }
}

#[test]
fn ticks_that_leave_the_range_of_times_are_told() {
    let s = Schedule { first_ms: 100, period_ms: 50, window_ms: 1_000 };
    let mut t = Trainer::new();
    assert!(t.can_tick(RunPhase::Running, i64::MAX - 100, None, &s));
    assert!(!t.can_tick(RunPhase::Running, i64::MAX - 99, None, &s));
    assert!(t.can_tick(RunPhase::Degraded, i64::MAX, None, &s));
    // the samples reach far enough, so the window is reckoned with
    assert!(t.can_tick(RunPhase::Running, i64::MIN + 1_000, Some((i64::MIN, i64::MIN + 100)), &s));
    assert!(!t.can_tick(RunPhase::Running, i64::MIN + 999, Some((i64::MIN, i64::MIN + 100)), &s));
    // too short a reach: only the time to wait counts
    assert!(t.can_tick(RunPhase::Running, 0, Some((0, 1)), &s));
    assert!(!t.can_tick(RunPhase::Running, 0, Some((i64::MAX - 99, i64::MAX)), &s));
    t.last_train_ms = Some(-1);
    assert!(!t.can_tick(RunPhase::Running, i64::MAX, Some((0, 100)), &s));
    assert!(t.can_tick(RunPhase::Running, i64::MAX - 1, Some((0, 100)), &s));
    assert!(t.can_tick(RunPhase::Running, i64::MAX, Some((0, 99)), &s));
    t.last_train_ms = Some(i64::MAX);
    assert!(!t.can_tick(RunPhase::Running, 0, Some((0, 99)), &s));
}

#[test]
fn models_are_judged_on_samples() {
    let mut model = cold_start_model_at::<F>(0, 0);
    model.h25.intercept = F(1.0);
    let rows = [row(1, 0.0, 3.0), row(2, 0.0, -1.0)];
    let m = eval_model(&model, &rows, F(0.05));
    assert_eq!(m[0].rmse, Some(F(5.0f64.sqrt())));
    assert_eq!(m[1].mae, Some(F(2.0)));
    assert_eq!((m[1].dir_n, m[1].dir_hits), (2, 1));
    assert_eq!(m[2].horizon, "50ms");
}

#[test]
fn scheduler_uses_24h_then_6h() {
    let first = 1_000_000;
    let day = 24 * 3600 * 1000;
    let six = 6 * 3600 * 1000;
    // wall clock advanced 24h but only 1s of labeled data — must not train
    assert!(!should_train(first + day, Some((first, first + 1000)), None, day, six));
    // 24h of labeled span — train
    assert!(should_train(first + day, Some((first, first + day)), None, day, six));
    assert!(!should_train(
        first + day + 1,
        Some((first, first + day)),
        Some(first + day),
        day,
        six
    ));
    assert!(should_train(
        first + day + six,
        Some((first, first + day + six)),
        Some(first + day),
        day,
        six
    ));
}

#[test]
fn next_training_is_announced() {
    let day = 86_400_000;
    assert_eq!(next_train_time(5, None, None, day, 10), 5 + day);
    assert_eq!(next_train_time(5, Some((0, 10)), None, day, 10), 5 + day - 10);
    assert_eq!(next_train_time(5, Some((0, day)), None, day, 10), 5);
    assert_eq!(next_train_time(5, Some((0, day)), Some(100), day, 10), 110);
    assert!(!should_train(5, None, None, 0, 0));
    assert!(!should_train(5, Some((0, 6)), None, 0, 0));
}

#[test]
fn trainer_waits_trains_and_switches_after_storing() {
    let mut cfg: Config<F> = Config::default();
    cfg.first_train_after = 100 * MS;
    cfg.train_period = 50 * MS;
    cfg.train_window = 1_000 * MS;
    let s = Schedule::from_config(&cfg);
    assert_eq!((s.first_ms, s.period_ms, s.window_ms), (100, 50, 1_000));
    let mut t = Trainer::new();
    assert_eq!(t.on_tick(RunPhase::Degraded, 0, None, &s), TrainerTick::Paused);
    assert_eq!(t.on_tick(RunPhase::Running, 7, None, &s), TrainerTick::Wait { next_train_ms: 107 });
    assert_eq!(
        t.on_tick(RunPhase::Running, 2_000, Some((0, 100)), &s),
        TrainerTick::Train { next_train_ms: 2_000, since_ms: 1_000 }
    );
    let (action, next): (TrainerAction<F>, Option<i64>) =
        t.on_outcome(TrainOutcome::NotEnough, 2_000, &s);
    assert!(matches!(action, TrainerAction::Nothing) && next.is_none());
    assert!(t.last_train_ms.is_none());
    let (action, next): (TrainerAction<F>, Option<i64>) =
        t.on_outcome(TrainOutcome::Failed, 2_000, &s);
    assert!(matches!(action, TrainerAction::Nothing));
    assert_eq!((next, t.last_train_ms), (Some(2_050), Some(2_000)));
    assert_eq!(
        t.on_tick(RunPhase::Running, 2_049, Some((0, 100)), &s),
        TrainerTick::Wait { next_train_ms: 2_050 }
    );

    let rows: Vec<_> = (0..40).map(|i| row(i, i as f64 / 40.0, i as f64 / 20.0)).collect();
    cfg.min_train_samples = 5;
    let current = cold_start_model_at::<F>(0, 0);
    let mut d = train_candidate_at(&rows, &current, F(0.1), &cfg, 1, 1).unwrap();
    d.promote = false;
    match t.on_outcome(TrainOutcome::Decided(d), 3_000, &s) {
        (TrainerAction::Record(m), Some(3_050)) => assert_eq!(m.status, ModelStatus::Rejected),
        other => panic!("{other:?}"),
    }
    let mut d = train_candidate_at(&rows, &current, F(0.1), &cfg, 1, 1).unwrap();
    d.promote = true;
    let model = match t.on_outcome(TrainOutcome::Decided(d), 4_000, &s) {
        (TrainerAction::Promote(m), Some(4_050)) => m,
        other => panic!("{other:?}"),
    };
    assert_eq!((model.status, model.activated_at_ms), (ModelStatus::Active, Some(4_000)));
    let mut models = ModelManager::new(current);
    models.set_training(true);
    assert!(!on_stored(&mut models, model.clone(), false, 4_001));
    assert_eq!(models.current().version, "provisional-cold-start");
    assert!(on_stored(&mut models, model, true, 4_002));
    assert_eq!(models.current().version, "trained-1");
    assert_eq!(models.current().activated_at_ms, Some(4_002));
    assert!(models.training());
}

fn engine() -> SignalEngine<F> {
    let mut cfg: Config<F> = Config::default();
    cfg.warm_period = 50 * MS;
    let mut decays = [F(0.0); MODEL_LEVELS];
    for i in 0..MODEL_LEVELS {
        decays[i] = F((-0.35 * i as f64).exp());
    }
    SignalEngine::new(cfg, cold_start_model(), &decays)
}

fn book(u: u64, full: bool) -> MarketEvent<F> {
    let bids: Vec<(F, F)> = (0..20).map(|i| (F(100.0 - i as f64 * 0.1), F(1.0))).collect();
    let asks: Vec<(F, F)> = (0..20).map(|i| (F(100.1 + i as f64 * 0.1), F(1.0))).collect();
    if full {
        MarketEvent::DepthSnapshot { bids, asks, u, exch_time_ms: 0 }
    } else {
        MarketEvent::DepthIncremental {
            bids: vec![(F(100.0), F(u as f64))],
            asks: vec![],
            start_u: u,
            end_u: u,
            exch_time_ms: 0,
        }
    }
}

const NOW: u64 = 1_000_000 * MS;

#[test]
fn samples_are_taken_labelled_and_handed_on() {
    let mut e = engine();
    let mut run: Evaluator<F> = Evaluator::new();
    let period = 100 * MS;
    let alpha = F(0.001);
    let out = run.on_event(&mut e, MarketEvent::TickSize(F(0.1)), NOW, 1, period, alpha);
    assert_eq!(out.connection, "connected");
    assert!(out.publish.is_some());
    let out = run.on_event(&mut e, book(1, true), NOW + MS, 2, period, alpha);
    assert!(out.publish.is_none());
    let mut at = NOW + MS;
    for u in 2..8 {
        at += 20 * MS;
        run.on_event(&mut e, book(u, false), at, 3, period, alpha);
    }
    let model = cold_start_model_at::<F>(0, 0);
    let phase = run.on_sample(&mut e, &model, false, at, 1_000, F(0.001));
    assert_eq!(phase, RunPhase::Running);
    assert_eq!(run.on_sample(&mut e, &model, true, at + MS, 1_001, F(0.001)), RunPhase::Degraded);
    assert!(run.on_labels(at + 40 * MS).is_empty());
    let rows = run.on_labels(at + 50 * MS);
    assert_eq!(rows.len(), 1);
    assert_eq!((rows[0].ts_ms, &rows[0].quality[..]), (1_000, "ok"));
    assert_eq!(rows[0].actual[0], Some(F(0.0)));
    let out = run.on_event(&mut e, book(99, false), at + 60 * MS, 4, period, alpha);
    assert_eq!(out.connection, "resubscribing");
    let rows = run.on_labels(at + 400 * MS);
    assert_eq!(rows.len(), 1);
    assert_eq!(rows[0].ts_ms, 1_001);
    let mut trained = cold_start_model_at::<F>(0, 0);
    trained.version = "trained-2".into();
    assert_eq!(
        run.on_sample(&mut e, &trained, false, at + 500 * MS, 9, F(0.001)),
        RunPhase::Warming
    );
    assert_eq!(e.model().version, "trained-2");
    assert_eq!(phase_of(false, DataQuality::Good), RunPhase::Running);
    assert_eq!(degraded_change(true), DegradedChange::Raise);
    assert_eq!(degraded_change(false), DegradedChange::Clear);
}

#[test]
fn old_mids_are_dropped() {
    let mut e = engine();
    let mut run: Evaluator<F> = Evaluator::new();
    run.on_event(&mut e, MarketEvent::TickSize(F(0.1)), NOW, 1, MS, F(0.001));
    run.on_event(&mut e, book(1, true), NOW, 1, MS, F(0.001));
    e.force_warmed_for_test(F(0.001), F(0.08));
    let model = cold_start_model_at::<F>(0, 0);
    run.on_sample(&mut e, &model, false, NOW + MS, 5, F(0.001));
    let rows = run.on_labels(NOW + 6_000 * MS);
    assert_eq!(rows.len(), 1);
    assert_eq!(rows[0].quality, "ok");
    assert_eq!(rows[0].actual, [None, None, None], "the only mid is too old to be kept");
}

#[test]
fn live_state_shows_the_run() {
    let mut live = LiveState::new(cold_start_model_at::<F>(0, 0), NOW, 1_000);
    let s = live.status(NOW);
    assert_eq!((s.phase, s.training, s.data_age_ms), (RunPhase::Warming, false, None));
    assert_eq!((&s.connection[..], &s.symbol[..]), ("disconnected", "BTC-USDT"));
    assert_eq!((&s.model_status[..], s.next_train_ms), ("provisional", 86_401_000));
    assert_eq!(s.depth_granularity_ms, 20);
    assert!(s.depth_granularity_note.contains("20ms"));
    live.set_phase(RunPhase::Degraded);
    live.set_alarm("no disk");
    live.set_connection("connected");
    live.set_next_train_ms(9);
    live.set_training(true);
    live.note_sample(4);
    assert!(live.training());
    assert_eq!((live.phase(), live.next_train_ms()), (RunPhase::Degraded, 9));
    let mut e = engine();
    e.apply(MarketEvent::TickSize(F(0.1)), NOW, F(0.0));
    e.apply(book(1, true), NOW, F(0.0));
    let mut snap = e.snapshot(NOW);
    snap.factors[0] = F(0.5);
    let frame = live.publish_from_engine(&snap, false, NOW + 3 * MS, 77);
    assert_eq!((frame.ts_ms, frame.phase, &frame.quality[..]), (77, RunPhase::Degraded, "warming"));
    assert_eq!(frame.contributions[0][0], F((0.04 / 0.75) * 0.5));
    assert!((frame.weights[1].iter().map(|w| w.0).sum::<f64>() - 1.0).abs() < 1e-12);
    let s = live.status(NOW + 8 * MS);
    assert_eq!((s.data_age_ms, s.training), (Some(5), false));
    assert_eq!(s.alarm, Some("no disk".to_string()));
    assert!((s.mid.unwrap().0 - 100.05).abs() < 1e-9);
    live.clear_alarm();
    assert_eq!(live.status(NOW).alarm, None);
    assert_eq!(live.frame(5).ts_ms, 5);
}

#[test]
fn requests_are_filled_in() {
    let q = SamplesQ { from_ms: None, to_ms: None, horizon: None, limit: None };
    let r = q.resolve(1_000_000);
    assert_eq!((r.from_ms, r.to_ms, r.limit, r.horizon), (700_000, 1_000_000, 600, Horizon::H25));
    let q = SamplesQ {
        from_ms: Some(1),
        to_ms: Some(2),
        horizon: Some("50ms".into()),
        limit: Some(9_999),
    };
    let r = q.resolve(1_000_000);
    assert_eq!((r.from_ms, r.to_ms, r.limit, r.horizon), (1, 2, 2_000, Horizon::H50));
    let q = SamplesQ { from_ms: None, to_ms: None, horizon: Some("x".into()), limit: Some(3) };
    assert_eq!((q.resolve(0).horizon, q.resolve(0).limit), (Horizon::H25, 3));
    let mut sample = row(4, 0.0, 0.0);
    sample.actual[2] = Some(F(8.0));
    let p = point_of(&sample, Horizon::H50);
    assert_eq!((p.ts_ms, p.actual, p.horizon), (4, Some(F(8.0)), "50ms"));
    assert_eq!(metric_windows(&Some("24h".into())), vec![MetricWindow::Day]);
    assert_eq!(metric_windows(&Some("7d".into())), vec![MetricWindow::Week]);
    assert_eq!(metric_windows(&Some("1h".into()))[0].ms(), 3_600_000);
    let all = metric_windows(&None);
    let names: Vec<&str> = all.iter().map(|w| w.as_str()).collect();
    assert_eq!(names, vec!["1h", "24h", "7d"]);
    assert_eq!(metric_windows(&Some("2h".into())).len(), 3);
    assert_eq!(all[2].ms(), 7 * 24 * 3_600_000);
}
