use rust_decimal::prelude::ToPrimitive;
use trend_mm::clock::{millis_of, seconds_of, since};
use trend_mm::config::{display_to_gate, is_on, Config, Overrides};
use trend_mm::eval::{
    complete_labels, connection_after_event, label_from_mids, to_completed, MidPoint,
    PendingSample, LABEL_STALE,
};
use trend_mm::feature_version;
use trend_mm::fixed::{Fixed, LIMIT, UNIT};
use trend_mm::market::book::{Level, Top10, MODEL_LEVELS};
use trend_mm::market::flow::{Aggressor, MatchedFlow, PendingTrade};
use trend_mm::market::gate::MarketEvent;
use trend_mm::number::Real;
use trend_mm::signal::ewma::{step_of, EwmaNorm, TAU};
use trend_mm::signal::factors::{compute_raw, factor_names, level_weights, DepthAt, WindowAgg};
use trend_mm::signal::model::{
    cold_start_model, cold_start_model_at, cold_start_weights, now_ms, RAW_W10, RAW_W25, RAW_W50,
};
use trend_mm::text::push_integer;
use trend_mm::types::{
    DataQuality, Horizon, HorizonParams, ModelStatus, RunPhase, FEATURE_COUNT, FEATURE_VERSION,
    HORIZONS_MS,
};

const MS: u64 = 1_000_000;

#[derive(Clone, Copy, Debug, PartialEq)]
struct F(f64);

impl Real for F {
    fn ratio_spec(num: i64, den: i64) -> F {
        F::ratio(num, den)
    }
    fn plus_spec(self, r: F) -> F {
        self.plus(r)
    }
    fn minus_spec(self, r: F) -> F {
        self.minus(r)
    }
    fn times_spec(self, r: F) -> F {
        self.times(r)
    }
    fn over_spec(self, r: F) -> F {
        self.over(r)
    }
    fn root_spec(self) -> F {
        self.root()
    }
    fn magnitude_spec(self) -> F {
        self.magnitude()
    }
    fn negative_spec(self) -> bool {
        self.negative()
    }
    fn floor_spec(self) -> usize {
        self.floor()
    }
    fn below_spec(self, r: F) -> bool {
        self.below(r)
    }
    fn at_most_spec(self, r: F) -> bool {
        self.at_most(r)
    }
    fn rank_spec(self) -> i128 {
        self.rank()
    }
    fn infinity_spec() -> F {
        F::infinity()
    }
    fn from_decimal_spec(m: i128, s: u32) -> F {
        F::from_decimal(m, s)
    }
    fn text_spec(self) -> String {
        self.text()
    }
    fn json_spec(self) -> String {
        self.json()
    }
    fn law_order(_a: F, _b: F) {}
    fn law_whole(_m: i64, _n: i64) {}
    fn law_whole_quotient(_n: i64, _d: i64) {}
    fn law_quotient_order(_a: F, _b: F, _c: F) {}
    fn law_quotient_number(_a: F, _b: F) {}
    fn law_root(_a: F) {}
    fn law_sum_above_zero(_a: F, _b: F) {}
    fn law_eps() {}
    fn law_no_difference(_a: F) {}
    fn text(self) -> String {
        format!("{}", self.0)
    }
    fn json(self) -> String {
        serde_json::Value::from(self.0).to_string()
    }
    fn ratio(num: i64, den: i64) -> F {
        F(num as f64 / den as f64)
    }
    fn plus(self, r: F) -> F {
        F(self.0 + r.0)
    }
    fn minus(self, r: F) -> F {
        F(self.0 - r.0)
    }
    fn times(self, r: F) -> F {
        F(self.0 * r.0)
    }
    fn over(self, r: F) -> F {
        F(self.0 / r.0)
    }
    fn root(self) -> F {
        F(self.0.sqrt())
    }
    fn magnitude(self) -> F {
        F(self.0.abs())
    }
    fn negative(self) -> bool {
        self.0.is_sign_negative()
    }
    fn floor(self) -> usize {
        self.0.floor() as usize
    }
    fn below(self, r: F) -> bool {
        self.0 < r.0
    }
    fn at_most(self, r: F) -> bool {
        self.0 <= r.0
    }
    fn rank(self) -> i128 {
        let b = self.0.to_bits() as i64;
        (b ^ (((b >> 63) as u64) >> 1) as i64) as i128
    }
    fn infinity() -> F {
        F(f64::INFINITY)
    }
    fn from_decimal(m: i128, s: u32) -> F {
        F(rust_decimal::Decimal::from_i128_with_scale(m, s).to_f64().unwrap())
    }
}

fn decays() -> [F; MODEL_LEVELS] {
    let mut d = [F(0.0); MODEL_LEVELS];
    for i in 0..MODEL_LEVELS {
        d[i] = F((-0.35 * i as f64).exp());
    }
    d
}

fn share(dt: u64) -> F {
    F(1.0 - (-(step_of(dt) as f64 / 1e9) / (TAU as f64 / 1e9)).exp())
}

fn one_sided(bid_heavy: bool) -> Top10<F> {
    let mut bids = [Level::new(F(0.0), F(0.0)); MODEL_LEVELS];
    let mut asks = [Level::new(F(0.0), F(0.0)); MODEL_LEVELS];
    for i in 0..MODEL_LEVELS {
        let near = F(if i < 3 { 20.0 } else { 1.0 });
        let far = F(if i < 3 { 1.0 } else { 20.0 });
        let (b, a) = if bid_heavy { (near, far) } else { (far, near) };
        bids[i] = Level::new(F(100.0 - i as f64 * 0.1), b);
        asks[i] = Level::new(F(100.1 + i as f64 * 0.1), a);
    }
    Top10 { bids, asks }
}

fn flow_up() -> WindowAgg<F> {
    let mut w: WindowAgg<F> = WindowAgg::default();
    w.add_bid[0] = F(5.0);
    w.cancel_ask[0] = F(4.0);
    w.exec_ask[0] = F(3.0);
    w.n_add_bid = 2;
    w.n_cancel_ask = 2;
    w.n_exec_ask = 2;
    w
}

fn flow_down() -> WindowAgg<F> {
    let mut w: WindowAgg<F> = WindowAgg::default();
    w.add_ask[0] = F(5.0);
    w.cancel_bid[0] = F(4.0);
    w.exec_bid[0] = F(3.0);
    w.n_add_ask = 2;
    w.n_cancel_bid = 2;
    w.n_exec_bid = 2;
    w
}

#[test]
fn documented_signs_when_one_sided() {
    let w = level_weights(&decays());
    let up_book = one_sided(true);
    let down_book = one_sided(false);
    let depth_up = DepthAt::from_top(&up_book);
    let depth_down = DepthAt::from_top(&down_book);
    let up = compute_raw(&up_book, F(0.1), &flow_up(), &flow_up(), &depth_up, &w);
    let down = compute_raw(&down_book, F(0.1), &flow_down(), &flow_down(), &depth_down, &w);
    for k in 0..FEATURE_COUNT {
        assert!(
            up[k].0 > 0.0,
            "factor {} should be + on upside pressure, got {}",
            k + 1,
            up[k].0
        );
        assert!(
            down[k].0 < 0.0,
            "factor {} should be - on downside pressure, got {}",
            k + 1,
            down[k].0
        );
    }
}

#[test]
fn level_weights_fall_and_sum_to_one() {
    let w = level_weights(&decays());
    let sum: f64 = w.iter().map(|x| x.0).sum();
    assert!((sum - 1.0).abs() < 1e-12);
    for i in 1..MODEL_LEVELS {
        assert!((w[i].0 / w[i - 1].0 - (-0.35f64).exp()).abs() < 1e-12);
    }
}

#[test]
fn factors_of_a_plain_book() {
    let mut top = one_sided(true);
    for i in 0..MODEL_LEVELS {
        top.bids[i].qty = F(3.0);
        top.asks[i].qty = F(1.0);
    }
    let none: WindowAgg<F> = WindowAgg::default();
    let depth: DepthAt<F> = DepthAt::from_top(&top);
    let raw = compute_raw(&top, F(0.1), &none, &none, &depth, &level_weights(&decays()));
    assert!((raw[0].0 - 0.5).abs() < 1e-9, "L1 imbalance {}", raw[0].0);
    assert!((raw[1].0 - 0.5).abs() < 1e-9, "10-level imbalance {}", raw[1].0);
    assert!((raw[2].0 - 0.25).abs() < 1e-6, "microprice {}", raw[2].0);
    assert!(raw[4].0.abs() < 1e-9, "near depth {}", raw[4].0);
    for k in [6, 7, 8, 9, 10, 11, 12, 13, 14, 16] {
        assert_eq!(raw[k].0, 0.0, "factor {}", k + 1);
    }
    assert_eq!(factor_names()[0], "L1 imbalance");
    assert_eq!(factor_names()[16], "10ms event-count imbalance");
}

#[test]
fn window_adds_up_amounts_and_counts() {
    let top = one_sided(true);
    let t = PendingTrade { price: F(100.0), qty: F(2.0), aggressor: Aggressor::Sell };
    let flow = MatchedFlow::from_trade(&top, &t);
    let mut w: WindowAgg<F> = WindowAgg::default();
    w.add_flow(&flow);
    w.add_flow(&flow);
    assert_eq!(w.exec_bid[0], F(4.0));
    assert_eq!(w.n_exec_bid, 2);
    assert_eq!(w.n_exec_ask, 0);
    assert_eq!(DepthAt::<F>::default().bid[0], F(0.0));
}

#[test]
fn clipped_to_unit_interval() {
    let mut e = EwmaNorm::new();
    let mut raw = [F(0.0); FEATURE_COUNT];
    e.update(&raw, 10 * MS, share(10 * MS));
    raw[0] = F(1000.0);
    for _ in 0..50 {
        let x = e.update(&raw, 50 * MS, share(50 * MS));
        for v in x {
            assert!((-1.0..=1.0).contains(&v.0), "{v:?}");
        }
    }
}

#[test]
fn moving_mean_takes_its_share() {
    let mut e = EwmaNorm::new();
    let mut raw = [F(0.0); FEATURE_COUNT];
    assert_eq!(e.normalize(&raw)[0], F(0.0));
    assert_eq!(e.update(&raw, 5, F(0.5))[0], F(0.0));
    assert_eq!(e.accumulated(), 0);
    raw[0] = F(4.0);
    // mean 2, variance (1 - 0.5) * (0 + 0.5 * 4 * 2) = 2
    let x = e.update(&raw, 0, F(0.5));
    assert!((x[0].0 - (2.0 / 2.0f64.sqrt()) / 3.0).abs() < 1e-9);
    assert_eq!(e.accumulated(), MS);
    e.reset();
    assert_eq!(e.accumulated(), 0);
    assert_eq!(e.normalize(&raw)[0], F(0.0));
}

#[test]
fn huge_factors_stay_in_the_unit_interval() {
    let mut e = EwmaNorm::new();
    let mut raw = [F(1e100); FEATURE_COUNT];
    assert_eq!(e.update(&raw, MS, F(0.5)), [F(0.0); FEATURE_COUNT]);
    for i in 0..40 {
        for (k, x) in raw.iter_mut().enumerate() {
            *x = F(if (i + k) % 2 == 0 { 1e100 } else { -1e100 });
        }
        for v in e.update(&raw, 50 * MS, share(50 * MS)) {
            assert!((-1.0..=1.0).contains(&v.0), "{v:?}");
        }
    }
}

#[test]
fn all_updates_but_the_first_count_for_their_time() {
    let mut e = EwmaNorm::new();
    let raw = [F(2.0); FEATURE_COUNT];
    for round in 0..2 {
        assert_eq!(e.update(&raw, u64::MAX, F(0.5)), [F(0.0); FEATURE_COUNT], "{round}");
        assert_eq!(e.accumulated(), 0);
        e.update(&raw, 7, F(0.5));
        e.update(&raw, 0, F(0.5));
        e.update(&raw, 5, F(0.5));
        assert_eq!(e.accumulated(), 7 + MS + 5);
        e.update(&raw, u64::MAX - 1, F(0.5));
        assert_eq!(e.accumulated(), u64::MAX);
        e.reset();
    }
}

#[test]
fn exact_factors_stay_in_the_unit_interval() {
    let mut e = EwmaNorm::new();
    let mut raw = [Fixed::from_steps(0); FEATURE_COUNT];
    e.update(&raw, MS, Fixed::from_steps(UNIT / 2));
    raw[0] = Fixed::from_steps(1000 * UNIT);
    raw[1] = Fixed::from_steps(-LIMIT);
    for _ in 0..5 {
        let x = e.update(&raw, MS, Fixed::from_steps(UNIT / 100));
        for v in x {
            assert!(-UNIT <= v.steps() && v.steps() <= UNIT);
        }
    }
}

#[test]
fn cold_start_renormalized_sums_and_scale() {
    let w = cold_start_weights::<F>();
    let masses = [0.75, 0.65, 0.55];
    let raws = [RAW_W10, RAW_W25, RAW_W50];
    for h in 0..3 {
        let sum: f64 = w[h].iter().map(|x| x.0).sum();
        assert!((sum - 1.0).abs() < 1e-12, "horizon {h} sum={sum}");
        for i in 0..FEATURE_COUNT {
            let raw = raws[h][i] as f64 / 100.0;
            assert!((w[h][i].0 - raw / masses[h]).abs() < 1e-15);
        }
    }
    let m = cold_start_model::<F>();
    assert_eq!(m.status, ModelStatus::Provisional);
    assert_eq!(m.h10.intercept, F(0.0));
    let (scale, _) = m.h10.scale_and_weights();
    assert!((scale.0 - 1.0).abs() < 1e-12);
    assert_eq!(m.h25.intercept, F(0.0));
    assert_eq!(m.h50.intercept, F(0.0));
}

#[test]
fn cold_start_parameters_are_written_as_json() {
    let m = cold_start_model_at::<F>(5, 6);
    let v: serde_json::Value = serde_json::from_str(&m.train_params_json).unwrap();
    assert_eq!(v["kind"], "cold_start");
    assert_eq!(v["intercept"], 0.0);
    assert_eq!(v["scale"], 1.0);
    assert_eq!(v["renorm"][0], 0.75);
    assert_eq!(v["renorm"][1], 0.65);
    assert_eq!(v["renorm"][2], 0.55);
    assert_eq!(v.to_string(), m.train_params_json);
    assert_eq!((m.created_at_ms, m.activated_at_ms), (5, Some(6)));
    assert_eq!(m.version, "provisional-cold-start");
    let now = cold_start_model::<F>();
    assert!(now.created_at_ms > 1_600_000_000_000);
    assert!(now_ms() >= now.created_at_ms);
}

#[test]
fn predictions_are_linear_and_weights_are_shares() {
    let mut beta = [F(0.0); FEATURE_COUNT];
    beta[0] = F(2.0);
    beta[1] = F(6.0);
    let p = HorizonParams { intercept: F(1.0), beta };
    let mut x = [F(0.0); FEATURE_COUNT];
    x[0] = F(0.5);
    x[1] = F(-1.0);
    assert_eq!(p.predict(&x), F(-4.0));
    let (scale, w) = p.scale_and_weights();
    assert_eq!(scale, F(8.0));
    assert_eq!((w[0], w[1], w[2]), (F(0.25), F(0.75), F(0.0)));
    let none = HorizonParams { intercept: F(0.0), beta: [F(0.0); FEATURE_COUNT] };
    assert_eq!(none.scale_and_weights().1[0], F(0.0));
}

#[test]
fn names_are_read_back() {
    for h in Horizon::all() {
        assert_eq!(Horizon::parse(h.as_str()), Some(h));
        assert_eq!(HORIZONS_MS[h.index()], h.ms());
    }
    assert_eq!(Horizon::parse("h25"), Some(Horizon::H25));
    assert_eq!(Horizon::parse("50"), Some(Horizon::H50));
    assert_eq!(Horizon::parse("75ms"), None);
    for s in [ModelStatus::Provisional, ModelStatus::Active, ModelStatus::Rejected] {
        assert_eq!(ModelStatus::parse(s.as_str()), Some(s));
    }
    assert_eq!(ModelStatus::parse("gone"), None);
    assert_eq!(RunPhase::Degraded.as_str(), "degraded");
    assert_eq!(DataQuality::Good.as_str(), "ok");
    assert_eq!(DataQuality::NoTickSize.as_str(), "no_tick_size");
    assert_eq!(feature_version(), FEATURE_VERSION);
}

fn point(mono: u64, mid: f64) -> MidPoint<F> {
    MidPoint { mono, wall_ms: (mono / MS) as i64, mid: F(mid) }
}

const T0: u64 = 500_000 * MS;

#[test]
fn label_uses_last_mid_strictly_before_target() {
    let mids = [
        point(T0, 100.0),
        point(T0 + 8 * MS, 100.2),
        point(T0 + 10 * MS, 100.5),
        point(T0 + 12 * MS, 101.0),
    ];
    let target = T0 + 10 * MS;
    let lab = label_from_mids(&mids, F(100.0), F(0.1), target);
    assert!(lab.valid);
    // last mid with time < t+10 is 100.2, not 100.5 at exactly t+h and not 101
    assert!((lab.actual.unwrap().0 - 2.0).abs() < 1e-9);
    let seen = label_from_mids(&mids[..2], F(100.0), F(0.1), target);
    assert_eq!(seen.actual, lab.actual);
}

#[test]
fn late_schedule_does_not_take_future_mid() {
    let mids = [point(T0, 50.0), point(T0 + 25 * MS, 51.0)];
    let lab = label_from_mids(&mids, F(50.0), F(0.1), T0 + 25 * MS);
    assert!((lab.actual.unwrap().0 - 0.0).abs() < 1e-9);
}

#[test]
fn missing_mid_is_invalid() {
    let lab = label_from_mids(&[], F(100.0), F(0.1), T0 + 10 * MS);
    assert!(!lab.valid);
    assert!(lab.actual.is_none());
}

fn sample(ts_ms: i64, factor: f64, version: &str, pred: [f64; 3], quality: DataQuality) -> PendingSample<F> {
    PendingSample {
        ts_ms,
        sampled_at: T0,
        mid: F(100.0),
        tick_size: F(0.1),
        factors: [F(factor); FEATURE_COUNT],
        model_version: version.into(),
        pred: [F(pred[0]), F(pred[1]), F(pred[2])],
        quality,
        actual: [None; 3],
        valid: [false; 3],
        done: [false; 3],
    }
}

#[test]
fn one_second_sample_fields_and_50ms_complete_row() {
    let now = T0;
    let mut pending = sample(
        1_700_000_050_000,
        0.05,
        "provisional-cold-start",
        [0.1, 0.2, 0.3],
        DataQuality::Good,
    );
    let mids = [
        point(now, 100.0),
        point(now + 9 * MS, 100.1),
        point(now + 24 * MS, 100.2),
        point(now + 49 * MS, 100.4),
    ];
    assert!(!complete_labels(&mut pending, &mids, now + 20 * MS));
    assert!(complete_labels(&mut pending, &mids, now + 50 * MS));
    assert!(pending.done.iter().all(|d| *d));
    let row = to_completed(&pending);
    assert_eq!(row.ts_ms, 1_700_000_050_000);
    assert_eq!(row.mid, F(100.0));
    assert_eq!(row.tick_size, F(0.1));
    assert_eq!(row.factors.len(), 17);
    assert_eq!(row.model_version, "provisional-cold-start");
    assert_eq!(row.feature_version, FEATURE_VERSION);
    assert_eq!(row.pred, [Some(F(0.1)), Some(F(0.2)), Some(F(0.3))]);
    assert!((row.actual[0].unwrap().0 - 1.0).abs() < 1e-9);
    assert!((row.actual[1].unwrap().0 - 2.0).abs() < 1e-9);
    assert!((row.actual[2].unwrap().0 - 4.0).abs() < 1e-9);
    assert_eq!(row.quality, "ok");
}

#[test]
fn stale_or_missing_horizon_marked_invalid() {
    let now = T0;
    let mut pending = sample(1, 0.0, "v", [0.0; 3], DataQuality::Good);
    assert!(!complete_labels(&mut pending, &[], now + 50 * MS));
    assert!(complete_labels(&mut pending, &[], now + 50 * MS + LABEL_STALE + MS));
    let row = to_completed(&pending);
    assert_eq!(row.actual, [None, None, None]);
    assert!(!pending.valid.iter().any(|v| *v));
}

#[test]
fn bad_data_are_stored_without_predictions_and_labels() {
    let mids = [point(T0, 100.0)];
    let mut pending = sample(1, 0.0, "v", [0.5; 3], DataQuality::Stale);
    assert!(complete_labels(&mut pending, &mids, T0 + 50 * MS));
    let row = to_completed(&pending);
    assert_eq!(row.pred, [None, None, None]);
    assert_eq!(row.actual, [None, None, None]);
    assert_eq!(row.quality, "stale");
}

#[test]
fn disconnect_and_tick_size_failure_are_not_connected() {
    assert_eq!(
        connection_after_event::<F>(&MarketEvent::Disconnected("ws closed".into()), false),
        "reconnecting"
    );
    assert_eq!(
        connection_after_event::<F>(&MarketEvent::TickSizeFailed("http 500".into()), false),
        "tick_size_failed"
    );
    assert_eq!(connection_after_event(&MarketEvent::TickSize(F(0.1)), false), "connected");
    assert_eq!(
        connection_after_event::<F>(&MarketEvent::Disconnected("gap".into()), true),
        "resubscribing"
    );
}

#[test]
fn exact_arithmetic() {
    let n = |s: i128| Fixed::from_steps(s);
    assert_eq!(Fixed::ratio(1, 3).steps(), 333_333_333_333);
    assert_eq!(Fixed::ratio(-1, 3).steps(), -333_333_333_333);
    assert_eq!(n(2 * UNIT).times(n(3 * UNIT)).steps(), 6 * UNIT);
    assert_eq!(n(-7).over(n(2 * UNIT)).steps(), -3);
    assert_eq!(n(5).over(n(0)).steps(), LIMIT);
    assert_eq!(n(0).over(n(0)).steps(), 0);
    assert_eq!(n(-5).over(n(0)).steps(), -LIMIT);
    assert_eq!(n(2 * UNIT).root().steps(), 1_414_213_562_373);
    assert_eq!(n(-UNIT).root().steps(), 0);
    assert_eq!(n(LIMIT).plus(n(LIMIT)).steps(), LIMIT);
    assert_eq!(n(-LIMIT).minus(n(LIMIT)).steps(), -LIMIT);
    assert_eq!(n(LIMIT).times(n(LIMIT)).steps(), LIMIT);
    assert_eq!(n(LIMIT).over(n(3 * UNIT)).steps(), LIMIT);
    assert_eq!(n(-LIMIT).over(n(3 * UNIT)).steps(), -LIMIT);
    assert_eq!(n(3 * UNIT).over(n(LIMIT)).steps(), 0);
    assert_eq!(n(LIMIT).minus(n(5)).steps(), LIMIT);
    assert_eq!(n(5).minus(n(LIMIT)).steps(), -LIMIT);
    assert_eq!(n(5).plus(n(-LIMIT)).steps(), -LIMIT);
    assert_eq!(n(LIMIT).times(n(UNIT / 2)).steps(), LIMIT);
    assert_eq!(n(LIMIT).root().steps(), LIMIT);
    assert_eq!(n(-3).magnitude().steps(), 3);
    assert!(n(-3).negative() && !n(0).negative());
    assert_eq!(n(5 * UNIT / 2).floor(), 2);
    assert_eq!(n(-UNIT).floor(), 0);
    assert!(n(1).below(n(2)) && n(2).at_most(n(2)) && n(1).rank() < n(2).rank());
    assert_eq!(Fixed::infinity().steps(), LIMIT);
    assert_eq!(Fixed::from_decimal(-15, 1).steps(), -3 * UNIT / 2);
    assert_eq!(Fixed::from_decimal(12_345, 16).steps(), 1);
    assert_eq!(Fixed::from_steps(i128::MAX).steps(), LIMIT);
}

#[test]
fn times_are_read_and_reckoned() {
    assert_eq!(since(7, 3), 4);
    assert_eq!(since(3, 7), 0);
    assert_eq!(millis_of(Some(2_003)), 2_003);
    assert_eq!(millis_of(None), 0);
    assert_eq!(seconds_of(Some(2)), 2);
    assert_eq!(seconds_of(None), 0);
    let secs = trend_mm::clock::chrono_secs();
    assert!(secs > 1_600_000_000);
    assert!((trend_mm::eval::wall_ms() / 1000 - secs).abs() <= 2);
    let mut s = String::from("t");
    push_integer(&mut s, -120);
    push_integer(&mut s, 0);
    push_integer(&mut s, i64::MIN);
    assert_eq!(s, "t-1200-9223372036854775808");
}

#[test]
fn settings_are_overlaid() {
    let base: Config<F> = Config::default();
    assert_eq!(base.symbol_gate, "BTC_USDT");
    assert_eq!(base.http_bind, "127.0.0.1:8080");
    assert_eq!(base.train_window, 7 * 24 * 3600 * 1_000 * MS);
    assert_eq!((base.ridge_lambda, base.promote_rmse_improve), (F(1.0), F(0.01)));
    assert_eq!((base.directional_pred_threshold, base.min_coverage), (F(0.05), F(0.5)));
    let same = base.clone().overlaid(Overrides {
        bind: None,
        db: None,
        symbol: None,
        disable_market: None,
        ridge_lambda: None,
        warm: None,
        first_train: None,
        train_period: None,
        rest_base: None,
        ws_url: None,
    });
    assert_eq!((same.db_path, same.warm_period), (base.db_path, base.warm_period));
    let c = same_config().overlaid(Overrides {
        bind: Some("0.0.0.0:9".into()),
        db: Some("x.db".into()),
        symbol: Some("ETH-USDT-X".into()),
        disable_market: Some("TRUE".into()),
        ridge_lambda: Some(F(2.5)),
        warm: Some(7),
        first_train: Some(8),
        train_period: Some(9),
        rest_base: Some("r".into()),
        ws_url: Some("w".into()),
    });
    assert_eq!((&c.symbol_display[..], &c.symbol_gate[..]), ("ETH-USDT-X", "ETH_USDT_X"));
    assert_eq!((c.warm_period, c.first_train_after, c.train_period), (7, 8, 9));
    assert_eq!((&c.http_bind[..], &c.db_path[..]), ("0.0.0.0:9", "x.db"));
    assert_eq!((&c.rest_base[..], &c.ws_url[..], c.ridge_lambda), ("r", "w", F(2.5)));
    assert!(c.disable_market);
    assert_eq!(display_to_gate("A-B"), "A_B");
    assert!(is_on("1") && is_on("tRuE") && !is_on("0") && !is_on("yes") && !is_on("truer"));
}

fn same_config() -> Config<F> {
    Config::default()
}
