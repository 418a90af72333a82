//! The model that a cold start begins with.
use vstd::prelude::*;

pub use crate::clock::now_ms;
use crate::number::{zero, Real};
#[allow(unused_imports)]
use crate::number::zero_spec;
use crate::types::{
    FittedModel, HorizonParams, ModelStatus, DEPTH_GRANULARITY_NOTE, FEATURE_COUNT, FEATURE_VERSION,
};

verus! {

/// The weights of the factors before they are scaled, in hundredths: 75, 65 and 55 in all.
pub const RAW_W10: [i64; FEATURE_COUNT] = [4, 4, 6, 4, 3, 4, 8, 5, 5, 3, 5, 7, 4, 5, 3, 3, 2];

pub const RAW_W25: [i64; FEATURE_COUNT] = [3, 4, 4, 3, 3, 3, 4, 7, 4, 3, 5, 4, 5, 4, 3, 3, 3];

pub const RAW_W50: [i64; FEATURE_COUNT] = [2, 3, 3, 2, 2, 3, 2, 7, 3, 3, 4, 2, 7, 4, 4, 2, 2];

/// What those weights add up to, in hundredths.
pub const RENORM_10: i64 = 75;

pub const RENORM_25: i64 = 65;

pub const RENORM_50: i64 = 55;

pub const COLD_START_VERSION: &'static str = "provisional-cold-start";

/// How the cold start came by its coefficients.
pub const COLD_START_PARAMS: &'static str =
    "{\"intercept\":0.0,\"kind\":\"cold_start\",\"renorm\":[0.75,0.65,0.55],\"scale\":1.0}";

/// Hundredths as numbers.
pub open spec fn hundredths_spec<T: Real>(raw: Seq<i64>) -> Seq<T> {
    Seq::new(raw.len(), |i: int| T::ratio_spec(raw[i], 100))
}

/// Each weight as a share of the mass.
pub open spec fn renormalize_spec<T: Real>(raw: Seq<T>, mass: T) -> Seq<T> {
    Seq::new(raw.len(), |i: int| raw[i].over_spec(mass))
}

/// The weights of one horizon.
pub open spec fn cold_weights<T: Real>(raw: Seq<i64>, mass: i64) -> Seq<T> {
    renormalize_spec(hundredths_spec::<T>(raw), T::ratio_spec(mass, 100))
}

fn hundredths<T: Real>(raw: &[i64; FEATURE_COUNT]) -> (r: [T; FEATURE_COUNT])
    ensures
        r@ == hundredths_spec::<T>(raw@),
{
    let mut w = [zero::<T>(); FEATURE_COUNT];
    let mut i: usize = 0;
    while i < FEATURE_COUNT
        invariant
            0 <= i <= FEATURE_COUNT,
            forall|k: int| 0 <= k < i ==> (#[trigger] w@[k]) == T::ratio_spec(raw@[k], 100),
        decreases FEATURE_COUNT - i,
    {
        w[i] = T::ratio(raw[i], 100);
        i = i + 1;
    }
    assert(w@ =~= hundredths_spec::<T>(raw@));
    w
}

/// Each weight as a share of the mass.
pub fn renormalize<T: Real>(raw: &[T; FEATURE_COUNT], mass: T) -> (r: [T; FEATURE_COUNT])
    ensures
        r@ == renormalize_spec(raw@, mass),
{
    let mut w = *raw;
    let mut i: usize = 0;
    while i < FEATURE_COUNT
        invariant
            0 <= i <= FEATURE_COUNT,
            forall|k: int| 0 <= k < i ==> (#[trigger] w@[k]) == raw@[k].over_spec(mass),
        decreases FEATURE_COUNT - i,
    {
        w[i] = raw[i].over(mass);
        i = i + 1;
    }
    assert(w@ =~= renormalize_spec(raw@, mass));
    w
}

/// The weights of each horizon, shortest first.
pub fn cold_start_weights<T: Real>() -> (r: [[T; FEATURE_COUNT]; 3])
    ensures
        r@[0]@ == cold_weights::<T>(RAW_W10@, RENORM_10),
        r@[1]@ == cold_weights::<T>(RAW_W25@, RENORM_25),
        r@[2]@ == cold_weights::<T>(RAW_W50@, RENORM_50),
{
    [
        renormalize(&hundredths::<T>(&RAW_W10), T::ratio(RENORM_10, 100)),
        renormalize(&hundredths::<T>(&RAW_W25), T::ratio(RENORM_25, 100)),
        renormalize(&hundredths::<T>(&RAW_W50), T::ratio(RENORM_50, 100)),
    ]
}

/// A predictor with these coefficients and no intercept.
pub fn params_from_weights<T: Real>(weights: &[T; FEATURE_COUNT]) -> (r: HorizonParams<T>)
    ensures
        r.intercept == zero_spec::<T>(),
        r.beta@ == weights@,
{
    HorizonParams { intercept: zero(), beta: *weights }
}

/// The model of a cold start: provisional, and never trained.
pub open spec fn is_cold_start<T: Real>(
    m: FittedModel<T>,
    created_at_ms: i64,
    activated_at_ms: i64,
) -> bool {
    &&& m.version@ == COLD_START_VERSION@
    &&& m.status == ModelStatus::Provisional
    &&& m.feature_version@ == FEATURE_VERSION@
    &&& m.h10.intercept == zero_spec::<T>()
    &&& m.h25.intercept == zero_spec::<T>()
    &&& m.h50.intercept == zero_spec::<T>()
    &&& m.h10.beta@ == cold_weights::<T>(RAW_W10@, RENORM_10)
    &&& m.h25.beta@ == cold_weights::<T>(RAW_W25@, RENORM_25)
    &&& m.h50.beta@ == cold_weights::<T>(RAW_W50@, RENORM_50)
    &&& m.train_start_ms is None
    &&& m.train_end_ms is None
    &&& m.valid_start_ms is None
    &&& m.valid_end_ms is None
    &&& m.train_params_json@ == COLD_START_PARAMS@
    &&& m.metrics_json@ == "{}"@
    &&& m.created_at_ms == created_at_ms
    &&& m.activated_at_ms == Some(activated_at_ms)
    &&& m.depth_granularity_note@ == DEPTH_GRANULARITY_NOTE@
}

/// The model of a cold start, made and put to use at these times.
pub fn cold_start_model_at<T: Real>(created_at_ms: i64, activated_at_ms: i64) -> (r: FittedModel<T>)
    ensures
        is_cold_start(r, created_at_ms, activated_at_ms),
{
    let w = cold_start_weights::<T>();
    FittedModel {
        version: COLD_START_VERSION.to_string(),
        status: ModelStatus::Provisional,
        feature_version: FEATURE_VERSION.to_string(),
        h10: params_from_weights(&w[0]),
        h25: params_from_weights(&w[1]),
        h50: params_from_weights(&w[2]),
        train_start_ms: None,
        train_end_ms: None,
        valid_start_ms: None,
        valid_end_ms: None,
        train_params_json: COLD_START_PARAMS.to_string(),
        metrics_json: "{}".to_string(),
        created_at_ms,
        activated_at_ms: Some(activated_at_ms),
        depth_granularity_note: DEPTH_GRANULARITY_NOTE.to_string(),
    }
}

/// The model of a cold start, made now.
pub fn cold_start_model<T: Real>() -> (r: FittedModel<T>)
    ensures
        exists|created: i64, activated: i64| #[trigger] is_cold_start(r, created, activated),
{
    let created: i64 = now_ms();
    let activated: i64 = now_ms();
    cold_start_model_at(created, activated)
}

} // verus!
