use vstd::prelude::*;

pub mod algebra;
pub mod clock;
pub mod config;
pub mod decimal;
pub mod eval;
pub mod exact;
pub mod fixed;
pub mod json;
pub mod laws;
pub mod live;
pub mod market;
pub mod number;
pub mod reals;
pub mod ridge;
pub mod signal;
pub mod storage;
pub mod text;
pub mod trainer;
pub mod types;
pub mod web;

verus! {

/// The set of factors that this library computes.
pub fn feature_version() -> (r: &'static str)
    ensures
        r@ == crate::types::FEATURE_VERSION@,
{
    crate::types::FEATURE_VERSION
}

} // verus!
