//! Decimal text, read by the `rust_decimal` crate.
use vstd::prelude::*;

use crate::number::{is_decimal, zero, Real};
#[allow(unused_imports)]
use crate::number::zero_spec;

verus! {

/// What `rust_decimal` reads in a text: the digits as one integer and how many
/// of them stand behind the point, or nothing where the text is no decimal.
pub uninterp spec fn decimal_of(text: Seq<char>) -> Option<(i128, u32)>;

/// Calls `str::parse::<rust_decimal::Decimal>`, and takes the result apart
/// with `Decimal::mantissa` and `Decimal::scale`.
///
/// Claimed: the outcome depends on the text alone, the digits fit in 96 bits,
/// and at most 28 of them stand behind the point. The grammar that the crate
/// accepts is left unsaid.
#[verifier::external_body]
pub(crate) fn read_decimal(text: &str) -> (r: Option<(i128, u32)>)
    ensures
        r == decimal_of(text@),
        r matches Some(d) ==> is_decimal(d.0 as int, d.1 as int),
{
    match text.parse::<rust_decimal::Decimal>() {
        Ok(d) => Some((d.mantissa(), d.scale())),
        Err(_) => None,
    }
}

/// The tick size that a decimal stands for: a number above zero.
pub open spec fn tick_size_spec<T: Real>(decimal: Option<(i128, u32)>) -> Option<T> {
    match decimal {
        Some(d) => {
            let v = T::from_decimal_spec(d.0, d.1);
            if zero_spec::<T>().below_spec(v) {
                Some(v)
            } else {
                None
            }
        },
        None => None,
    }
}

/// The tick size in a decimal that was read.
pub fn tick_size_of<T: Real>(decimal: Option<(i128, u32)>) -> (r: Option<T>)
    requires
        decimal matches Some(d) ==> is_decimal(d.0 as int, d.1 as int),
    ensures
        r == tick_size_spec::<T>(decimal),
{
    match decimal {
        Some(d) => {
            let v = T::from_decimal(d.0, d.1);
            if zero::<T>().below(v) {
                Some(v)
            } else {
                None
            }
        },
        None => None,
    }
}

/// The tick size in a contract's `order_price_round`. A text that is no
/// decimal, or not above zero, has none.
pub fn parse_tick_size<T: Real>(raw: &str) -> (r: Option<T>)
    ensures
        r == tick_size_spec::<T>(decimal_of(raw@)),
{
    tick_size_of(read_decimal(raw))
}

} // verus!
