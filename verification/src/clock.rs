//! Time. Moments on the monotonic clock and spans of time are counted in
//! nanoseconds; wall time is counted from the Unix epoch.
use vstd::prelude::*;

verus! {

/// Nanoseconds in a millisecond.
pub const MILLISECOND: u64 = 1_000_000;

/// Nanoseconds in a second.
pub const SECOND: u64 = 1_000_000_000;

/// The time from `from` to `to`, or none where `to` is not later.
pub open spec fn since_spec(to: u64, from: u64) -> u64 {
    if to >= from {
        (to - from) as u64
    } else {
        0
    }
}

pub fn since(to: u64, from: u64) -> (r: u64)
    ensures
        r == since_spec(to, from),
{
    if to >= from {
        to - from
    } else {
        0
    }
}

/// A moment on the wall clock, opaque here.
#[verifier::external_type_specification]
#[verifier::external_body]
pub struct ExSystemTime(std::time::SystemTime);

/// Says by how much one moment lies before another, opaque here.
#[verifier::external_type_specification]
#[verifier::external_body]
pub struct ExSystemTimeError(std::time::SystemTimeError);

/// `SystemTime::now` reads the wall clock. Nothing is claimed: what time it is
/// cannot be said.
pub assume_specification[ std::time::SystemTime::now ]() -> (r: std::time::SystemTime)
;

/// `SystemTime::duration_since` gives the time from one moment to another, or
/// an error where that lies before. Nothing is claimed of opaque moments.
pub assume_specification[ std::time::SystemTime::duration_since ](
    t: &std::time::SystemTime,
    earlier: std::time::SystemTime,
) -> (r: Result<std::time::Duration, std::time::SystemTimeError>)
;

/// `Duration::as_millis` gives the whole milliseconds. Nothing is claimed of
/// an opaque span.
pub assume_specification[ std::time::Duration::as_millis ](d: &std::time::Duration) -> (r: u128)
;

/// `Duration::as_secs` gives the whole seconds. Nothing is claimed of an
/// opaque span.
pub assume_specification[ std::time::Duration::as_secs ](d: &std::time::Duration) -> (r: u64)
;

/// Gives `std::time::UNIX_EPOCH`, of which nothing is claimed.
#[verifier::external_body]
fn unix_epoch() -> (r: std::time::SystemTime) {
    std::time::UNIX_EPOCH
}

/// Milliseconds since the Unix epoch, cut to 64 bits; zero before it.
pub open spec fn millis_spec(since_epoch: Option<u128>) -> i64 {
    match since_epoch {
        Some(ms) => ms as i64,
        None => 0,
    }
}

pub fn millis_of(since_epoch: Option<u128>) -> (r: i64)
    ensures
        r == millis_spec(since_epoch),
{
    match since_epoch {
        Some(ms) => ms as i64,
        None => 0,
    }
}

/// Seconds since the Unix epoch, cut to 64 bits; zero before it.
pub open spec fn seconds_spec(since_epoch: Option<u64>) -> i64 {
    match since_epoch {
        Some(s) => s as i64,
        None => 0,
    }
}

pub fn seconds_of(since_epoch: Option<u64>) -> (r: i64)
    ensures
        r == seconds_spec(since_epoch),
{
    match since_epoch {
        Some(s) => s as i64,
        None => 0,
    }
}

/// The wall time in milliseconds.
pub fn now_ms() -> (r: i64)
    ensures
        exists|since_epoch: Option<u128>| r == #[trigger] millis_spec(since_epoch),
{
    let since_epoch: Option<u128> = match std::time::SystemTime::now().duration_since(unix_epoch()) {
        Ok(d) => Some(d.as_millis()),
        Err(_) => None,
    };
    millis_of(since_epoch)
}

/// The wall time in seconds.
pub fn chrono_secs() -> (r: i64)
    ensures
        exists|since_epoch: Option<u64>| r == #[trigger] seconds_spec(since_epoch),
{
    let since_epoch: Option<u64> = match std::time::SystemTime::now().duration_since(unix_epoch()) {
        Ok(d) => Some(d.as_secs()),
        Err(_) => None,
    };
    seconds_of(since_epoch)
}

} // verus!
