//! The wall clock.
use std::time::{Duration, SystemTime, SystemTimeError};
use vstd::prelude::*;

verus! {

/// `std::time::SystemTime`.
#[verifier::external_type_specification]
#[verifier::external_body]
pub struct ExSystemTime(std::time::SystemTime);

/// `std::time::SystemTimeError`.
#[verifier::external_type_specification]
#[verifier::external_body]
pub struct ExSystemTimeError(std::time::SystemTimeError);

/// `SystemTime::now`: whatever the clock shows.
pub assume_specification[ std::time::SystemTime::now ]() -> (t: SystemTime)
;

/// `SystemTime::duration_since`: nothing is claimed of the span between two
/// points in time, nor of which of them is the later one.
pub assume_specification[ std::time::SystemTime::duration_since ](
    t: &SystemTime,
    earlier: SystemTime,
) -> (span: Result<Duration, SystemTimeError>)
;

/// `Duration::as_millis`: nothing is claimed of how long a span is.
pub assume_specification[ std::time::Duration::as_millis ](span: &Duration) -> (millis: u128)
;

/// The constant `std::time::UNIX_EPOCH`.
#[verifier::external_body]
fn unix_epoch() -> (t: SystemTime) {
    std::time::UNIX_EPOCH
}

/// The time stamp for a clock that shows `elapsed` milliseconds since the Unix
/// epoch, or a time before it. Of a number too large for 64 bits the low 64
/// bits count.
pub fn timestamp(elapsed: Option<u128>) -> (t: i64)
    ensures
        t == match elapsed {
            Some(millis) => millis as i64,
            None => 0i64,
        },
{
    match elapsed {
        Some(millis) => millis as i64,
        None => 0,
    }
}

/// The time stamp of now. Nothing is claimed of it: what the clock shows is
/// open, and every number is the time stamp of some time.
pub(crate) fn now_ms() -> (now: i64) {
    let elapsed = match SystemTime::now().duration_since(unix_epoch()) {
        Ok(span) => Some(span.as_millis()),
        Err(_) => None,
    };
    timestamp(elapsed)
}

} // verus!
