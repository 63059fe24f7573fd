//! Reading the wall clock. Nothing is known of what the clock shows: the
//! functions that read it hand the reading to verified functions that take
//! the time as an argument.

use std::time::Duration;
use std::time::SystemTime;
use std::time::SystemTimeError;
use std::time::UNIX_EPOCH;
use vstd::prelude::*;

verus! {

#[verifier::external_type_specification]
#[verifier::external_body]
pub struct ExSystemTime(SystemTime);

#[verifier::external_type_specification]
#[verifier::external_body]
pub struct ExSystemTimeError(SystemTimeError);

/// `std::time::SystemTime::now`: the current wall-clock time; nothing is claimed of it.
pub assume_specification[ SystemTime::now ]() -> SystemTime;

/// Calls `std::time::SystemTime::duration_since` with `UNIX_EPOCH`: nothing is
/// claimed of the result, which depends on the reading.
#[verifier::external_body]
fn since_unix_epoch(t: &SystemTime) -> Result<Duration, SystemTimeError> {
    t.duration_since(UNIX_EPOCH)
}

/// `std::time::Duration::as_secs`: nothing is claimed of the result.
pub assume_specification[ Duration::as_secs ](d: &Duration) -> u64;

/// Seconds since the Unix epoch by the wall clock; a clock that reads a time
/// before the epoch gives 0.
pub fn unix_time_now() -> u64 {
    match since_unix_epoch(&SystemTime::now()) {
        Ok(d) => d.as_secs(),
        Err(_) => 0,
    }
}

} // verus!
