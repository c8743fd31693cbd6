//! The system clock.

use vstd::prelude::*;
use std::time::{Duration, SystemTime};

verus! {

#[verifier::external_type_specification]
#[verifier::external_body]
pub struct ExSystemTime(SystemTime);

/// Reads the system clock with `std::time::SystemTime::now`. Nothing is
/// promised of the time it returns.
#[verifier::external_body]
fn system_clock_now() -> SystemTime {
    SystemTime::now()
}

/// `SystemTime::duration_since(UNIX_EPOCH)` for `t`; `None` when `t` lies
/// before the epoch. Nothing is promised of the duration.
#[verifier::external_body]
fn duration_since_epoch(t: &SystemTime) -> Option<Duration> {
    t.duration_since(std::time::UNIX_EPOCH).ok()
}

/// `Duration::as_secs`: the whole seconds of `d`. Nothing is promised of the
/// number.
#[verifier::external_body]
fn whole_seconds(d: &Duration) -> u64 {
    d.as_secs()
}

/// The current time in seconds since the Unix epoch; a clock set before the
/// epoch reads as 0.
pub fn unix_seconds() -> u64 {
    let t = system_clock_now();
    match duration_since_epoch(&t) {
        Some(d) => whole_seconds(&d),
        None => 0,
    }
}

} // verus!
