//! The system clock, read in milliseconds since the Unix epoch.

use vstd::prelude::*;

use std::time::{Duration, SystemTime, UNIX_EPOCH};

verus! {

/// `std::time::SystemTime`, carried through opaque.
#[verifier::external_type_specification]
#[verifier::external_body]
pub struct ExSystemTime(SystemTime);

/// Calls `std::time::SystemTime::now`. Its result depends on the machine's
/// clock, so nothing is stated of it.
#[verifier::external_body]
fn system_time_now() -> SystemTime {
    SystemTime::now()
}

/// Calls `SystemTime::duration_since` with `UNIX_EPOCH`; the error it
/// returns for a time before the epoch becomes `None`. The duration depends
/// on the clock's reading, so nothing more is stated.
#[verifier::external_body]
fn duration_since_unix_epoch(t: &SystemTime) -> Option<Duration> {
    match t.duration_since(UNIX_EPOCH) {
        Ok(d) => Some(d),
        Err(_) => None,
    }
}

/// Calls `Duration::as_millis`: the whole number of milliseconds in `d`.
/// `Duration` is opaque here, so nothing is stated of the result.
#[verifier::external_body]
fn duration_as_millis(d: &Duration) -> u128 {
    d.as_millis()
}

/// The current time in milliseconds since the Unix epoch, or `None` where
/// the clock reads before the epoch.
pub fn now_millis() -> Option<u128> {
    let t = system_time_now();
    match duration_since_unix_epoch(&t) {
        Some(d) => Some(duration_as_millis(&d)),
        None => None,
    }
}

} // verus!
