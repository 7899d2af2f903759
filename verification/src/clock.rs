//! The current time.

use vstd::prelude::*;

verus! {

/// A point in time of the system clock.
#[verifier::external_type_specification]
#[verifier::external_body]
pub struct ExSystemTime(std::time::SystemTime);

/// Calls `std::time::SystemTime::now`. Nothing is claimed of the time.
#[verifier::external_body]
fn system_now() -> (now: std::time::SystemTime) {
    std::time::SystemTime::now()
}

/// Calls `std::time::SystemTime::duration_since` with the Unix epoch; `None`
/// for a time before it. Nothing is claimed of the duration: it rests on the
/// clock.
#[verifier::external_body]
fn since_epoch(time: std::time::SystemTime) -> (elapsed: Option<std::time::Duration>) {
    time.duration_since(std::time::UNIX_EPOCH).ok()
}

/// Calls `std::time::Duration::as_secs`. Nothing is claimed of the number: it
/// rests on the clock.
#[verifier::external_body]
fn whole_secs(elapsed: std::time::Duration) -> (secs: u64) {
    elapsed.as_secs()
}

/// Seconds since the epoch as a signed number: the largest one where they do
/// not fit, zero for a time before the epoch.
pub open spec fn unix_secs(elapsed: Option<u64>) -> int {
    match elapsed {
        Some(secs) => if secs <= i64::MAX {
            secs as int
        } else {
            i64::MAX as int
        },
        None => 0,
    }
}

/// Unix time of a moment `elapsed` seconds after the epoch, saturating; `0`
/// for a moment before it.
#[must_use]
pub fn unix_time(elapsed: Option<u64>) -> (secs: i64)
    ensures
        secs == unix_secs(elapsed),
{
    match elapsed {
        Some(secs) => if secs <= i64::MAX as u64 {
            secs as i64
        } else {
            i64::MAX
        },
        None => 0,
    }
}

/// Current Unix time in seconds, saturating; `0` if the clock is before the
/// epoch.
#[must_use]
pub fn now_unix() -> (secs: i64)
    ensures
        secs >= 0,
{
    match since_epoch(system_now()) {
        Some(elapsed) => unix_time(Some(whole_secs(elapsed))),
        None => unix_time(None),
    }
}

} // verus!
