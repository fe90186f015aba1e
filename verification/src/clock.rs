//! Wall-clock timestamps of the status report.
use std::time::{Duration, SystemTime, SystemTimeError};
use vstd::prelude::*;

verus! {

#[verifier::external_type_specification]
#[verifier::external_body]
pub struct ExSystemTime(SystemTime);

#[verifier::external_type_specification]
#[verifier::external_body]
pub struct ExSystemTimeError(SystemTimeError);

/// Calls `std::time::SystemTime::now`. The reading depends on the clock;
/// nothing is stated of it.
#[verifier::external_body]
fn system_time_now() -> (t: SystemTime) {
    SystemTime::now()
}

/// Calls `SystemTime::duration_since` with `std::time::UNIX_EPOCH`: the time
/// elapsed since the epoch, or an error when `t` is earlier. Nothing is stated
/// of the duration, which depends on the clock reading.
#[verifier::external_body]
fn elapsed_since_epoch(t: &SystemTime) -> (r: Result<Duration, SystemTimeError>) {
    t.duration_since(std::time::UNIX_EPOCH)
}

/// Calls `std::time::Duration::as_millis`: the whole milliseconds of `d`.
/// `Duration` is opaque here, so nothing is stated of the count.
#[verifier::external_body]
fn duration_millis(d: &Duration) -> (ms: u128) {
    d.as_millis()
}

/// The reported timestamp for an elapsed time since the epoch: `0` when the
/// clock reads before the epoch, otherwise the millisecond count truncated
/// to 64 bits.
pub fn timestamp_from_millis(elapsed_ms: Option<u128>) -> (ts: u64)
    ensures
        ts as int == match elapsed_ms {
            None => 0,
            Some(ms) => ms as int % 0x1_0000_0000_0000_0000,
        },
{
    match elapsed_ms {
        None => 0,
        Some(ms) => (ms % 0x1_0000_0000_0000_0000) as u64,
    }
}

/// Milliseconds since the Unix epoch by the system clock (0 when the clock
/// reads before the epoch), truncated to 64 bits.
pub fn chrono_now() -> (ts: u64) {
    let now = system_time_now();
    let elapsed = match elapsed_since_epoch(&now) {
        Ok(d) => Some(duration_millis(&d)),
        Err(_) => None,
    };
    timestamp_from_millis(elapsed)
}

} // verus!
