//! Wall-clock access, the one source of timestamps.

use vstd::prelude::*;

verus! {

/// std's `SystemTime`, carried opaquely from the clock to the conversion.
#[verifier::external_type_specification]
#[verifier::external_body]
pub struct ExSystemTime(std::time::SystemTime);

/// Relies on std's `SystemTime::now`: the current wall-clock time. Nothing is
/// known of the value.
#[verifier::external_body]
fn system_now() -> std::time::SystemTime {
    std::time::SystemTime::now()
}

/// Relies on std's `SystemTime::duration_since` against `UNIX_EPOCH`: the
/// time elapsed since the epoch, or `None` when `t` is earlier. Nothing is
/// known of the value.
#[verifier::external_body]
fn since_epoch(t: std::time::SystemTime) -> Option<std::time::Duration> {
    t.duration_since(std::time::UNIX_EPOCH).ok()
}

/// Relies on std's `Duration::as_nanos`: the whole nanoseconds of `d`.
/// Nothing is known of the value here.
#[verifier::external_body]
fn duration_nanos(d: std::time::Duration) -> u128 {
    d.as_nanos()
}

/// Nanoseconds since the Unix epoch now, or `None` when the system clock reads
/// a time before the epoch.
pub fn now_nanos() -> Option<u128> {
    match since_epoch(system_now()) {
        Some(d) => Some(duration_nanos(d)),
        None => None,
    }
}

} // verus!
