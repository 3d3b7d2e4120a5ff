//! The wall clock, read in milliseconds since the Unix epoch.
use std::time::{Duration, SystemTime, SystemTimeError, UNIX_EPOCH};
use vstd::prelude::*;

verus! {

/// `std::time::SystemTime`, carried through opaquely.
#[verifier::external_type_specification]
#[verifier::external_body]
pub struct ExSystemTime(SystemTime);

/// `std::time::SystemTimeError`, carried through opaquely.
#[verifier::external_type_specification]
#[verifier::external_body]
pub struct ExSystemTimeError(SystemTimeError);

/// `SystemTime::now`: the current time. Nothing is claimed of it.
#[verifier::external_body]
fn system_now() -> SystemTime {
    SystemTime::now()
}

/// `SystemTime::duration_since(UNIX_EPOCH)`: how long after the epoch `t` lies, or an error
/// when `t` is earlier. Nothing is claimed of either.
#[verifier::external_body]
fn duration_since_epoch(t: &SystemTime) -> Result<Duration, SystemTimeError> {
    t.duration_since(UNIX_EPOCH)
}

/// `Duration::as_secs`: the whole seconds of a duration. Nothing is claimed of it.
#[verifier::external_body]
fn duration_secs(d: &Duration) -> u64 {
    d.as_secs()
}

/// `Duration::subsec_nanos`: the fractional part of a duration in nanoseconds, which std
/// documents as always less than one billion.
#[verifier::external_body]
fn duration_subsec_nanos(d: &Duration) -> (n: u32)
    ensures
        n < 1_000_000_000,
{
    d.subsec_nanos()
}

/// The whole milliseconds of a time since the epoch, given as whole seconds and the
/// nanoseconds past them; zero when the time lies before the epoch (`None`).
pub fn millis_from(since: Option<(u64, u32)>) -> (r: u128)
    ensures
        match since {
            None => r == 0,
            Some((secs, nanos)) => r == secs * 1000 + nanos / 1_000_000,
        },
{
    match since {
        None => 0,
        Some((secs, nanos)) => {
            assert(secs * 1000 <= u64::MAX * 1000) by (nonlinear_arith);
            (secs as u128) * 1000 + (nanos / 1_000_000) as u128
        },
    }
}

/// Milliseconds since the Unix epoch, or zero when the clock reads earlier than the epoch.
/// The clock may read anything, so only the range of the result is stated; `millis_from`
/// states how the reading becomes milliseconds.
pub fn now_millis() -> (r: u128)
    ensures
        r <= u64::MAX * 1000 + 999,
{
    let now = system_now();
    let since = match duration_since_epoch(&now) {
        Ok(d) => Some((duration_secs(&d), duration_subsec_nanos(&d))),
        Err(_) => None,
    };
    millis_from(since)
}

} // verus!
