//! The system clock, read in milliseconds since the Unix epoch.
use vstd::prelude::*;
use vstd::string::StringExecFns;
use std::time::{SystemTime, UNIX_EPOCH};

verus! {

/// The most whole milliseconds a `Duration` holds: `u64::MAX` seconds and
/// 999 milliseconds.
pub const MAX_DURATION_MILLIS: u128 = 18446744073709551615999;

/// Milliseconds since the Unix epoch by `SystemTime::now()` and
/// `duration_since(UNIX_EPOCH)`, or the text of the error that
/// `duration_since` gives for a clock set before 1970. Of the value only
/// what `Duration::as_millis` shows of every duration is stated: it is at
/// most `MAX_DURATION_MILLIS`. Which value, and whether the clock errs,
/// is the time's.
#[verifier::external_body]
fn system_clock_millis() -> (r: Result<u128, String>)
    ensures
        r matches Ok(ms) ==> ms <= MAX_DURATION_MILLIS,
{
    match SystemTime::now().duration_since(UNIX_EPOCH) {
        Ok(elapsed) => Ok(elapsed.as_millis()),
        Err(error) => Err(error.to_string()),
    }
}

/// The current time in milliseconds since the Unix epoch, as the clock gives
/// it: a reading of a `Duration`, so never more than `MAX_DURATION_MILLIS`.
/// The reading itself, and whether the clock can be read, depend on the
/// time and are not stated.
pub fn current_time_millis() -> (r: Result<u128, String>)
    ensures
        r matches Ok(ms) ==> ms <= MAX_DURATION_MILLIS,
{
    system_clock_millis()
}

/// A clock reading as an `i64`: a reading beyond that range is an error,
/// and a clock error stays as it is.
pub fn millis_as_i64(reading: Result<u128, String>) -> (r: Result<i64, String>)
    ensures
        match reading {
            Ok(ms) => if ms > i64::MAX {
                r matches Err(e) && e@ == "System time is out of range"@
            } else {
                r == Ok::<i64, String>(ms as i64)
            },
            Err(e) => r == Err::<i64, String>(e),
        },
{
    match reading {
        Ok(ms) => if ms > i64::MAX as u128 {
            Err(String::from_str("System time is out of range"))
        } else {
            Ok(ms as i64)
        },
        Err(e) => Err(e),
    }
}

/// The current time in milliseconds since the Unix epoch, as an `i64`: see
/// [`millis_as_i64`]. Whether it succeeds is the clock's: a clock before
/// 1970 or beyond the `i64` range fails, and which it is depends on the
/// time.
pub fn now_millis() -> (r: Result<i64, String>)
    ensures
        r matches Ok(t) ==> t >= 0,
{
    millis_as_i64(system_clock_millis())
}

} // verus!
