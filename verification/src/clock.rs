//! Today's date, read from the system clock.

use vstd::prelude::*;
use crate::calendar::{date_text_of_day, epoch_secs_to_date};
use std::time::{Duration, SystemTime, SystemTimeError};

verus! {

#[verifier::external_type_specification]
#[verifier::external_body]
pub struct ExSystemTime(SystemTime);

#[verifier::external_type_specification]
#[verifier::external_body]
pub struct ExSystemTimeError(SystemTimeError);

/// Calls `SystemTime::now`: a reading of the system clock. Nothing is claimed of it.
#[verifier::external_body]
fn system_time_now() -> SystemTime {
    SystemTime::now()
}

/// Calls `SystemTime::duration_since` with `UNIX_EPOCH` as the earlier time: how long after
/// the epoch `t` lies, or an error when `t` lies before it. Nothing is claimed of the value.
#[verifier::external_body]
fn duration_since_unix_epoch(t: &SystemTime) -> Result<Duration, SystemTimeError> {
    t.duration_since(std::time::UNIX_EPOCH)
}

/// Calls `Duration::as_secs`: the whole seconds of `d`. Nothing is claimed of the value.
#[verifier::external_body]
fn whole_seconds(d: &Duration) -> u64 {
    d.as_secs()
}

/// The day that a clock reading of `secs` whole seconds after the epoch falls on; a reading
/// before the epoch (`None`) counts as the epoch itself.
pub open spec fn day_of_clock_reading(secs: Option<u64>) -> int {
    match secs {
        Some(s) => s as int / 86400,
        None => 0,
    }
}

/// The `YYYY-MM-DD` date (UTC) of a clock reading: `Some` whole seconds after the UNIX epoch,
/// or `None` for a clock that reads before the epoch, which counts as 1970-01-01.
pub fn date_of_clock_reading(secs: Option<u64>) -> (r: String)
    ensures
        r@ == date_text_of_day(day_of_clock_reading(secs)),
{
    match secs {
        Some(s) => epoch_secs_to_date(s),
        None => epoch_secs_to_date(0),
    }
}

/// Today's date (UTC) in `YYYY-MM-DD` form; a clock set before 1970 counts as 1970-01-01.
pub fn get_today() -> (s: String)
    ensures
        exists|reading: Option<u64>| s@ == #[trigger] date_text_of_day(day_of_clock_reading(reading)),
{
    let now = system_time_now();
    let reading = match duration_since_unix_epoch(&now) {
        Ok(d) => Some(whole_seconds(&d)),
        Err(_) => None,
    };
    date_of_clock_reading(reading)
}

} // verus!
