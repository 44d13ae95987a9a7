//! The clock of the machine.

use std::time::{Duration, SystemTime, SystemTimeError};
use vstd::prelude::*;

verus! {

/// The time of the system's clock.
#[verifier::external_type_specification]
#[verifier::external_body]
pub struct ExSystemTime(SystemTime);

/// The error of `SystemTime::duration_since`.
#[verifier::external_type_specification]
#[verifier::external_body]
pub struct ExSystemTimeError(SystemTimeError);

/// What `SystemTime::duration_since` gives for the constant `SystemTime::UNIX_EPOCH`: how long the
/// Unix epoch lies before `time`, or `None` where it lies after it.
pub uninterp spec fn since_epoch(time: SystemTime) -> Option<Duration>;

/// What `Duration::as_millis` gives: the whole milliseconds of a duration.
pub uninterp spec fn whole_millis(d: Duration) -> u128;

/// `SystemTime::now`. Nothing is said of the time that it tells.
pub assume_specification[ SystemTime::now ]() -> SystemTime
;

/// `Duration::as_millis`: `whole_millis`.
pub assume_specification[ Duration::as_millis ](d: &Duration) -> (r: u128)
    ensures
        r == whole_millis(*d),
;

/// `SystemTime::duration_since` with `SystemTime::UNIX_EPOCH`: `since_epoch`, with an error in place
/// of `None`.
#[verifier::external_body]
fn since_unix_epoch(time: &SystemTime) -> (r: Result<Duration, SystemTimeError>)
    ensures
        match r {
            Ok(d) => since_epoch(*time) == Some(d),
            Err(_) => since_epoch(*time) is None,
        },
{
    time.duration_since(SystemTime::UNIX_EPOCH)
}

/// The time stamp `elapsed` milliseconds after the Unix epoch: the low 64 bits of them, or 0 where
/// there are none to tell.
pub open spec fn stamp(elapsed: Option<u128>) -> u64 {
    match elapsed {
        Some(ms) => (ms % 0x1_0000_0000_0000_0000) as u64,
        None => 0,
    }
}

/// The whole milliseconds of a duration, where there is one.
pub open spec fn optional_millis(d: Option<Duration>) -> Option<u128> {
    match d {
        Some(d) => Some(whole_millis(d)),
        None => None,
    }
}

/// The time stamp `elapsed` milliseconds after the Unix epoch: the low 64 bits of them, or 0 where
/// there are none to tell.
pub fn stamp_ms(elapsed: Option<u128>) -> (r: u64)
    ensures
        r == stamp(elapsed),
{
    match elapsed {
        Some(ms) => (ms % 0x1_0000_0000_0000_0000) as u64,
        None => 0,
    }
}

/// The Unix milliseconds of `time`; 0 where it lies before the Unix epoch.
pub fn unix_ms(time: &SystemTime) -> (r: u64)
    ensures
        r == stamp(optional_millis(since_epoch(*time))),
{
    match since_unix_epoch(time) {
        Ok(d) => stamp_ms(Some(d.as_millis())),
        Err(_) => stamp_ms(None),
    }
}

/// The Unix milliseconds of what the clock reads now; 0 where it stands before the Unix epoch.
pub fn now_ms() -> (r: u64)
    ensures
        exists|now: SystemTime| r == stamp(optional_millis(#[trigger] since_epoch(now))),
{
    let now = SystemTime::now();
    unix_ms(&now)
}

// ---- laws ----

/// A time stamp counts the milliseconds, as many as 64 bits can; before the epoch it is 0.
pub proof fn stamps_count_milliseconds(ms: u128, d: Duration)
    ensures
        ms <= u64::MAX ==> stamp(Some(ms)) == ms,
        exists|k: int| ms == stamp(Some(ms)) + #[trigger] (k * 0x1_0000_0000_0000_0000),
        stamp(None) == 0,
        stamp(optional_millis(None)) == 0,
        whole_millis(d) <= u64::MAX ==> stamp(optional_millis(Some(d))) == whole_millis(d),
{
    let k = ms as int / 0x1_0000_0000_0000_0000;
    assert(ms == stamp(Some(ms)) + k * 0x1_0000_0000_0000_0000);
}

} // verus!
