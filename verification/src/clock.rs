//! The current time, in whole seconds since the Unix epoch.

use std::time::{Duration, SystemTime};

use vstd::prelude::*;

use crate::error::Error;

verus! {

/// A reading of the system clock.
#[verifier::external_type_specification]
#[verifier::external_body]
pub struct ExSystemTime(std::time::SystemTime);

/// The number that `Duration::as_secs` returns.
pub uninterp spec fn whole_seconds(duration: Duration) -> u64;

/// `Duration::as_secs` returns the whole seconds of a duration, which depend on the duration alone.
pub assume_specification[ std::time::Duration::as_secs ](duration: &std::time::Duration) -> (secs:
    u64)
    ensures
        secs == whole_seconds(*duration),
;

/// `SystemTime::now` reads the system clock; nothing is claimed of what it shows.
pub assume_specification[ std::time::SystemTime::now ]() -> std::time::SystemTime
;

/// What `SystemTime::duration_since` finds to have passed from the Unix epoch to `time`: nothing
/// where the epoch is the later of the two.
pub uninterp spec fn since_epoch(time: SystemTime) -> Option<Duration>;

/// `SystemTime::duration_since`, asked for the time since `UNIX_EPOCH`, answers with a duration or
/// with an error, and which of the two and what duration depend on the clock reading alone.
#[verifier::external_body]
fn duration_since_epoch(time: &SystemTime) -> (elapsed: Option<Duration>)
    ensures
        elapsed == since_epoch(*time),
{
    match time.duration_since(SystemTime::UNIX_EPOCH) {
        Ok(elapsed) => Some(elapsed),
        Err(_) => None,
    }
}

/// The timestamp of a clock reading.
pub open spec fn timestamp_of(time: SystemTime) -> Result<u64, Error> {
    match since_epoch(time) {
        Some(elapsed) => Ok(whole_seconds(elapsed)),
        None => Err(Error::BeforeEpoch),
    }
}

/// The timestamp for the time that passed since the epoch, if any did.
pub fn timestamp(elapsed: Option<Duration>) -> (result: Result<u64, Error>)
    ensures
        result == match elapsed {
            Some(elapsed) => Ok::<u64, Error>(whole_seconds(elapsed)),
            None => Err(Error::BeforeEpoch),
        },
{
    match elapsed {
        Some(elapsed) => Ok(elapsed.as_secs()),
        None => Err(Error::BeforeEpoch),
    }
}

/// The current time. A clock that is set to before the epoch has none.
pub fn current_time() -> (result: Result<u64, Error>)
    ensures
        exists|time: SystemTime| result == #[trigger] timestamp_of(time),
{
    let time = SystemTime::now();
    let elapsed = duration_since_epoch(&time);
    let result = timestamp(elapsed);
    assert(result == timestamp_of(time));
    result
}

/// The timestamp of a clock reading and the one that lies `timeout` seconds before it.
pub open spec fn cutoff_of(time: SystemTime, timeout: u64) -> Result<(u64, u64), Error> {
    match timestamp_of(time) {
        Ok(now) => if timeout <= now {
            Ok((now, (now - timeout) as u64))
        } else {
            Err(Error::BeforeEpoch)
        },
        Err(error) => Err(error),
    }
}

/// The current time, where it lies at least `timeout` seconds after the epoch.
pub fn current_time_after(timeout: u64) -> (result: Result<u64, Error>)
    ensures
        exists|time: SystemTime|
            match #[trigger] cutoff_of(time, timeout) {
                Ok((now, limit)) => timeout <= now && limit == now - timeout && result == Ok::<
                    u64,
                    Error,
                >(now),
                Err(error) => result == Err::<u64, Error>(error),
            },
{
    let reading = current_time();
    let ghost time = choose|time: SystemTime| reading == #[trigger] timestamp_of(time);
    let result = match reading {
        Ok(now) => if timeout <= now {
            Ok(now)
        } else {
            Err(Error::BeforeEpoch)
        },
        Err(error) => Err(error),
    };
    let ghost cutoff = cutoff_of(time, timeout);
    result
}

} // verus!
