//! The system clock.

use crate::calendar::{iso, iso_utc};
use std::time::{Duration, SystemTime, SystemTimeError};
use vstd::prelude::*;

verus! {

/// `std::time::SystemTime`: a reading of the system clock.
#[verifier::external_type_specification]
#[verifier::external_body]
pub struct ExSystemTime(SystemTime);

/// `std::time::SystemTimeError`: the clock stands before the moment it is compared with.
#[verifier::external_type_specification]
#[verifier::external_body]
pub struct ExSystemTimeError(SystemTimeError);

/// The span from the Unix epoch to a reading of the clock; nothing where the reading is earlier.
pub uninterp spec fn span_since_epoch(now: SystemTime) -> Option<Duration>;

/// The whole seconds of a span of time.
pub uninterp spec fn whole_seconds(span: Duration) -> u64;

/// `std::time::SystemTime::now` reads the system clock. Nothing is claimed of the reading.
pub assume_specification[ SystemTime::now ]() -> (r: SystemTime)
;

/// `std::time::Duration::as_secs` gives the whole seconds of a span of time: a number that the
/// span alone decides.
pub assume_specification[ Duration::as_secs ](span: &Duration) -> (r: u64)
    ensures
        r == whole_seconds(*span),
;

/// Calls `std::time::SystemTime::duration_since` with the Unix epoch: the span from the epoch to
/// a reading of the clock, or an error where the reading is earlier than the epoch. The reading
/// alone decides which.
#[verifier::external_body]
fn since_epoch(now: &SystemTime) -> (r: Result<Duration, SystemTimeError>)
    ensures
        match r {
            Ok(span) => span_since_epoch(*now) == Some(span),
            Err(_) => span_since_epoch(*now) is None,
        },
{
    now.duration_since(std::time::UNIX_EPOCH)
}

/// The seconds from the Unix epoch to a reading of the clock; 0 where the reading is earlier.
pub open spec fn epoch_seconds(now: SystemTime) -> i64 {
    match span_since_epoch(now) {
        Some(span) => whole_seconds(span) as i64,
        None => 0,
    }
}

/// A reading of the clock as an ISO-8601 string in UTC.
pub fn utc_iso_of(now: &SystemTime) -> (r: String)
    ensures
        r@ == iso(epoch_seconds(*now) as int),
{
    let secs: i64 = match since_epoch(now) {
        Ok(span) => span.as_secs() as i64,
        Err(_) => 0,
    };
    iso_utc(secs)
}

/// Current UTC time as an ISO-8601 string, used as the numbered-UFC watermark: the text of the
/// moment that the clock shows.
pub fn now_utc_iso() -> (r: String)
    ensures
        exists|now: SystemTime| r@ == iso(#[trigger] epoch_seconds(now) as int),
{
    utc_iso_of(&SystemTime::now())
}

/// What a reading of the clock is written as: the moment that lies as many whole seconds behind the
/// Unix epoch, or the epoch itself where the reading is earlier.
pub proof fn law_reading_is_written_as_its_moment(now: SystemTime)
    ensures
        span_since_epoch(now) is None ==> iso(epoch_seconds(now) as int) == iso(0),
        span_since_epoch(now) matches Some(span) ==> (whole_seconds(span) <= i64::MAX ==> iso(
            epoch_seconds(now) as int,
        ) == iso(whole_seconds(span) as int)),
{
}

} // verus!
