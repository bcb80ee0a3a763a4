//! The clock: milliseconds since the start of an epoch year.

use vstd::prelude::*;
use chrono::{TimeZone, Utc};

verus! {

/// The number of leap days in the years 1 to `year`, both included, of the
/// proleptic Gregorian calendar.
pub open spec fn leap_days_through(year: int) -> int {
    year / 4 - year / 100 + year / 400
}

/// The number of days from 1 January 1970 to 1 January of `year`.
pub open spec fn year_start_day(year: int) -> int {
    365 * (year - 1970) + leap_days_through(year - 1) - leap_days_through(1969)
}

/// The number of milliseconds from the start of 1970 to the start of `year`,
/// both in UTC and without leap seconds.
pub open spec fn year_start_millis(year: int) -> int {
    year_start_day(year) * 86_400_000
}

/// The offset of the instant `now` from the instant `start`, both given in
/// milliseconds on one scale: their difference, but 0 where `now` is the
/// earlier one, and the greatest `usize` where the difference is larger.
pub open spec fn offset_millis(start: int, now: int) -> int {
    if now <= start {
        0
    } else if now - start > usize::MAX {
        usize::MAX as int
    } else {
        now - start
    }
}

/// Calls `chrono::Utc::now` and `DateTime::timestamp_millis`: the system
/// clock's milliseconds since the start of 1970. Nothing is claimed of the
/// number, which differs from call to call.
#[verifier::external_body]
fn unix_millis_now() -> i64 {
    Utc::now().timestamp_millis()
}

/// Calls `chrono::TimeZone::with_ymd_and_hms` on `Utc` for the first instant
/// of `year`, and `DateTime::timestamp_millis` on what it returns. The claim:
/// the result is the number of milliseconds from the start of 1970 to the
/// start of that year in the proleptic Gregorian calendar, which is what the
/// two functions document.
#[verifier::external_body]
fn unix_millis_of_year(year: u16) -> (millis: i64)
    ensures
        millis == year_start_millis(year as int),
{
    Utc.with_ymd_and_hms(year as i32, 1, 1, 0, 0, 0).unwrap().timestamp_millis()
}

/// The first instant of `year`, in milliseconds since the start of 1970.
pub fn epoch_start(year: u16) -> (millis: i64)
    ensures
        millis == year_start_millis(year as int),
{
    unix_millis_of_year(year)
}

/// The offset of `now` from `start`, both in milliseconds since the start of
/// 1970, as a count that is never negative.
pub fn elapsed_between(start: i64, now: i64) -> (offset: usize)
    ensures
        offset == offset_millis(start as int, now as int),
{
    if now <= start {
        return 0;
    }
    let span: i128 = now as i128 - start as i128;
    if span > usize::MAX as i128 {
        usize::MAX
    } else {
        span as usize
    }
}

/// The milliseconds that have passed since the start of `year`, by the system
/// clock: the offset from the first instant of `year` of the instant that the
/// clock gives, which depends on when the call is made.
pub fn epoch_timestamp(year: u16) -> (stamp: usize)
    ensures
        exists|now: int|
            i64::MIN <= now <= i64::MAX && stamp == #[trigger] offset_millis(
                year_start_millis(year as int),
                now,
            ),
{
    let start = epoch_start(year);
    let now = unix_millis_now();
    let stamp = elapsed_between(start, now);
    assert(stamp == offset_millis(year_start_millis(year as int), now as int));
    stamp
}

} // verus!
