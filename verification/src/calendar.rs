//! Points in time, as seconds since the start of 1970 in UTC.

use chrono::{DateTime, TimeDelta, Utc};
use vstd::prelude::*;

verus! {

pub const SECONDS_PER_DAY: i64 = 86400;

/// Whether `secs` lies between the first second of the year -262143 and the last one of the year
/// 262142: the years that the calendar of `chrono` has.
pub open spec fn in_calendar(secs: int) -> bool {
    -8334601228800 <= secs <= 8210266876799
}

/// What `chrono::DateTime::<Utc>::format` writes of the point in time `secs` under `format`.
pub uninterp spec fn utc_text(secs: int, format: Seq<char>) -> Seq<char>;

/// Calls `chrono::DateTime::<Utc>::format` on the point in time `secs`, which
/// `chrono::DateTime::<Utc>::from_timestamp` makes where the calendar has it. What is written then
/// depends on `secs` and on `format` alone. Other formats are left out: on one that `chrono` does
/// not know, writing the text panics.
#[verifier::external_body]
fn format_utc(secs: i64, format: &str) -> (r: Option<String>)
    requires
        format@ == "%Y-%m-%d"@,
    ensures
        r is Some <==> in_calendar(secs as int),
        r matches Some(text) ==> text@ == utc_text(secs as int, format@),
{
    DateTime::<Utc>::from_timestamp(secs, 0).map(|time| time.format(format).to_string())
}

/// Calls `chrono::DateTime::<Utc>::checked_sub_signed` on the point in time `secs` and a span of
/// `days` days of equal length. The result is the point in time that many days earlier, where the
/// calendar has both of them.
#[verifier::external_body]
fn sub_days(secs: i64, days: i64) -> (r: Option<i64>)
    ensures
        match r {
            Some(earlier) => earlier == secs - days * SECONDS_PER_DAY && in_calendar(secs as int)
                && in_calendar(earlier as int),
            None => !in_calendar(secs as int) || !in_calendar(secs - days * SECONDS_PER_DAY),
        },
{
    let span = TimeDelta::try_days(days)?;
    let time = DateTime::<Utc>::from_timestamp(secs, 0)?;
    time.checked_sub_signed(span).map(|earlier| earlier.timestamp())
}

/// A day as the report shows it: year, month and day.
pub open spec fn day_text(secs: int) -> Seq<char> {
    utc_text(secs, "%Y-%m-%d"@)
}

/// The day of the earliest decision in the hook's log, as the report shows it. There is none where
/// the log is empty, nor where the calendar does not have that point in time.
pub fn measured_since_day(earliest: Option<i64>) -> (r: Option<String>)
    ensures
        match earliest {
            Some(secs) => {
                &&& r is Some <==> in_calendar(secs as int)
                &&& r matches Some(text) ==> text@ == day_text(secs as int)
            },
            None => r is None,
        },
{
    match earliest {
        Some(secs) => format_utc(secs, "%Y-%m-%d"),
        None => None,
    }
}

/// A number of days as a signed number of the same width reads it.
pub open spec fn signed_days(days: u64) -> int {
    if days <= i64::MAX {
        days as int
    } else {
        days - 0x1_0000_0000_0000_0000
    }
}

/// The point in time `since_days` days before `now`, where the calendar has it. A number of days
/// beyond the largest `i64` wraps around to a negative one, and so to the future.
pub fn cutoff(now: i64, since_days: u64) -> (r: Option<i64>)
    ensures
        r is Some <==> in_calendar(now as int) && in_calendar(
            now - signed_days(since_days) * SECONDS_PER_DAY,
        ),
        r matches Some(earlier) ==> earlier == now - signed_days(since_days) * SECONDS_PER_DAY,
        r matches Some(earlier) ==> since_days <= i64::MAX ==> now - earlier == since_days * 86400,
        r matches Some(earlier) ==> since_days > i64::MAX ==> earlier - now == (
        0x1_0000_0000_0000_0000 - since_days) * 86400,
{
    let days: i64 = since_days as i64;
    assert(since_days > 0x7fff_ffff_ffff_ffffu64 ==> (since_days as i64) == since_days
        - 0x1_0000_0000_0000_0000) by (bit_vector);
    sub_days(now, days)
}

} // verus!
