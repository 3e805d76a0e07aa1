//! The platform clock and time zone.
//!
//! Everything here that touches the clock is a trusted wrapper: its
//! contract states only what holds of every outcome (field ranges and
//! a real calendar date), never which instant comes back.  The
//! wrappers avoid the panicking convenience paths: the current instant
//! is read as a duration since the Unix epoch and turned into a date
//! by a fallible conversion, so a clock set before the epoch or
//! absurdly far in the future surfaces as `None` instead of aborting.
//! The verified functions below the wrappers turn the raw parts into
//! valid [`Timestamp`]s, handling every value the clock could hand
//! them.

use vstd::prelude::*;
use chrono::{Datelike, TimeZone, Timelike};
use crate::time::{real_date, Timestamp};

verus! {

/// Relies on std's `SystemTime::now`/`duration_since` and chrono's
/// `DateTime::from_timestamp` with the `Datelike`/`Timelike`
/// accessors: the current UTC time as calendar parts (year, month,
/// day, hour, minute, second, millisecond), or `None` when the system
/// clock is before the Unix epoch or beyond chrono's range.  chrono
/// documents that a `DateTime`'s date is a real proleptic-Gregorian
/// calendar date (month 1..=12, day 1..=31 and within the month),
/// hour 0..=23, minute and second 0..=59, and milliseconds that may
/// reach 1999 during a leap second.
#[verifier::external_body]
fn utc_now_parts() -> (r: Option<(i64, i64, i64, i64, i64, i64, i64)>)
    ensures
        r matches Some(p) ==> real_date(p.0 as int, p.1 as int, p.2 as int) && 0 <= p.3 <= 23
            && 0 <= p.4 <= 59 && 0 <= p.5 <= 59 && 0 <= p.6 <= 1999,
{
    let d = std::time::SystemTime::now().duration_since(std::time::UNIX_EPOCH).ok()?;
    let secs = i64::try_from(d.as_secs()).ok()?;
    let n = chrono::DateTime::from_timestamp(secs, d.subsec_nanos())?;
    Some((
        n.year() as i64,
        n.month() as i64,
        n.day() as i64,
        n.hour() as i64,
        n.minute() as i64,
        n.second() as i64,
        n.timestamp_subsec_millis() as i64,
    ))
}

/// Relies on the same epoch-based clock read plus chrono's
/// `with_timezone(&Local)`, `NaiveDate::and_hms_opt` and
/// `TimeZone::from_local_datetime`: today's local midnight converted
/// to UTC, as calendar parts.  `None` when the clock is out of range
/// or the local time zone has no unambiguous midnight today (a
/// daylight-saving transition).  chrono's local-offset lookup itself
/// treats unusable platform time-zone data as fatal; no public path
/// reports that failure.  The same range guarantees as for
/// `utc_now_parts` apply.
#[verifier::external_body]
fn local_day_start_utc_parts() -> (r: Option<(i64, i64, i64, i64, i64, i64)>)
    ensures
        r matches Some(p) ==> real_date(p.0 as int, p.1 as int, p.2 as int) && 0 <= p.3 <= 23
            && 0 <= p.4 <= 59 && 0 <= p.5 <= 59,
{
    let d = std::time::SystemTime::now().duration_since(std::time::UNIX_EPOCH).ok()?;
    let secs = i64::try_from(d.as_secs()).ok()?;
    let now = chrono::DateTime::from_timestamp(secs, d.subsec_nanos())?;
    let day = now.with_timezone(&chrono::Local).date_naive();
    let t = day.and_hms_opt(0, 0, 0)?;
    let l = chrono::Local.from_local_datetime(&t).single()?;
    let u = l.with_timezone(&chrono::Utc);
    Some((u.year() as i64, u.month() as i64, u.day() as i64, u.hour() as i64, u.minute() as i64, u.second() as i64))
}

/// Relies on the same calls as `local_day_start_utc_parts`: today's
/// local 23:59:59 converted to UTC, as calendar parts, or `None` under
/// the same conditions.  The same range guarantees apply.
#[verifier::external_body]
fn local_day_end_utc_parts() -> (r: Option<(i64, i64, i64, i64, i64, i64)>)
    ensures
        r matches Some(p) ==> real_date(p.0 as int, p.1 as int, p.2 as int) && 0 <= p.3 <= 23
            && 0 <= p.4 <= 59 && 0 <= p.5 <= 59,
{
    let d = std::time::SystemTime::now().duration_since(std::time::UNIX_EPOCH).ok()?;
    let secs = i64::try_from(d.as_secs()).ok()?;
    let now = chrono::DateTime::from_timestamp(secs, d.subsec_nanos())?;
    let day = now.with_timezone(&chrono::Local).date_naive();
    let t = day.and_hms_opt(23, 59, 59)?;
    let l = chrono::Local.from_local_datetime(&t).single()?;
    let u = l.with_timezone(&chrono::Utc);
    Some((u.year() as i64, u.month() as i64, u.day() as i64, u.hour() as i64, u.minute() as i64, u.second() as i64))
}

/// The current UTC time as a valid timestamp, or `None` when the
/// clock yields no instant the wire format can carry: before the Unix
/// epoch, beyond chrono's range, or with a year of more than four
/// digits.  During a leap second the milliseconds are clamped to the
/// last representable millisecond.
pub fn now_timestamp() -> (r: Option<Timestamp>)
    ensures
        r matches Some(t) ==> t.valid(),
{
    let (y, mo, d, h, mi, s, ms) = match utc_now_parts() {
        Some(p) => p,
        None => return None,
    };
    let ms2: i64 = if ms > 999 {
        999
    } else {
        ms
    };
    Timestamp::from_parts(y, mo, d, h, mi, s, ms2)
}

/// Today's local-day window — local midnight through local 23:59:59,
/// both converted to UTC — or `None` when the platform clock or time
/// zone yields no usable window or the instants fall outside the wire
/// format's range.
pub fn local_today_window() -> (r: Option<(Timestamp, Timestamp)>)
    ensures
        r matches Some(w) ==> w.0.valid() && w.1.valid(),
{
    let s = match local_day_start_utc_parts() {
        Some(p) => p,
        None => return None,
    };
    let e = match local_day_end_utc_parts() {
        Some(p) => p,
        None => return None,
    };
    let lo = match Timestamp::from_parts(s.0, s.1, s.2, s.3, s.4, s.5, 0) {
        Some(t) => t,
        None => return None,
    };
    let hi = match Timestamp::from_parts(e.0, e.1, e.2, e.3, e.4, e.5, 0) {
        Some(t) => t,
        None => return None,
    };
    Some((lo, hi))
}

} // verus!
