//! Instants, wall-clock time and time zones.
//!
//! An instant is a number of seconds since 1970-01-01T00:00:00 UTC. A
//! wall-clock time is the same count read on a local clock: the day is its
//! quotient by the length of a day, the time of day its remainder. What a
//! time zone's rules say is asked of `chrono` and `chrono-tz`.

use chrono::{Offset, TimeZone};
use vstd::prelude::*;

verus! {

/// The seconds of a day on the wall clock.
pub const DAY: i64 = 86_400;

/// The day of a wall-clock time, counted from 1970-01-01.
pub open spec fn day_of(local: int) -> int {
    local / 86_400
}

/// The time of day of a wall-clock time, in seconds since midnight.
pub open spec fn time_of(local: int) -> int {
    local % 86_400
}

/// The ISO weekday of a day: 1 for Monday to 7 for Sunday. Day 0 was a
/// Thursday.
pub open spec fn iso_weekday(day: int) -> int {
    (day + 3) % 7 + 1
}

/// The day of a wall-clock time.
pub fn local_day(local: i64) -> (d: i64)
    ensures
        d == day_of(local as int),
{
    let q: i64 = local / DAY;
    if local % DAY < 0 {
        q - 1
    } else {
        q
    }
}

/// The time of day of a wall-clock time.
pub fn local_time(local: i64) -> (t: i64)
    ensures
        t == time_of(local as int),
        0 <= t < 86_400,
{
    let m: i64 = local % DAY;
    if m < 0 {
        m + DAY
    } else {
        m
    }
}

/// The ISO weekday of a day, 1 for Monday to 7 for Sunday.
pub fn weekday_of(day: i64) -> (w: u32)
    ensures
        w == iso_weekday(day as int),
        1 <= w <= 7,
{
    let m: i64 = day % 7;
    let shifted: i64 = if m < 0 {
        m + 7
    } else {
        m
    };
    let w: i64 = (shifted + 3) % 7 + 1;
    w as u32
}

/// Trusted: whether a name is that of an IANA time zone that the zone table
/// knows.
pub uninterp spec fn zone_exists(zone: Seq<char>) -> bool;

/// Trusted: the offset of a zone at an instant, local time minus UTC in
/// seconds; `None` for a name that is no IANA zone and for an instant outside
/// the years that the calendar library covers.
pub uninterp spec fn zone_offset(zone: Seq<char>, utc: int) -> Option<int>;

/// Trusted: the instant at which a zone's clocks show a wall-clock time, where
/// there is exactly one; `None` for a time that the zone skips or shows twice,
/// for an unknown zone and for a time out of range.
pub uninterp spec fn zone_instant(zone: Seq<char>, local: int) -> Option<int>;

/// Trusted: the instant that an RFC 3339 text denotes, cut to whole seconds;
/// `None` for a text that is no such date and time.
pub uninterp spec fn rfc3339_instant(text: Seq<char>) -> Option<int>;

/// Trusted: midnight of the calendar date that a text denotes in a format, as
/// a wall-clock time; `None` where the text does not fit the format.
pub uninterp spec fn date_midnight(text: Seq<char>, format: Seq<char>) -> Option<int>;

/// Trusted: the RFC 3339 text of an instant in UTC; `None` for an instant out
/// of range.
pub uninterp spec fn rfc3339_text(utc: int) -> Option<Seq<char>>;

/// An optional count as a mathematical integer.
pub open spec fn widen(x: Option<i64>) -> Option<int> {
    match x {
        Some(v) => Some(v as int),
        None => None,
    }
}

/// An optional offset as a mathematical integer.
pub open spec fn widen32(x: Option<i32>) -> Option<int> {
    match x {
        Some(v) => Some(v as int),
        None => None,
    }
}

/// Whether a name is that of a known time zone.
///
/// Trusted: stands for `chrono_tz::Tz::from_str`, asked only whether it
/// succeeds.
#[verifier::external_body]
pub(crate) fn zone_known(zone: &str) -> (r: bool)
    ensures
        r == zone_exists(zone@),
{
    zone.parse::<chrono_tz::Tz>().is_ok()
}

/// The offset of a zone at an instant.
///
/// Trusted: parses the zone with `chrono_tz::Tz::from_str`, makes the instant
/// with `chrono::DateTime::from_timestamp` and asks
/// `TimeZone::offset_from_utc_datetime`; the result is a function of the zone
/// and the instant. A `FixedOffset` lies strictly within a day either way.
#[verifier::external_body]
pub(crate) fn utc_offset(zone: &str, utc: i64) -> (r: Option<i32>)
    ensures
        widen32(r) == zone_offset(zone@, utc as int),
        r matches Some(off) ==> -86_400 < off < 86_400,
{
    let z: chrono_tz::Tz = zone.parse().ok()?;
    let t = chrono::DateTime::from_timestamp(utc, 0)?;
    Some(z.offset_from_utc_datetime(&t.naive_utc()).fix().local_minus_utc())
}

/// The instant at which a zone's clocks show a wall-clock time.
///
/// Trusted: parses the zone with `chrono_tz::Tz::from_str` and asks
/// `TimeZone::from_local_datetime`, keeping a `Single` answer only; that
/// answer is the wall-clock time less an offset, which lies strictly within a
/// day either way.
#[verifier::external_body]
pub(crate) fn instant_of_local(zone: &str, local: i64) -> (r: Option<i64>)
    ensures
        widen(r) == zone_instant(zone@, local as int),
        r matches Some(utc) ==> -86_400 < local - utc < 86_400,
{
    let z: chrono_tz::Tz = zone.parse().ok()?;
    let naive = chrono::DateTime::from_timestamp(local, 0)?.naive_utc();
    z.from_local_datetime(&naive).single().map(|d| d.timestamp())
}

/// The instant that an RFC 3339 text denotes.
///
/// Trusted: stands for `chrono::DateTime::parse_from_rfc3339`, read as a
/// timestamp in whole seconds.
#[verifier::external_body]
pub(crate) fn parse_rfc3339(text: &str) -> (r: Option<i64>)
    ensures
        widen(r) == rfc3339_instant(text@),
{
    chrono::DateTime::parse_from_rfc3339(text).ok().map(|d| d.timestamp())
}

/// Midnight of the calendar date that a text denotes in a format.
///
/// Trusted: stands for `chrono::NaiveDate::parse_from_str`; the date is read
/// as the wall-clock second count of its midnight, a multiple of a day.
#[verifier::external_body]
pub(crate) fn parse_date(text: &str, format: &str) -> (r: Option<i64>)
    ensures
        widen(r) == date_midnight(text@, format@),
        r matches Some(local) ==> local % 86_400 == 0,
{
    let date = chrono::NaiveDate::parse_from_str(text, format).ok()?;
    Some(date.and_time(chrono::NaiveTime::MIN).and_utc().timestamp())
}

/// The RFC 3339 text of an instant, in UTC.
///
/// Trusted: stands for `chrono::DateTime::to_rfc3339` on the instant made by
/// `chrono::DateTime::from_timestamp`.
#[verifier::external_body]
pub(crate) fn format_rfc3339(utc: i64) -> (r: Option<String>)
    ensures
        crate::types::opt_view(r) == rfc3339_text(utc as int),
{
    chrono::DateTime::from_timestamp(utc, 0).map(|d| d.to_rfc3339())
}

/// The current instant.
///
/// Trusted: stands for `chrono::Utc::now`; nothing is promised of the clock.
#[verifier::external_body]
pub(crate) fn now_utc() -> i64 {
    chrono::Utc::now().timestamp()
}

/// The wall-clock time that a zone shows at an instant: the instant plus the
/// zone's offset there, where the offset lies within a day and the sum is a
/// representable count.
pub open spec fn zone_local(zone: Seq<char>, utc: int) -> Option<int> {
    if i64::MIN <= utc <= i64::MAX {
        match zone_offset(zone, utc) {
            Some(off) => if -86_400 < off < 86_400 && i64::MIN <= utc + off <= i64::MAX {
                Some(utc + off)
            } else {
                None
            },
            None => None,
        }
    } else {
        None
    }
}

/// The instant at which a zone's clocks show the time `time` of the day
/// `day`, where that is a representable wall-clock time with exactly one
/// instant.
pub open spec fn zone_day_start(zone: Seq<char>, day: int, time: int) -> Option<int> {
    if i64::MIN <= day * 86_400 + time <= i64::MAX {
        zone_instant(zone, day * 86_400 + time)
    } else {
        None
    }
}

/// The instant at which a zone's clocks show the time `time` of the day
/// `day`.
pub fn day_start(zone: &str, day: i64, time: i64) -> (r: Option<i64>)
    ensures
        widen(r) == zone_day_start(zone@, day as int, time as int),
{
    let local: i128 = (day as i128) * 86_400 + (time as i128);
    if local < i64::MIN as i128 || local > i64::MAX as i128 {
        None
    } else {
        instant_of_local(zone, local as i64)
    }
}

/// The wall-clock time that a zone shows at an instant.
pub fn local_of_instant(zone: &str, utc: i64) -> (r: Option<i64>)
    ensures
        widen(r) == zone_local(zone@, utc as int),
        r matches Some(l) ==> -86_400 < l - utc < 86_400,
{
    match utc_offset(zone, utc) {
        Some(off) => utc.checked_add(off as i64),
        None => None,
    }
}

} // verus!
