//! The time model: instants are whole minutes of local wall-clock time,
//! counted from the start of the proleptic Gregorian calendar, so that
//! minute 1440 is 0001-01-01T00:00. Calendar conversions are chrono's;
//! everything else is integer arithmetic.

use vstd::prelude::*;
use vstd::string::*;
use crate::error::AppError;
use crate::error::ErrorKind;
use crate::error::date_parse;

verus! {

/// The earliest instant the scheduler stores: 0001-01-01T00:00.
pub const INSTANT_MIN: i64 = 1440;

/// The latest instant the scheduler stores: 9999-12-31T23:59. Beyond it the
/// year no longer has four digits and stored text stops sorting by time.
pub const INSTANT_MAX: i64 = 5_258_966_399;

/// Whether `t` lies in the range of instants the scheduler stores.
pub open spec fn valid_instant(t: int) -> bool {
    INSTANT_MIN <= t <= INSTANT_MAX
}

/// The number of the calendar day that contains instant `t`.
pub open spec fn day_of(t: int) -> int {
    t / 1440
}

/// The first minute of the calendar day that contains instant `t`.
pub open spec fn day_start(t: int) -> int {
    day_of(t) * 1440
}

/// The minute within its day of instant `t`, from 0 to 1439.
pub open spec fn minute_of_day(t: int) -> int {
    t % 1440
}

/// Whether two instants fall on the same calendar day.
pub open spec fn same_day(a: int, b: int) -> bool {
    day_of(a) == day_of(b)
}

/// Signed minutes from `a` to `b`.
pub open spec fn minutes_between(a: int, b: int) -> int {
    b - a
}

/// The instant `n` minutes after `t`, when it is one the scheduler stores.
pub open spec fn add_minutes_spec(t: int, n: int) -> Option<i64> {
    if valid_instant(t + n) {
        Some((t + n) as i64)
    } else {
        None
    }
}

/// Whether an interval that starts at `start` and lasts `duration` minutes
/// reaches into a later calendar day than the one it starts on.
pub open spec fn crosses_midnight(start: int, duration: int) -> bool {
    day_of(start + duration) > day_of(start)
}

/// The day number of `t`.
pub fn instant_day(t: i64) -> (d: i64)
    ensures
        d == day_of(t as int),
{
    let q: i64 = t / 1440;
    let r: i64 = t % 1440;
    if r < 0 {
        q - 1
    } else {
        q
    }
}

/// The first minute of the day of `t`.
pub fn instant_day_start(t: i64) -> (s: i64)
    requires
        valid_instant(t as int),
    ensures
        s == day_start(t as int),
        s <= t < s + 1440,
{
    (t / 1440) * 1440
}

/// The signed minutes from `a` to `b`.
pub fn minutes_from(a: i64, b: i64) -> (minutes: i64)
    requires
        valid_instant(a as int),
        valid_instant(b as int),
    ensures
        minutes == minutes_between(a as int, b as int),
{
    b - a
}

/// Whether `a` and `b` fall on the same calendar day.
pub fn is_same_day(a: i64, b: i64) -> (same: bool)
    ensures
        same == same_day(a as int, b as int),
{
    instant_day(a) == instant_day(b)
}

/// Whether `t` is an instant the scheduler stores.
pub fn is_valid_instant(t: i64) -> (ok: bool)
    ensures
        ok == valid_instant(t as int),
{
    INSTANT_MIN <= t && t <= INSTANT_MAX
}

/// Adds `n` minutes to `t`; `None` when the sum leaves the stored range.
pub fn add_minutes(t: i64, n: i64) -> (r: Option<i64>)
    ensures
        r == add_minutes_spec(t as int, n as int),
{
    match t.checked_add(n) {
        Some(sum) => {
            if INSTANT_MIN <= sum && sum <= INSTANT_MAX {
                Some(sum)
            } else {
                None
            }
        },
        None => None,
    }
}

/// Whether `[start, start + duration)` crosses into the next calendar day.
pub fn is_crossing_midnight(start: i64, duration: i64) -> (crossing: bool)
    requires
        valid_instant(start as int),
    ensures
        crossing == crosses_midnight(start as int, duration as int),
{
    let base: i64 = instant_day_start(start);
    duration >= base + 1440 - start
}

// ---------------------------------------------------------------------
// Calendar conversions
// ---------------------------------------------------------------------

/// What chrono reads from a `YYYY-MM-DDTHH:MM:SS` text: the day number
/// counted from 0001-01-01 as day 1, and the seconds since midnight.
pub uninterp spec fn chrono_datetime_parts(text: Seq<char>) -> Option<(i32, u32)>;

/// What chrono reads from an `HH:MM` text: the hour and the minute.
pub uninterp spec fn chrono_clock_parts(text: Seq<char>) -> Option<(u32, u32)>;

/// What chrono reads from a `YYYY-MM-DD` text: the day number.
pub uninterp spec fn chrono_date_day(text: Seq<char>) -> Option<i32>;

/// The `YYYY-MM-DDTHH:MM:SS` text chrono writes for a day number, an hour
/// and a minute, with the seconds at zero.
pub uninterp spec fn chrono_datetime_text(day: i32, hour: u32, minute: u32) -> Option<Seq<char>>;

/// The `YYYY-MM-DD` text chrono writes for a day number.
pub uninterp spec fn chrono_date_text(day: i32) -> Option<Seq<char>>;

/// Calls `chrono::NaiveDateTime::parse_from_str` with the format
/// `%Y-%m-%dT%H:%M:%S`, and on success `Datelike::num_days_from_ce` and
/// `Timelike::num_seconds_from_midnight` on what was read. Trusted: the
/// result is a function of the text alone, and the seconds since midnight
/// are below 86400.
#[verifier::external_body]
fn read_datetime(text: &str) -> (r: Option<(i32, u32)>)
    ensures
        r == chrono_datetime_parts(text@),
        r matches Some((_, secs)) ==> secs < 86_400,
{
    match chrono::NaiveDateTime::parse_from_str(text, "%Y-%m-%dT%H:%M:%S") {
        Ok(dt) => Some(
            (
                chrono::Datelike::num_days_from_ce(&dt),
                chrono::Timelike::num_seconds_from_midnight(&dt),
            ),
        ),
        Err(_) => None,
    }
}

/// Calls `chrono::NaiveTime::parse_from_str` with the format `%H:%M`, and
/// on success `Timelike::hour` and `Timelike::minute`. Trusted: the result
/// is a function of the text alone, the hour is below 24 and the minute
/// below 60.
#[verifier::external_body]
fn read_clock(text: &str) -> (r: Option<(u32, u32)>)
    ensures
        r == chrono_clock_parts(text@),
        r matches Some((h, m)) ==> h < 24 && m < 60,
{
    match chrono::NaiveTime::parse_from_str(text, "%H:%M") {
        Ok(t) => Some((chrono::Timelike::hour(&t), chrono::Timelike::minute(&t))),
        Err(_) => None,
    }
}

/// Calls `chrono::NaiveDate::parse_from_str` with the format `%Y-%m-%d`,
/// and on success `Datelike::num_days_from_ce`. Trusted: the result is a
/// function of the text alone.
#[verifier::external_body]
fn read_date(text: &str) -> (r: Option<i32>)
    ensures
        r == chrono_date_day(text@),
{
    match chrono::NaiveDate::parse_from_str(text, "%Y-%m-%d") {
        Ok(d) => Some(chrono::Datelike::num_days_from_ce(&d)),
        Err(_) => None,
    }
}

/// Calls `chrono::NaiveDate::from_num_days_from_ce_opt`, then
/// `NaiveDate::and_hms_opt` with zero seconds, then `NaiveDateTime::format`
/// with `%Y-%m-%dT%H:%M:%S`. Trusted: the result is a function of the
/// three numbers alone.
#[verifier::external_body]
fn write_datetime(day: i32, hour: u32, minute: u32) -> (r: Option<String>)
    ensures
        match r {
            Some(text) => chrono_datetime_text(day, hour, minute) == Some(text@),
            None => chrono_datetime_text(day, hour, minute) is None,
        },
{
    let date = chrono::NaiveDate::from_num_days_from_ce_opt(day)?;
    let dt = date.and_hms_opt(hour, minute, 0)?;
    Some(dt.format("%Y-%m-%dT%H:%M:%S").to_string())
}

/// Calls `chrono::NaiveDate::from_num_days_from_ce_opt`, then
/// `NaiveDate::format` with `%Y-%m-%d`. Trusted: the result is a function
/// of the day number alone.
#[verifier::external_body]
fn write_date(day: i32) -> (r: Option<String>)
    ensures
        match r {
            Some(text) => chrono_date_text(day) == Some(text@),
            None => chrono_date_text(day) is None,
        },
{
    let date = chrono::NaiveDate::from_num_days_from_ce_opt(day)?;
    Some(date.format("%Y-%m-%d").to_string())
}

/// Calls `chrono::Local::now`, then `DateTime::naive_local`, and reads the
/// day number and the seconds since midnight. Trusted: only that the
/// seconds since midnight are below 86400; the reading itself changes from
/// call to call.
#[verifier::external_body]
fn read_local_now() -> (r: (i32, u32))
    ensures
        r.1 < 86_400,
{
    let now = chrono::Local::now().naive_local();
    (chrono::Datelike::num_days_from_ce(&now), chrono::Timelike::num_seconds_from_midnight(&now))
}

/// The instant of a day number and a count of seconds since midnight, with
/// the seconds within the minute dropped; `None` outside the stored range.
pub open spec fn instant_from_parts_spec(day: int, secs: int) -> Option<i64> {
    let t = day * 1440 + secs / 60;
    if 0 <= secs < 86_400 && valid_instant(t) {
        Some(t as i64)
    } else {
        None
    }
}

/// Combines a day number and seconds since midnight into an instant.
pub fn instant_from_parts(day: i32, secs: u32) -> (r: Option<i64>)
    ensures
        r == instant_from_parts_spec(day as int, secs as int),
{
    if secs >= 86_400 {
        return None;
    }
    let minute: i64 = (secs / 60) as i64;
    let t: i64 = (day as i64) * 1440 + minute;
    if INSTANT_MIN <= t && t <= INSTANT_MAX {
        Some(t)
    } else {
        None
    }
}

/// The minute of the day of an hour and a minute on the clock.
pub fn minutes_from_clock(hour: u32, minute: u32) -> (m: i64)
    ensures
        m == hour as int * 60 + minute as int,
{
    (hour as i64) * 60 + (minute as i64)
}

/// What `parse_timestamp` returns for a text.
pub open spec fn parse_timestamp_spec(text: Seq<char>) -> Option<i64> {
    match chrono_datetime_parts(text) {
        Some((day, secs)) => instant_from_parts_spec(day as int, secs as int),
        None => None,
    }
}

/// Reads a `YYYY-MM-DDTHH:MM:SS` timestamp as an instant. Fails with a
/// date-parse error when chrono rejects the text or the instant lies
/// outside the stored range.
pub fn parse_timestamp(text: &str) -> (r: Result<i64, AppError>)
    ensures
        match parse_timestamp_spec(text@) {
            Some(t) => r == Ok::<i64, AppError>(t),
            None => r matches Err(e) && e.spec_kind() == ErrorKind::DateParse,
        },
{
    match read_datetime(text) {
        Some((day, secs)) => match instant_from_parts(day, secs) {
            Some(t) => Ok(t),
            None => Err(date_parse("timestamp out of range")),
        },
        None => Err(date_parse("malformed timestamp")),
    }
}

/// What `format_timestamp` returns for an instant.
pub open spec fn format_timestamp_spec(t: int) -> Option<Seq<char>> {
    if valid_instant(t) {
        chrono_datetime_text(
            day_of(t) as i32,
            (minute_of_day(t) / 60) as u32,
            (minute_of_day(t) % 60) as u32,
        )
    } else {
        None
    }
}

/// Writes an instant as `YYYY-MM-DDTHH:MM:SS`, with the seconds at zero;
/// `None` for an instant outside the stored range or one chrono cannot
/// write.
pub fn format_timestamp(t: i64) -> (r: Option<String>)
    ensures
        match r {
            Some(text) => format_timestamp_spec(t as int) == Some(text@),
            None => format_timestamp_spec(t as int) is None,
        },
{
    if !(INSTANT_MIN <= t && t <= INSTANT_MAX) {
        return None;
    }
    let day: i64 = t / 1440;
    let minute: i64 = t % 1440;
    write_datetime(day as i32, (minute / 60) as u32, (minute % 60) as u32)
}

/// What `parse_date` returns for a text.
pub open spec fn parse_date_spec(text: Seq<char>) -> Option<i64> {
    match chrono_date_day(text) {
        Some(day) => if valid_instant(day as int * 1440) {
            Some(day as i64)
        } else {
            None
        },
        None => None,
    }
}

/// Reads a `YYYY-MM-DD` date as a day number. Fails with a date-parse
/// error when chrono rejects the text or the day lies outside the stored
/// range.
pub fn parse_date(text: &str) -> (r: Result<i64, AppError>)
    ensures
        match parse_date_spec(text@) {
            Some(day) => r == Ok::<i64, AppError>(day),
            None => r matches Err(e) && e.spec_kind() == ErrorKind::DateParse,
        },
{
    match read_date(text) {
        Some(day) => {
            let first: i64 = (day as i64) * 1440;
            if INSTANT_MIN <= first && first <= INSTANT_MAX {
                Ok(day as i64)
            } else {
                Err(date_parse("date out of range"))
            }
        },
        None => Err(date_parse("malformed date")),
    }
}

/// What `format_date` returns for a day number.
pub open spec fn format_date_spec(day: int) -> Option<Seq<char>> {
    if valid_instant(day * 1440) {
        chrono_date_text(day as i32)
    } else {
        None
    }
}

/// Writes a day number as `YYYY-MM-DD`; `None` for a day outside the
/// stored range or one chrono cannot write.
pub fn format_date(day: i64) -> (r: Option<String>)
    ensures
        match r {
            Some(text) => format_date_spec(day as int) == Some(text@),
            None => format_date_spec(day as int) is None,
        },
{
    if day < 1 || day > 3_652_059 {
        return None;
    }
    write_date(day as i32)
}

/// What `time_to_minutes` returns for a text.
pub open spec fn time_to_minutes_spec(text: Seq<char>) -> Option<i64> {
    match chrono_clock_parts(text) {
        Some((h, m)) => Some((h as int * 60 + m as int) as i64),
        None => None,
    }
}

/// Reads an `HH:MM` clock time as minutes since midnight; `None` when
/// chrono rejects the text.
pub fn time_to_minutes(text: &str) -> (r: Option<i64>)
    ensures
        r == time_to_minutes_spec(text@),
        r matches Some(m) ==> 0 <= m < 1440,
{
    match read_clock(text) {
        Some((h, m)) => Some(minutes_from_clock(h, m)),
        None => None,
    }
}

/// The seconds from the start of day zero to the second that a
/// `YYYY-MM-DDTHH:MM:SS` text shows; for a text that chrono rejects, to
/// the start of 1970-01-01. A text that shows second 60 counts as
/// showing second 59.
pub open spec fn timestamp_seconds_spec(text: Seq<char>) -> int {
    match chrono_datetime_parts(text) {
        Some((day, secs)) => day * 86_400 + secs,
        None => 719_163int * 86_400,
    }
}

/// Reads a timestamp as seconds from the start of day zero, falling back
/// to the start of 1970-01-01.
pub fn timestamp_seconds(text: &str) -> (seconds: i64)
    ensures
        seconds == timestamp_seconds_spec(text@),
{
    match read_datetime(text) {
        Some((day, secs)) => (day as i64) * 86_400 + (secs as i64),
        None => 719_163 * 86_400,
    }
}

/// Whether `reading` can be what `now_instant` gives: an instant of the
/// stored range, or nothing when the clock shows a time outside it.
pub open spec fn is_clock_reading(reading: Option<i64>) -> bool {
    reading matches Some(t) ==> valid_instant(t as int)
}

/// Reads the local wall clock as an instant, seconds dropped; `None` when
/// the clock shows a time outside the stored range.
pub fn now_instant() -> (r: Option<i64>)
    ensures
        r matches Some(t) ==> valid_instant(t as int),
{
    let (day, secs) = read_local_now();
    instant_from_parts(day, secs)
}

} // verus!
