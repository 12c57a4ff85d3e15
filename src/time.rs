//! Points in time as the entries carry them, and the calls into chrono that read and
//! print them.
use chrono::{Datelike, Timelike};
use vstd::prelude::*;

verus! {

/// A local date and time with its offset from UTC, as plain values.
#[derive(Clone, Copy, Debug, PartialEq, Eq, Structural)]
pub struct Timestamp {
    pub year: i32,
    pub month: u32,
    pub day: u32,
    pub hour: u32,
    pub minute: u32,
    pub second: u32,
    /// Fraction of the second; a value of a billion or more marks a leap second.
    pub nanosecond: u32,
    /// Seconds to add to UTC to get the local time.
    pub utc_offset: i32,
}

impl Timestamp {
    /// The ranges that chrono keeps its dates and times in.
    pub open spec fn valid(&self) -> bool {
        &&& 1 <= self.month <= 12
        &&& 1 <= self.day <= 31
        &&& self.hour < 24
        &&& self.minute < 60
        &&& self.second < 60
        &&& self.nanosecond < 2_000_000_000
        &&& self.nanosecond >= 1_000_000_000 ==> self.second == 59
        &&& -86_400 < self.utc_offset < 86_400
    }
}

pub open spec fn digit(n: int) -> char {
    seq!['0', '1', '2', '3', '4', '5', '6', '7', '8', '9'][n]
}

pub open spec fn two_digits(n: int) -> Seq<char> {
    seq![digit(n / 10), digit(n % 10)]
}

pub open spec fn three_digits(n: int) -> Seq<char> {
    seq![digit(n / 100), digit((n / 10) % 10), digit(n % 10)]
}

/// `HH:MM:SS.mmm` of the local time; a leap second shows as second 60.
pub open spec fn clock_text(t: Timestamp) -> Seq<char> {
    two_digits(t.hour as int) + seq![':'] + two_digits(t.minute as int) + seq![':'] + two_digits(
        t.second + t.nanosecond / 1_000_000_000,
    ) + seq!['.'] + three_digits((t.nanosecond / 1_000_000 % 1000) as int)
}

/// chrono's pattern for `HH:MM:SS.mmm`.
pub open spec fn clock_pattern() -> Seq<char> {
    seq!['%', 'T', '%', '.', '3', 'f']
}

/// chrono's pattern for its full date and time (`Sun Jul  8 00:34:60 2001`).
pub open spec fn full_pattern() -> Seq<char> {
    seq!['%', 'c']
}

/// What chrono's `NaiveDateTime::parse_from_str` reads from a text with a pattern.
pub uninterp spec fn naive_stamp_of(text: Seq<char>, pattern: Seq<char>) -> Option<Timestamp>;

/// What chrono's `DateTime::<FixedOffset>::parse_from_str` reads from a text with a pattern.
pub uninterp spec fn offset_stamp_of(text: Seq<char>, pattern: Seq<char>) -> Option<Timestamp>;

/// What chrono prints for a local date and time with the pattern `%c`.
pub uninterp spec fn full_date_text(t: Timestamp) -> Seq<char>;

/// Relies on chrono's `NaiveDateTime::parse_from_str`; the accessors of the parsed value
/// stay in chrono's ranges, and a naive time has no offset.
#[verifier::external_body]
pub(crate) fn parse_naive(text: &str, pattern: &str) -> (r: Option<Timestamp>)
    ensures
        r == naive_stamp_of(text@, pattern@),
        r matches Some(t) ==> t.valid() && t.utc_offset == 0,
{
    match chrono::NaiveDateTime::parse_from_str(text, pattern) {
        Ok(d) => Some(Timestamp {
            year: d.year(),
            month: d.month(),
            day: d.day(),
            hour: d.hour(),
            minute: d.minute(),
            second: d.second(),
            nanosecond: d.nanosecond(),
            utc_offset: 0,
        }),
        Err(_) => None,
    }
}

/// Relies on chrono's `DateTime::<FixedOffset>::parse_from_str`; the local fields and the
/// offset stay in chrono's ranges.
#[verifier::external_body]
pub(crate) fn parse_with_offset(text: &str, pattern: &str) -> (r: Option<Timestamp>)
    ensures
        r == offset_stamp_of(text@, pattern@),
        r matches Some(t) ==> t.valid(),
{
    match chrono::DateTime::parse_from_str(text, pattern) {
        Ok(d) => Some(Timestamp {
            year: d.year(),
            month: d.month(),
            day: d.day(),
            hour: d.hour(),
            minute: d.minute(),
            second: d.second(),
            nanosecond: d.nanosecond(),
            utc_offset: d.offset().local_minus_utc(),
        }),
        Err(_) => None,
    }
}

/// Relies on chrono's `NaiveTime::from_hms_nano_opt` and `format` with `%T%.3f`: two digits
/// each of hour, minute and second (plus one in a leap second), a dot and three digits of
/// milliseconds.
#[verifier::external_body]
pub(crate) fn format_clock(t: &Timestamp, pattern: &str) -> (r: String)
    requires
        pattern@ == clock_pattern(),
    ensures
        t.valid() ==> r@ == clock_text(*t),
{
    match chrono::NaiveTime::from_hms_nano_opt(t.hour, t.minute, t.second, t.nanosecond) {
        Some(time) => time.format(pattern).to_string(),
        None => String::new(),
    }
}

/// Relies on chrono's `NaiveDate::from_ymd_opt`, `NaiveTime::from_hms_nano_opt`,
/// `NaiveDateTime::new` and `format` with `%c`:
/// the result depends on the date and time alone.
#[verifier::external_body]
pub(crate) fn format_full(t: &Timestamp, pattern: &str) -> (r: String)
    requires
        pattern@ == full_pattern(),
    ensures
        r@ == full_date_text(*t),
{
    let date = chrono::NaiveDate::from_ymd_opt(t.year, t.month, t.day);
    let time = chrono::NaiveTime::from_hms_nano_opt(t.hour, t.minute, t.second, t.nanosecond);
    match (date, time) {
        (Some(d), Some(tm)) => chrono::NaiveDateTime::new(d, tm).format(pattern).to_string(),
        _ => String::new(),
    }
}

} // verus!
