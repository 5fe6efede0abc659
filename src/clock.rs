//! Time conversions, delegated to chrono.
use vstd::prelude::*;

verus! {

/// Seconds since the Unix epoch of a wall-clock text `YYYYMMDDTHHMMSS`,
/// read as UTC, or `None` where chrono's parser does not take the text as a
/// valid date and time in that format.
pub uninterp spec fn wall_clock_seconds_of(text: Seq<char>) -> Option<i64>;

/// The `DD.MM.YYYY` date in UTC of a count of seconds since the Unix epoch,
/// or `None` where the instant is outside the representable range.
pub uninterp spec fn utc_day_of(secs: i64) -> Option<Seq<char>>;

/// Relies on chrono's `NaiveDateTime::parse_from_str` with the format
/// `%Y%m%dT%H%M%S`, and on `and_utc().timestamp()` for the epoch seconds.
#[verifier::external_body]
pub(crate) fn parse_wall_clock(text: &str) -> (r: Option<i64>)
    ensures
        r == wall_clock_seconds_of(text@),
{
    match chrono::NaiveDateTime::parse_from_str(text, "%Y%m%dT%H%M%S") {
        Ok(t) => Some(t.and_utc().timestamp()),
        Err(_) => None,
    }
}

/// Relies on chrono's `DateTime::from_timestamp` (whole seconds) and on its
/// `format("%d.%m.%Y")` for the text of the date.
#[verifier::external_body]
pub(crate) fn format_utc_day(secs: i64) -> (r: Option<String>)
    ensures
        r matches Some(s) ==> utc_day_of(secs) == Some(s@),
        r is None ==> utc_day_of(secs) is None,
{
    match chrono::DateTime::from_timestamp(secs, 0) {
        Some(t) => Some(t.format("%d.%m.%Y").to_string()),
        None => None,
    }
}

/// The day key of an event that starts `start` seconds after the epoch:
/// the start is read as a signed count, so instants before 1970 that were
/// stored wrapped keep their date.
pub open spec fn day_key_of(start: u64) -> Option<Seq<char>> {
    utc_day_of(start as i64)
}

/// The `DD.MM.YYYY` key of the day on which `start` falls, in UTC.
pub fn day_key(start: u64) -> (r: Option<String>)
    ensures
        r matches Some(s) ==> day_key_of(start) == Some(s@),
        r is None ==> day_key_of(start) is None,
{
    format_utc_day(start as i64)
}

} // verus!
