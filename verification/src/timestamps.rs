//! Reading timestamp text into instants (Unix seconds and milliseconds).

use vstd::prelude::*;

verus! {

/// The instant that `s` denotes as an RFC 3339 date-time, as seconds and
/// milliseconds since the Unix epoch, when chrono's RFC 3339 parser accepts it.
pub uninterp spec fn rfc3339_instant(s: Seq<char>) -> Option<(i64, i64)>;

/// The instant that `s` denotes as a date-time without offset in format
/// `fmt`, read as UTC, in milliseconds since the Unix epoch.
pub uninterp spec fn naive_datetime_millis(s: Seq<char>, fmt: Seq<char>) -> Option<i64>;

/// Midnight UTC of the date that `s` denotes in format `fmt`, in
/// milliseconds since the Unix epoch.
pub uninterp spec fn naive_date_millis(s: Seq<char>, fmt: Seq<char>) -> Option<i64>;

/// Calls `chrono::DateTime::parse_from_rfc3339`; the result is `rfc3339_instant`
/// of the text: the parsed instant's `timestamp()` and `timestamp_millis()`.
#[verifier::external_body]
pub(crate) fn parse_rfc3339(s: &str) -> (res: Option<(i64, i64)>)
    ensures
        res == rfc3339_instant(s@),
{
    match chrono::DateTime::parse_from_rfc3339(s) {
        Ok(d) => Some((d.timestamp(), d.timestamp_millis())),
        Err(_) => None,
    }
}

/// Calls `chrono::NaiveDateTime::parse_from_str`; the result is
/// `naive_datetime_millis` of the text and format: the parsed value taken
/// as UTC, in milliseconds.
#[verifier::external_body]
fn parse_naive_datetime(s: &str, fmt: &str) -> (res: Option<i64>)
    ensures
        res == naive_datetime_millis(s@, fmt@),
{
    match chrono::NaiveDateTime::parse_from_str(s, fmt) {
        Ok(d) => Some(d.and_utc().timestamp_millis()),
        Err(_) => None,
    }
}

/// Calls `chrono::NaiveDate::parse_from_str`; the result is
/// `naive_date_millis` of the text and format: midnight UTC of the parsed
/// date, in milliseconds.
#[verifier::external_body]
fn parse_naive_date(s: &str, fmt: &str) -> (res: Option<i64>)
    ensures
        res == naive_date_millis(s@, fmt@),
{
    match chrono::NaiveDate::parse_from_str(s, fmt) {
        Ok(d) => match d.and_hms_opt(0, 0, 0) {
            Some(t) => Some(t.and_utc().timestamp_millis()),
            None => None,
        },
        Err(_) => None,
    }
}

/// The milliseconds of a timestamp text: RFC 3339 first, then a date-time
/// without offset (`T` or space between date and time, optional fraction)
/// taken as UTC, then a bare date at midnight UTC.
pub open spec fn timestamp_millis(s: Seq<char>) -> Option<i64> {
    match rfc3339_instant(s) {
        Some(p) => Some(p.1),
        None => match naive_datetime_millis(s, "%Y-%m-%dT%H:%M:%S%.f"@) {
            Some(m) => Some(m),
            None => match naive_datetime_millis(s, "%Y-%m-%d %H:%M:%S%.f"@) {
                Some(m) => Some(m),
                None => naive_date_millis(s, "%Y-%m-%d"@),
            },
        },
    }
}

/// Reads a timestamp text into milliseconds since the Unix epoch.
pub fn parse_timestamp(s: &str) -> (res: Option<i64>)
    ensures
        res == timestamp_millis(s@),
{
    match parse_rfc3339(s) {
        Some(p) => Some(p.1),
        None => match parse_naive_datetime(s, "%Y-%m-%dT%H:%M:%S%.f") {
            Some(m) => Some(m),
            None => match parse_naive_datetime(s, "%Y-%m-%d %H:%M:%S%.f") {
                Some(m) => Some(m),
                None => parse_naive_date(s, "%Y-%m-%d"),
            },
        },
    }
}

} // verus!
