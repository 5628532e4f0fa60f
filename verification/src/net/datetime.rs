//! Reading the time stamps of the history services.
//!
//! A bar's time comes as text in one of a few layouts; it is read as UTC
//! and kept as nanoseconds since the Unix epoch. The layouts themselves are
//! read by chrono.

use vstd::prelude::*;

use crate::net::history::{compute_bucket_id, duration_ns};

verus! {

/// What chrono reads from `s` in layout `fmt` as a UTC date and time:
/// `None` when `s` does not match; else the nanoseconds since the epoch,
/// themselves `None` when outside the `i64` range.
pub uninterp spec fn chrono_datetime_nanos(s: Seq<char>, fmt: Seq<char>) -> Option<Option<i64>>;

/// What chrono reads from `s` in date layout `fmt`, taken at UTC midnight:
/// `None` when `s` does not match; else the nanoseconds since the epoch,
/// themselves `None` when outside the `i64` range.
pub uninterp spec fn chrono_date_nanos(s: Seq<char>, fmt: Seq<char>) -> Option<Option<i64>>;

/// What chrono reads from `s` as an RFC 3339 time stamp: `None` when `s` is
/// not one; else the nanoseconds since the epoch, themselves `None` when
/// outside the `i64` range.
pub uninterp spec fn chrono_rfc3339_nanos(s: Seq<char>) -> Option<Option<i64>>;

/// `NaiveDateTime::parse_from_str`, read as UTC by `Utc.from_utc_datetime`
/// and converted with `timestamp_nanos_opt`. The result is stated only as the
/// named reading of the two strings.
#[verifier::external_body]
fn datetime_nanos(s: &str, fmt: &str) -> (r: Option<Option<i64>>)
    ensures
        r == chrono_datetime_nanos(s@, fmt@),
{
    match chrono::NaiveDateTime::parse_from_str(s, fmt) {
        Ok(dt) => Some(chrono::TimeZone::from_utc_datetime(&chrono::Utc, &dt).timestamp_nanos_opt()),
        Err(_) => None,
    }
}

/// `NaiveDate::parse_from_str`, taken at midnight by `and_hms_opt(0, 0, 0)`,
/// read as UTC and converted with `timestamp_nanos_opt`. The result is
/// stated only as the named reading of the two strings.
#[verifier::external_body]
fn date_nanos(s: &str, fmt: &str) -> (r: Option<Option<i64>>)
    ensures
        r == chrono_date_nanos(s@, fmt@),
{
    match chrono::NaiveDate::parse_from_str(s, fmt) {
        Ok(d) => match d.and_hms_opt(0, 0, 0) {
            Some(dt) => Some(chrono::TimeZone::from_utc_datetime(&chrono::Utc, &dt).timestamp_nanos_opt()),
            None => None,
        },
        Err(_) => None,
    }
}

/// `DateTime::parse_from_rfc3339`, converted with `timestamp_nanos_opt`. The
/// result is stated only as the named reading of the string.
#[verifier::external_body]
fn rfc3339_nanos(s: &str) -> (r: Option<Option<i64>>)
    ensures
        r == chrono_rfc3339_nanos(s@),
{
    match chrono::DateTime::parse_from_rfc3339(s) {
        Ok(dt) => Some(dt.timestamp_nanos_opt()),
        Err(_) => None,
    }
}

/// What chrono's `DateTime::parse_from_str` reads from `s` in layout `fmt`
/// (a layout that must carry its own UTC offset): `None` when `s` does not
/// match; else the nanoseconds since the epoch, themselves `None` when
/// outside the `i64` range.
pub uninterp spec fn chrono_offset_datetime_nanos(s: Seq<char>, fmt: Seq<char>) -> Option<Option<i64>>;

/// `DateTime::parse_from_str`, converted with `timestamp_nanos_opt`. The
/// result is stated only as the named reading of the two strings.
#[verifier::external_body]
fn offset_datetime_nanos(s: &str, fmt: &str) -> (r: Option<Option<i64>>)
    ensures
        r == chrono_offset_datetime_nanos(s@, fmt@),
{
    match chrono::DateTime::parse_from_str(s, fmt) {
        Ok(dt) => Some(dt.timestamp_nanos_opt()),
        Err(_) => None,
    }
}

/// The time of a history bar given as separate fields: the reading of the
/// first layout among `YYYY-MM-DD HH:MM:SS`, `YYYY-MM-DD HH:MM` and
/// `YYYY-MM-DD` that matches `s` as an offset date and time, `None` when none
/// does.
pub open spec fn bar_fields_time_spec(s: Seq<char>) -> Option<i64> {
    if let Some(n) = chrono_offset_datetime_nanos(s, "%Y-%m-%d %H:%M:%S"@) {
        n
    } else if let Some(n) = chrono_offset_datetime_nanos(s, "%Y-%m-%d %H:%M"@) {
        n
    } else if let Some(n) = chrono_offset_datetime_nanos(s, "%Y-%m-%d"@) {
        n
    } else {
        None
    }
}

/// Nanoseconds since the epoch of a bar's time field, tried in the three
/// layouts in order; the first that matches decides.
pub fn parse_bar_fields_time(s: &str) -> (r: Option<i64>)
    ensures
        r == bar_fields_time_spec(s@),
{
    if let Some(n) = offset_datetime_nanos(s, "%Y-%m-%d %H:%M:%S") {
        return n;
    }
    if let Some(n) = offset_datetime_nanos(s, "%Y-%m-%d %H:%M") {
        return n;
    }
    if let Some(n) = offset_datetime_nanos(s, "%Y-%m-%d") {
        return n;
    }
    None
}

/// The nanoseconds of a reading, 0 when out of range.
pub open spec fn nanos_or_zero(n: Option<i64>) -> i64 {
    match n {
        Some(x) => x,
        None => 0,
    }
}

/// The time stamp of `s`: the first layout that reads it among
/// `YYYY-MM-DD HH:MM:SS`, `YYYY-MM-DD HH:MM`, the same two with `/`, the
/// dates `YYYY-MM-DD` and `YYYY/MM/DD` at midnight, and RFC 3339; 0 when none
/// does (or the time is out of range).
pub open spec fn parse_datetime_spec(s: Seq<char>) -> i64 {
    if let Some(n) = chrono_datetime_nanos(s, "%Y-%m-%d %H:%M:%S"@) {
        nanos_or_zero(n)
    } else if let Some(n) = chrono_datetime_nanos(s, "%Y-%m-%d %H:%M"@) {
        nanos_or_zero(n)
    } else if let Some(n) = chrono_datetime_nanos(s, "%Y/%m/%d %H:%M:%S"@) {
        nanos_or_zero(n)
    } else if let Some(n) = chrono_datetime_nanos(s, "%Y/%m/%d %H:%M"@) {
        nanos_or_zero(n)
    } else if let Some(n) = chrono_date_nanos(s, "%Y-%m-%d"@) {
        nanos_or_zero(n)
    } else if let Some(n) = chrono_date_nanos(s, "%Y/%m/%d"@) {
        nanos_or_zero(n)
    } else if let Some(n) = chrono_rfc3339_nanos(s) {
        nanos_or_zero(n)
    } else {
        0
    }
}

/// Nanoseconds since the epoch of the time stamp `s`.
pub fn parse_datetime(s: &str) -> (t: i64)
    ensures
        t == parse_datetime_spec(s@),
{
    if let Some(n) = datetime_nanos(s, "%Y-%m-%d %H:%M:%S") {
        return n.unwrap_or(0);
    }
    if let Some(n) = datetime_nanos(s, "%Y-%m-%d %H:%M") {
        return n.unwrap_or(0);
    }
    if let Some(n) = datetime_nanos(s, "%Y/%m/%d %H:%M:%S") {
        return n.unwrap_or(0);
    }
    if let Some(n) = datetime_nanos(s, "%Y/%m/%d %H:%M") {
        return n.unwrap_or(0);
    }
    if let Some(n) = date_nanos(s, "%Y-%m-%d") {
        return n.unwrap_or(0);
    }
    if let Some(n) = date_nanos(s, "%Y/%m/%d") {
        return n.unwrap_or(0);
    }
    if let Some(n) = rfc3339_nanos(s) {
        return n.unwrap_or(0);
    }
    0
}

/// The bar a time stamp belongs to at a period of `duration_seconds`: its
/// bucket id and the bucket's start in nanoseconds.
pub open spec fn bar_slot_spec(datetime_ns: i64, duration_seconds: u32) -> (int, int) {
    if duration_seconds == 0 {
        (0, 0)
    } else {
        let d = duration_seconds * 1_000_000_000;
        let id = datetime_ns as int / d;
        (id, id * d)
    }
}

/// Bucket id and bucket start of `datetime_ns`.
pub fn bar_slot(datetime_ns: i64, duration_seconds: u32) -> (r: (i64, i64))
    requires
        i64::MIN <= bar_slot_spec(datetime_ns, duration_seconds).1,
    ensures
        r.0 == bar_slot_spec(datetime_ns, duration_seconds).0,
        r.1 == bar_slot_spec(datetime_ns, duration_seconds).1,
{
    let id = compute_bucket_id(datetime_ns, duration_seconds);
    let d = duration_ns(duration_seconds);
    proof {
        if duration_seconds > 0 {
            let x = datetime_ns as int;
            let dd = d as int;
            assert((x / dd) * dd <= x) by (nonlinear_arith)
                requires
                    dd >= 1,
            {
            }
        }
    }
    (id, id * d)
}

} // verus!
