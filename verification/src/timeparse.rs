//! Instants and calendar dates.
//!
//! Instants are seconds since the Unix epoch; a calendar date is the whole
//! number of days since the epoch that an instant falls on.  Parsing and
//! formatting of datetime strings is delegated to the `chrono` crate.

use vstd::prelude::*;
use crate::numutil::div_floor_i128;

verus! {

/// Seconds in a day.
pub const DAY_SECONDS: i64 = 86_400;

/// The calendar date an instant falls on, as days since the epoch.
pub open spec fn spec_day_of(t: i64) -> int {
    t as int / DAY_SECONDS as int
}

/// The calendar date an instant falls on, as days since the epoch.
pub fn day_of(t: i64) -> (r: i64)
    ensures
        r == spec_day_of(t),
{
    let d = div_floor_i128(t as i128, DAY_SECONDS as i128);
    proof {
        assert(i64::MIN as int / DAY_SECONDS as int <= d <= i64::MAX as int / DAY_SECONDS as int)
            by (nonlinear_arith)
            requires
                d == t as int / DAY_SECONDS as int,
                i64::MIN <= t <= i64::MAX,
        ;
    }
    d as i64
}

/// The epoch second an RFC 3339 datetime string denotes, if it is one.
pub uninterp spec fn rfc3339_epoch(s: Seq<char>) -> Option<i64>;

/// The epoch second a `YYYY-MM-DD HH:MM:SS` string denotes read as UTC, if it
/// is one.
pub uninterp spec fn naive_epoch(s: Seq<char>) -> Option<i64>;

/// The RFC 3339 rendering of an epoch second, where chrono can represent it.
pub uninterp spec fn rfc3339_of(t: i64) -> Option<Seq<char>>;

/// Relies on `chrono::DateTime::parse_from_rfc3339` and
/// `chrono::DateTime::timestamp`: whether the string parses, and the instant
/// it denotes, depend on the characters alone.
#[verifier::external_body]
fn parse_rfc3339_epoch(s: &str) -> (r: Option<i64>)
    ensures
        r == rfc3339_epoch(s@),
{
    chrono::DateTime::parse_from_rfc3339(s).ok().map(|d| d.timestamp())
}

/// Relies on `chrono::NaiveDateTime::parse_from_str` with format
/// `%Y-%m-%d %H:%M:%S`, `NaiveDateTime::and_utc` and
/// `chrono::DateTime::timestamp`: the result depends on the characters alone.
#[verifier::external_body]
fn parse_naive_epoch(s: &str) -> (r: Option<i64>)
    ensures
        r == naive_epoch(s@),
{
    chrono::NaiveDateTime::parse_from_str(s, "%Y-%m-%d %H:%M:%S").ok().map(
        |d| d.and_utc().timestamp(),
    )
}

/// Relies on `chrono::DateTime::<chrono::Utc>::from_timestamp` and
/// `chrono::DateTime::to_rfc3339`: the rendering depends on the instant alone,
/// and instants outside chrono's representable range have none.
#[verifier::external_body]
fn format_rfc3339_epoch(t: i64) -> (r: Option<String>)
    ensures
        r is Some <==> rfc3339_of(t) is Some,
        r is Some ==> r.unwrap()@ == rfc3339_of(t).unwrap(),
{
    chrono::DateTime::<chrono::Utc>::from_timestamp(t, 0).map(|d| d.to_rfc3339())
}

/// The instant a datetime string denotes: it is read as RFC 3339 first and as
/// `YYYY-MM-DD HH:MM:SS` (UTC) second; `None` when it is neither.
pub fn parse_datetime(s: &str) -> (r: Option<i64>)
    ensures
        r == if rfc3339_epoch(s@) is Some {
            rfc3339_epoch(s@)
        } else {
            naive_epoch(s@)
        },
{
    match parse_rfc3339_epoch(s) {
        Some(t) => Some(t),
        None => parse_naive_epoch(s),
    }
}

/// The RFC 3339 rendering of an instant, or the empty string for an instant
/// chrono cannot represent.
pub fn format_datetime(t: i64) -> (r: String)
    ensures
        r@ == if rfc3339_of(t) is Some {
            rfc3339_of(t).unwrap()
        } else {
            Seq::<char>::empty()
        },
{
    match format_rfc3339_epoch(t) {
        Some(s) => s,
        None => String::new(),
    }
}

} // verus!
