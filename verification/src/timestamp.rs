//! Timestamp parsing for the three shapes seen on the wire:
//!
//! - 10-digit epoch **seconds** (`generated_ts` in N/P/I payloads),
//! - 13-digit epoch **milliseconds** (OPLC `collector_ts`),
//! - ISO-8601 / RFC 3339 with fractional seconds (Windows XML `TimeCreated`,
//!   e.g. `2026-06-30T22:26:08.7149364Z`).

use vstd::prelude::*;

use crate::num::{parse_i64, parse_int};
use crate::text::{trim, trim_str};
use crate::time::Timestamp;

verus! {

/// The `i64` that `s` (trimmed) spells, if any.
pub open spec fn epoch_int(s: Seq<char>) -> Option<int> {
    parse_int(trim(s), 10, i64::MIN as int, i64::MAX as int)
}

/// Epoch seconds as milliseconds, when that fits an `i64`.
pub open spec fn secs_to_millis(n: int) -> Option<int> {
    if i64::MIN <= n * 1000 <= i64::MAX {
        Some(n * 1000)
    } else {
        None
    }
}

/// The epoch time (in milliseconds) that `s` spells with its unit inferred:
/// values of at least `10^12` are milliseconds, smaller ones seconds.
pub open spec fn epoch_spec(s: Seq<char>) -> Option<int> {
    match epoch_int(s) {
        Some(n) => if n >= 1_000_000_000_000 {
            Some(n)
        } else {
            secs_to_millis(n)
        },
        None => None,
    }
}

/// The epoch time (in milliseconds) that `s` spells in seconds.
pub open spec fn epoch_seconds_spec(s: Seq<char>) -> Option<int> {
    match epoch_int(s) {
        Some(n) => secs_to_millis(n),
        None => None,
    }
}

/// The timestamp of an optional millisecond count.
pub open spec fn ts_of(o: Option<int>) -> Option<Timestamp> {
    match o {
        Some(m) => Some(Timestamp(m as i64)),
        None => None,
    }
}

fn parse_trimmed(s: &str) -> (r: Option<i64>)
    ensures
        match r {
            Some(v) => epoch_int(s@) == Some(v as int),
            None => epoch_int(s@) is None,
        },
{
    let t = trim_str(s);
    parse_i64(t.as_str())
}

fn millis_of_secs(n: i64) -> (r: Option<Timestamp>)
    ensures
        r == ts_of(secs_to_millis(n as int)),
{
    match n.checked_mul(1000) {
        Some(m) => Some(Timestamp::from_millis(m)),
        None => None,
    }
}

/// Parse a bare epoch integer, inferring the unit from its magnitude:
/// values ≥ 10^12 are treated as milliseconds, otherwise as seconds.
///
/// (10^12 ms ≈ year 2001; 10^12 s ≈ year 33658 — so the boundary cleanly
/// separates modern second- and millisecond-epoch values.)
pub fn parse_epoch(s: &str) -> (r: Option<Timestamp>)
    ensures
        r == ts_of(epoch_spec(s@)),
{
    let n = parse_trimmed(s)?;
    if n >= 1_000_000_000_000 {
        Some(Timestamp::from_millis(n))
    } else {
        millis_of_secs(n)
    }
}

/// Parse epoch **seconds** explicitly (used for the payload `generated_ts`,
/// which is always seconds regardless of magnitude).
pub fn parse_epoch_seconds(s: &str) -> (r: Option<Timestamp>)
    ensures
        r == ts_of(epoch_seconds_spec(s@)),
{
    let n = parse_trimmed(s)?;
    millis_of_secs(n)
}

/// Parse epoch **milliseconds** explicitly (used for the OPLC `collector_ts`).
pub fn parse_epoch_millis(s: &str) -> (r: Option<Timestamp>)
    ensures
        r == ts_of(epoch_int(s@)),
{
    let n = parse_trimmed(s)?;
    Some(Timestamp::from_millis(n))
}

/// What `chrono::DateTime::parse_from_rfc3339` then `timestamp_millis` give
/// for a string: the instant in epoch milliseconds, or `None` when the string
/// is not RFC 3339.
pub uninterp spec fn rfc3339_millis(s: Seq<char>) -> Option<i64>;

/// `chrono::DateTime::parse_from_rfc3339` followed by `timestamp_millis`.
/// The result is a function of the text alone; the RFC 3339 grammar and the
/// calendar arithmetic are chrono's and are not restated here.
#[verifier::external_body]
fn rfc3339_to_millis(s: &str) -> (r: Option<i64>)
    ensures
        r == rfc3339_millis(s@),
{
    chrono::DateTime::parse_from_rfc3339(s).ok().map(|dt| dt.timestamp_millis())
}

/// The instant an ISO-8601 / RFC 3339 timestamp (trimmed) names.
pub open spec fn iso8601_spec(s: Seq<char>) -> Option<Timestamp> {
    match rfc3339_millis(trim(s)) {
        Some(m) => Some(Timestamp(m)),
        None => None,
    }
}

/// Parse an ISO-8601 / RFC 3339 timestamp (with optional fractional seconds and
/// a `Z` or numeric offset) to epoch milliseconds. Windows emits 100 ns (7-digit)
/// fractions, which chrono accepts.
pub fn parse_iso8601(s: &str) -> (r: Option<Timestamp>)
    ensures
        r == iso8601_spec(s@),
{
    let t = trim_str(s);
    match rfc3339_to_millis(t.as_str()) {
        Some(m) => Some(Timestamp::from_millis(m)),
        None => None,
    }
}

} // verus!
