//! Instants of the log's timeline, and what chrono computes of them.

use std::fmt::Write;
use vstd::prelude::*;

verus! {

/// A UTC instant as chrono's `DateTime<Utc>` reports it: whole seconds since the
/// Unix epoch (`timestamp()`) and the nanoseconds past that second
/// (`timestamp_subsec_nanos()`, above 999_999_999 only within a leap second).
#[derive(Clone, Copy, PartialEq, Eq, Structural, Debug)]
pub struct Instant {
    pub secs: i64,
    pub nanos: u32,
}

impl Instant {
    /// `self` is not later than `other`: seconds first, then nanoseconds.
    pub open spec fn le(self, other: Instant) -> bool {
        self.secs < other.secs || (self.secs == other.secs && self.nanos <= other.nanos)
    }

    /// Whether `self` is not later than `other`.
    pub fn is_at_or_before(&self, other: &Instant) -> (r: bool)
        ensures
            r == self.le(*other),
    {
        self.secs < other.secs || (self.secs == other.secs && self.nanos <= other.nanos)
    }

    /// Whether `self` and `other` are the same instant.
    pub fn same_as(&self, other: &Instant) -> (r: bool)
        ensures
            r == (*self == *other),
    {
        self.secs == other.secs && self.nanos == other.nanos
    }
}

/// The UTC calendar day that holds `t`, counted from the Unix epoch (the day
/// that chrono's `date_naive()` gives, as a number).
pub open spec fn day_of(t: Instant) -> int {
    t.secs as int / 86400
}

/// Whether two instants fall on the same UTC calendar day.
pub fn same_utc_day(a: Instant, b: Instant) -> (r: bool)
    ensures
        r == (day_of(a) == day_of(b)),
{
    // Shift by a whole number of days so that the division is over naturals.
    let shift: i128 = 86400i128 * 140737488355328i128;
    let sa: i128 = a.secs as i128 + shift;
    let sb: i128 = b.secs as i128 + shift;
    let ua = sa as u128;
    let ub = sb as u128;
    let da = ua / 86400;
    let db = ub / 86400;
    proof {
        assert(ua as int / 86400 == a.secs as int / 86400 + 140737488355328) by (nonlinear_arith)
            requires
                ua as int == a.secs as int + 86400 * 140737488355328,
        ;
        assert(ub as int / 86400 == b.secs as int / 86400 + 140737488355328) by (nonlinear_arith)
            requires
                ub as int == b.secs as int + 86400 * 140737488355328,
        ;
    }
    da == db
}

/// What chrono's `DateTime::parse_from_rfc3339` gives for this text once the
/// result is taken to UTC: its `timestamp()` and `timestamp_subsec_nanos()`, or
/// `None` where chrono refuses the text.
pub uninterp spec fn rfc3339_instant(s: Seq<char>) -> Option<(i64, u32)>;

/// chrono's `DateTime::parse_from_rfc3339`, followed by `with_timezone(&Utc)`,
/// `timestamp()` and `timestamp_subsec_nanos()`; the result is named, not stated.
#[verifier::external_body]
pub(crate) fn parse_rfc3339(s: &str) -> (r: Option<(i64, u32)>)
    ensures
        r == rfc3339_instant(s@),
{
    match chrono::DateTime::parse_from_rfc3339(s) {
        Ok(t) => {
            let u = t.with_timezone(&chrono::Utc);
            Some((u.timestamp(), u.timestamp_subsec_nanos()))
        },
        Err(_) => None,
    }
}

/// The text that chrono writes for the UTC instant `(secs, nanos)` under the
/// strftime-style format `fmt`, or `None` where chrono has no such instant or
/// reports an error for the format.
pub uninterp spec fn chrono_format(secs: i64, nanos: u32, fmt: Seq<char>) -> Option<Seq<char>>;

/// chrono's `DateTime::from_timestamp` followed by `format(fmt)`, written to a
/// `String`; the result is named, not stated.
#[verifier::external_body]
fn format_utc(secs: i64, nanos: u32, fmt: &str) -> (r: Option<String>)
    ensures
        match r {
            Some(s) => chrono_format(secs, nanos, fmt@) == Some(s@),
            None => chrono_format(secs, nanos, fmt@) is None,
        },
{
    let t = chrono::DateTime::from_timestamp(secs, nanos)?;
    let mut out = String::new();
    match write!(out, "{}", t.format(fmt)) {
        Ok(()) => Some(out),
        Err(_) => None,
    }
}

/// The text of `t` under `fmt`, empty where chrono gives none.
pub open spec fn formatted(t: Instant, fmt: Seq<char>) -> Seq<char> {
    match chrono_format(t.secs, t.nanos, fmt) {
        Some(s) => s,
        None => seq![],
    }
}

/// The text of `t` under the strftime-style format `fmt`.
pub fn format_instant(t: Instant, fmt: &str) -> (r: String)
    ensures
        r@ == formatted(t, fmt@),
{
    match format_utc(t.secs, t.nanos, fmt) {
        Some(s) => s,
        None => String::new(),
    }
}


/// The whole seconds from the UTC instant `(a_secs, a_nanos)` to `(b_secs,
/// b_nanos)` as chrono counts them (`signed_duration_since`, then
/// `num_seconds`), or `None` where chrono has no such instant.
pub uninterp spec fn chrono_seconds_between(a_secs: i64, a_nanos: u32, b_secs: i64, b_nanos: u32) -> Option<i64>;

/// chrono's `DateTime::from_timestamp` for both instants, then
/// `signed_duration_since` and `TimeDelta::num_seconds`; the result is named,
/// not stated.
#[verifier::external_body]
fn seconds_between_utc(a_secs: i64, a_nanos: u32, b_secs: i64, b_nanos: u32) -> (r: Option<i64>)
    ensures
        r == chrono_seconds_between(a_secs, a_nanos, b_secs, b_nanos),
{
    let a = chrono::DateTime::from_timestamp(a_secs, a_nanos)?;
    let b = chrono::DateTime::from_timestamp(b_secs, b_nanos)?;
    Some(b.signed_duration_since(a).num_seconds())
}

/// The whole seconds from `a` to `b`, where chrono has both instants.
pub open spec fn seconds_from(a: Instant, b: Instant) -> Option<i64> {
    chrono_seconds_between(a.secs, a.nanos, b.secs, b.nanos)
}

/// The whole seconds from `a` to `b` (see `seconds_from`).
pub fn seconds_between(a: Instant, b: Instant) -> (r: Option<i64>)
    ensures
        r == seconds_from(a, b),
{
    seconds_between_utc(a.secs, a.nanos, b.secs, b.nanos)
}

} // verus!
