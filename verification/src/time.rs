//! Points in time.

use vstd::prelude::*;
use crate::text;

verus! {

/// A point in time, in UTC: seconds since 1970 and nanoseconds. During a leap
/// second the nanoseconds run on past one billion.
#[derive(Clone, Copy, Debug, PartialEq, Eq, Structural)]
pub struct Timestamp {
    pub secs: i64,
    pub nanos: u32,
}

impl Timestamp {
    /// Whether this point in time lies after another.
    pub open spec fn later_than(self, other: Timestamp) -> bool {
        self.secs > other.secs || (self.secs == other.secs && self.nanos > other.nanos)
    }

    /// Whether this point in time lies after another.
    pub fn is_after(&self, other: &Timestamp) -> (r: bool)
        ensures
            r == self.later_than(*other),
    {
        self.secs > other.secs || (self.secs == other.secs && self.nanos > other.nanos)
    }

    /// Whether the point in time lies in the years 0 to 9999, outside leap seconds.
    pub open spec fn is_ordinary(self) -> bool {
        -62167219200 <= self.secs <= 253402300799 && self.nanos < 1_000_000_000
    }

    /// The current time: outside leap seconds and in the range of the calendar, so that
    /// it has an RFC 3339 text. Which time it is rests on the clock.
    pub fn now() -> (t: Timestamp)
        ensures
            t.nanos < 1_000_000_000,
            rfc3339_text(t.secs, t.nanos) is Some,
    {
        let t = utc_now();
        Timestamp { secs: t.0, nanos: t.1 }
    }

    /// The RFC 3339 text of this time, if it lies in the range of the calendar.
    pub fn to_rfc3339(&self) -> (r: Option<String>)
        ensures
            text::opt_view(r) == rfc3339_text(self.secs, self.nanos),
            self.is_ordinary() ==> r is Some && rfc3339_time(r->0@) == Some((self.secs, self.nanos)),
    {
        format_rfc3339(self.secs, self.nanos)
    }

    /// The time that an RFC 3339 text stands for.
    pub fn from_rfc3339(s: &str) -> (r: Option<Timestamp>)
        ensures
            r == timestamp_of(rfc3339_time(s@)),
    {
        match parse_rfc3339(s) {
            Some(t) => Some(Timestamp { secs: t.0, nanos: t.1 }),
            None => None,
        }
    }
}

/// Seconds and nanoseconds, as a point in time.
pub open spec fn timestamp_of(parts: Option<(i64, u32)>) -> Option<Timestamp> {
    match parts {
        Some(t) => Some(Timestamp { secs: t.0, nanos: t.1 }),
        None => None,
    }
}

/// `chrono::Utc::now` reads the clock, which knows no leap seconds: the nanoseconds
/// stay below one billion. `chrono::DateTime::from_timestamp` knows the time, since it
/// takes back the seconds and nanoseconds of every `DateTime`, and so the time has a
/// text. Which time it is, and that times do not go back, is left unsaid: it rests on
/// the clock.
#[verifier::external_body]
fn utc_now() -> (t: (i64, u32))
    ensures
        t.1 < 1_000_000_000,
        rfc3339_text(t.0, t.1) is Some,
{
    let now = chrono::Utc::now();
    (now.timestamp(), now.timestamp_subsec_nanos())
}

/// What `chrono::DateTime::to_rfc3339` makes of a time in UTC, given by seconds and
/// nanoseconds; nothing if `chrono::DateTime::from_timestamp` knows no such time.
pub uninterp spec fn rfc3339_text(secs: i64, nanos: u32) -> Option<Seq<char>>;

/// The time in UTC that `chrono::DateTime::parse_from_rfc3339` reads from a text.
pub uninterp spec fn rfc3339_time(s: Seq<char>) -> Option<(i64, u32)>;

/// `chrono::DateTime::to_rfc3339` on the time in UTC of some seconds and
/// nanoseconds. From the year 0 to 9999 and outside leap seconds there is such a
/// time, its text has as many digits of the second as it needs, and
/// `parse_from_rfc3339` reads it back.
#[verifier::external_body]
fn format_rfc3339(secs: i64, nanos: u32) -> (r: Option<String>)
    ensures
        text::opt_view(r) == rfc3339_text(secs, nanos),
        (Timestamp { secs, nanos }).is_ordinary() ==> r is Some && rfc3339_time(r->0@) == Some(
            (secs, nanos),
        ),
{
    chrono::DateTime::<chrono::Utc>::from_timestamp(secs, nanos).map(|t| t.to_rfc3339())
}

/// `chrono::DateTime::parse_from_rfc3339`, with the time brought to UTC.
#[verifier::external_body]
fn parse_rfc3339(s: &str) -> (r: Option<(i64, u32)>)
    ensures
        r == rfc3339_time(s@),
{
    match chrono::DateTime::parse_from_rfc3339(s) {
        Ok(t) => Some((t.timestamp(), t.timestamp_subsec_nanos())),
        Err(_) => None,
    }
}

// -- Laws -------------------------------------------------------------------

/// Of two different points in time exactly one lies after the other, and what lies after
/// a later one lies after the earlier one too.
pub proof fn points_in_time_are_ordered(a: Timestamp, b: Timestamp, c: Timestamp)
    ensures
        a == b || a.later_than(b) || b.later_than(a),
        !(a.later_than(b) && b.later_than(a)),
        !a.later_than(a),
        a.later_than(b) && b.later_than(c) ==> a.later_than(c),
        a.secs > b.secs ==> a.later_than(b),
        a.secs == b.secs && a.nanos > b.nanos ==> a.later_than(b),
{
}

} // verus!
