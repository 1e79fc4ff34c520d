//! Instants in UTC, and reading them from stored text.

use vstd::prelude::*;

verus! {

/// A UTC instant: whole seconds since the Unix epoch and the nanoseconds
/// past that second (past 10^9 only inside a leap second).
#[derive(Clone, Copy, Debug, PartialEq, Eq, Structural)]
pub struct Instant {
    pub secs: i64,
    pub nanos: u32,
}

impl Instant {
    /// `self` comes strictly before `other` on the time line.
    pub open spec fn before(self, other: Instant) -> bool {
        self.secs < other.secs || (self.secs == other.secs && self.nanos < other.nanos)
    }

    pub fn new(secs: i64, nanos: u32) -> (r: Instant)
        ensures
            r == (Instant { secs, nanos }),
    {
        Instant { secs, nanos }
    }

    pub fn is_before(&self, other: &Instant) -> (r: bool)
        ensures
            r == self.before(*other),
    {
        self.secs < other.secs || (self.secs == other.secs && self.nanos < other.nanos)
    }
}

/// The instant that chrono reads from `s` as a UTC date-time (seconds since
/// the epoch and sub-second nanoseconds), or `None` where it rejects `s`.
pub uninterp spec fn parsed_utc(s: Seq<char>) -> Option<(i64, u32)>;

/// The instant that `parsed_utc` gives, as an `Instant`.
pub open spec fn parsed_instant(s: Seq<char>) -> Option<Instant> {
    match parsed_utc(s) {
        Some(p) => Some(Instant { secs: p.0, nanos: p.1 }),
        None => None,
    }
}

/// Relies on chrono's `FromStr for DateTime<Utc>` (relaxed RFC 3339, any
/// offset converted to UTC), then `timestamp` and `timestamp_subsec_nanos`:
/// the result depends on the text alone.
#[verifier::external_body]
pub(crate) fn parse_utc(s: &str) -> (r: Option<Instant>)
    ensures
        r is Some <==> parsed_utc(s@) is Some,
        r is Some ==> parsed_utc(s@) == Some((r->0.secs, r->0.nanos)),
{
    match s.parse::<chrono::DateTime<chrono::Utc>>() {
        Ok(t) => Some(Instant { secs: t.timestamp(), nanos: t.timestamp_subsec_nanos() }),
        Err(_) => None,
    }
}

} // verus!
