//! Timestamps for the event store.
//!
//! Every recorded event carries an RFC 3339 timestamp. The store renders
//! timestamps as text for its callers but orders and subtracts them through a
//! millisecond instant, kept alongside the text and tied to it by the
//! (uninterpreted) result of chrono's RFC 3339 parser.

use vstd::prelude::*;

verus! {

/// The millisecond instant that chrono's RFC 3339 parser
/// (`DateTime::parse_from_rfc3339` followed by `timestamp_millis`) reads from
/// a string, or `None` when the parser rejects the string.
pub uninterp spec fn rfc_instant(s: Seq<char>) -> Option<int>;

/// Strict bound on every millisecond instant chrono can represent: its
/// datetimes span roughly ±262,000 years around the common era, which is
/// below 9e15 milliseconds away from the Unix epoch.
pub const INSTANT_BOUND: i64 = 9_000_000_000_000_000;

/// One day in milliseconds.
pub const DAY_MS: i64 = 86_400_000;

/// A moment in time: RFC 3339 text plus the millisecond instant it parses to.
pub struct Timestamp {
    text: String,
    millis: i64,
}

impl Timestamp {
    /// The RFC 3339 rendering.
    pub closed spec fn render(self) -> Seq<char> {
        self.text@
    }

    /// Milliseconds since the Unix epoch.
    pub closed spec fn instant(self) -> int {
        self.millis as int
    }

    /// The text and the instant agree, and the instant is in chrono's range.
    pub open spec fn wf(self) -> bool {
        &&& rfc_instant(self.render()) == Some(self.instant())
        &&& -(INSTANT_BOUND as int) < self.instant() < INSTANT_BOUND as int
    }

    pub fn text(&self) -> (r: &String)
        ensures
            r@ == self.render(),
    {
        &self.text
    }

    pub fn unix_millis(&self) -> (r: i64)
        ensures
            r as int == self.instant(),
    {
        self.millis
    }

    pub fn duplicate(&self) -> (r: Timestamp)
        ensures
            r == *self,
    {
        Timestamp { text: self.text.clone(), millis: self.millis }
    }

    /// Relies on `chrono::Utc::now`, `DateTime::to_rfc3339` and
    /// `DateTime::timestamp_millis`: the rendered text parses back, by the
    /// documented RFC 3339 round trip, to the same millisecond instant, and
    /// every chrono datetime lies within `INSTANT_BOUND`.
    #[verifier::external_body]
    fn now_raw() -> (t: Timestamp)
        ensures
            t.wf(),
    {
        let current = chrono::Utc::now();
        Timestamp { text: current.to_rfc3339(), millis: current.timestamp_millis() }
    }

    /// The current moment, from the system clock.
    pub fn now() -> (t: Timestamp)
        ensures
            t.wf(),
    {
        Timestamp::now_raw()
    }

    /// Relies on `chrono::DateTime::parse_from_rfc3339` and
    /// `DateTime::timestamp_millis`: the parser accepts exactly the strings on
    /// which `rfc_instant` is `Some`, yielding that instant, which lies within
    /// `INSTANT_BOUND`.
    #[verifier::external_body]
    fn parse_raw(text: &str) -> (r: Option<Timestamp>)
        ensures
            (r matches Some(t) ==> t.wf() && t.render() == text@),
            r is Some <==> rfc_instant(text@) is Some,
    {
        match chrono::DateTime::parse_from_rfc3339(text) {
            Ok(dt) => Some(Timestamp { text: text.to_string(), millis: dt.timestamp_millis() }),
            Err(_) => None,
        }
    }

    /// Read a timestamp back from its RFC 3339 text.
    pub fn parse(text: &str) -> (r: Option<Timestamp>)
        ensures
            (r matches Some(t) ==> t.wf() && t.render() == text@),
            r is Some <==> rfc_instant(text@) is Some,
    {
        Timestamp::parse_raw(text)
    }

    /// Relies on `chrono::DateTime::from_timestamp_millis` and
    /// `DateTime::to_rfc3339`: construction succeeds on every instant of the
    /// accepted range, whose years all have four digits, so the rendered
    /// text is strict RFC 3339 and parses back, by the documented round
    /// trips, to the same millisecond instant. Instants outside the range
    /// are refused here because chrono renders their years in an expanded
    /// form that its RFC 3339 parser does not read back.
    #[verifier::external_body]
    fn from_unix_millis_raw(millis: i64) -> (r: Option<Timestamp>)
        ensures
            (r matches Some(t) ==> t.wf() && t.instant() == millis as int),
            r is Some <==> 0 <= millis < 100_000_000_000_000,
    {
        if !(0..100_000_000_000_000).contains(&millis) {
            return None;
        }
        match chrono::DateTime::<chrono::Utc>::from_timestamp_millis(millis) {
            Some(dt) => Some(Timestamp { text: dt.to_rfc3339(), millis }),
            None => None,
        }
    }

    /// A timestamp for a given millisecond instant; refused outside
    /// `0 ..= 10^14`, the instants whose RFC 3339 rendering has a four-digit
    /// year.
    pub fn from_unix_millis(millis: i64) -> (r: Option<Timestamp>)
        ensures
            (r matches Some(t) ==> t.wf() && t.instant() == millis as int),
            r is Some <==> 0 <= millis < 100_000_000_000_000,
    {
        Timestamp::from_unix_millis_raw(millis)
    }
}

/// Whole days from `last` to `now`, truncated toward zero, as chrono's
/// `TimeDelta::num_days` computes them.
pub open spec fn days_between(last: int, now: int) -> int {
    if now >= last {
        (now - last) / (DAY_MS as int)
    } else {
        -((last - now) / (DAY_MS as int))
    }
}

/// Compute `days_between` on in-range instants.
pub fn days_between_exec(last: i64, now: i64) -> (d: i64)
    requires
        -(INSTANT_BOUND as int) < last < INSTANT_BOUND as int,
        -(INSTANT_BOUND as int) < now < INSTANT_BOUND as int,
    ensures
        d as int == days_between(last as int, now as int),
{
    if now >= last {
        let diff: u64 = (now - last) as u64;
        (diff / (DAY_MS as u64)) as i64
    } else {
        let diff: u64 = (last - now) as u64;
        -((diff / (DAY_MS as u64)) as i64)
    }
}

} // verus!
