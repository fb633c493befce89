//! Expiration instants for rumors. An instant is held as nanoseconds since
//! the Unix epoch in UTC; the textual form on the wire is RFC 3339. Rumors
//! that should never age out on their own get an expiration roughly one
//! hundred years ahead; rumors that are done get one a short, configurable
//! window ahead.

use vstd::prelude::*;

verus! {

use crate::error::RumorError;

/// The "forever" window: 5200 weeks of nanoseconds, about one hundred years.
pub const FOREVER_WINDOW_NANOS: i64 = 3_144_960_000_000_000_000;

/// The default "soon" window: one hour of seconds.
pub const DEFAULT_EXPIRATION_SECS: u64 = 3600;

/// The RFC 3339 rendering chrono gives an instant, as a character sequence.
pub uninterp spec fn rfc3339_of(nanos: i64) -> Seq<char>;

/// The instant chrono reads back from an RFC 3339 string, when the string is
/// valid and the instant is representable in nanoseconds.
pub uninterp spec fn rfc3339_parse(s: Seq<char>) -> Option<i64>;

/// Relies on chrono's `Utc::now`: the wall clock, about which nothing can be
/// promised.
#[verifier::external_body]
pub(crate) fn now_nanos() -> i64 {
    chrono::Utc::now().timestamp_nanos_opt().unwrap_or(0)
}

/// Relies on chrono's `DateTime::from_timestamp_nanos` (total on `i64`) and
/// `DateTime::to_rfc3339`: the rendering depends on the instant alone, and
/// `DateTime::parse_from_rfc3339` reads the same instant back from it.
#[verifier::external_body]
pub(crate) fn format_rfc3339(nanos: i64) -> (r: String)
    ensures
        r@ == rfc3339_of(nanos),
        rfc3339_parse(r@) == Some(nanos),
{
    chrono::DateTime::from_timestamp_nanos(nanos).to_rfc3339()
}

/// Relies on chrono's `DateTime::parse_from_rfc3339` and
/// `DateTime::timestamp_nanos_opt`: the outcome depends on the characters
/// alone.
#[verifier::external_body]
pub(crate) fn parse_rfc3339(s: &str) -> (r: Option<i64>)
    ensures
        r == rfc3339_parse(s@),
{
    match chrono::DateTime::parse_from_rfc3339(s) {
        Ok(dt) => dt.timestamp_nanos_opt(),
        Err(_) => None,
    }
}

/// Addition on instants that pins to the latest representable instant
/// instead of wrapping.
pub open spec fn sat_add_nanos(a: i64, b: i64) -> i64
    recommends
        b >= 0,
{
    if a + b > i64::MAX {
        i64::MAX
    } else {
        (a + b) as i64
    }
}

/// A window in whole seconds, as saturating nanoseconds.
pub open spec fn window_nanos(secs: u64) -> i64 {
    if secs * 1_000_000_000 > i64::MAX {
        i64::MAX
    } else {
        (secs * 1_000_000_000) as i64
    }
}

/// The instant a rumor stops being worth gossiping about.
#[derive(Clone, Copy, Debug, PartialEq, Eq, Structural)]
pub struct Expiration {
    pub at_nanos: i64,
}

impl Expiration {
    /// An expiration at the given instant.
    pub fn new(at_nanos: i64) -> (r: Self)
        ensures
            r.at_nanos == at_nanos,
    {
        Expiration { at_nanos }
    }

    /// An expiration the "forever" window after `now`.
    pub fn forever_from(now: i64) -> (r: Self)
        ensures
            r.at_nanos == sat_add_nanos(now, FOREVER_WINDOW_NANOS),
    {
        let at: i64 = match now.checked_add(FOREVER_WINDOW_NANOS) {
            Some(v) => v,
            None => i64::MAX,
        };
        Expiration { at_nanos: at }
    }

    /// An expiration that in practice never arrives: the "forever" window
    /// after the current wall clock.
    pub fn forever() -> Self {
        Self::forever_from(now_nanos())
    }

    /// An expiration `window_secs` after `now`.
    pub fn soon_from(now: i64, window_secs: u64) -> (r: Self)
        ensures
            r.at_nanos == sat_add_nanos(now, window_nanos(window_secs)),
    {
        let w: i64 = match window_secs.checked_mul(1_000_000_000) {
            Some(n) => {
                if n > i64::MAX as u64 {
                    i64::MAX
                } else {
                    n as i64
                }
            },
            None => i64::MAX,
        };
        let at: i64 = match now.checked_add(w) {
            Some(v) => v,
            None => i64::MAX,
        };
        Expiration { at_nanos: at }
    }

    /// An expiration `window_secs` after the current wall clock.
    pub fn soon(window_secs: u64) -> Self {
        Self::soon_from(now_nanos(), window_secs)
    }

    /// Moves this expiration to the given instant; used when a trigger event
    /// (a lost quorum, a re-election) retires a rumor that would otherwise
    /// live forever.
    pub fn expire(&mut self, at_nanos: i64)
        ensures
            final(self).at_nanos == at_nanos,
    {
        self.at_nanos = at_nanos;
    }

    /// Whether this expiration has passed at `now`.
    pub fn expired(&self, now: i64) -> (r: bool)
        ensures
            r == (now > self.at_nanos),
    {
        now > self.at_nanos
    }

    /// The RFC 3339 text of this expiration, for the wire and projections.
    pub fn for_proto(&self) -> (r: String)
        ensures
            r@ == rfc3339_of(self.at_nanos),
            rfc3339_parse(r@) == Some(self.at_nanos),
    {
        format_rfc3339(self.at_nanos)
    }

    /// Reads an expiration off the wire: an absent string means forever, a
    /// present string must be valid RFC 3339.
    pub fn from_proto(expiration: Option<&str>) -> (r: Result<Self, RumorError>)
        ensures
            expiration matches Some(s) ==> match rfc3339_parse(s@) {
                Some(n) => r matches Ok(e) && e.at_nanos == n,
                None => r matches Err(e) && e matches RumorError::ProtocolMismatch { field }
                    && field@ == "expiration"@,
            },
            expiration is None ==> r is Ok,
    {
        match expiration {
            None => Ok(Self::forever()),
            Some(s) => {
                match parse_rfc3339(s) {
                    Some(n) => Ok(Expiration { at_nanos: n }),
                    None => Err(
                        RumorError::ProtocolMismatch { field: "expiration".to_owned() },
                    ),
                }
            },
        }
    }
}

} // verus!
