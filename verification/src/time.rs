//! Instants in UTC, counted in milliseconds since the Unix epoch.

use vstd::prelude::*;

verus! {

/// 0000-01-01T00:00:00.000Z, the earliest instant a [`Timestamp`] holds.
pub const MIN_MILLIS: i64 = -62_167_219_200_000;

/// 9999-12-31T23:59:59.999Z, the latest instant a [`Timestamp`] holds.
pub const MAX_MILLIS: i64 = 253_402_300_799_999;

/// Name for the text that `chrono::DateTime::<Utc>::to_rfc3339` writes for the
/// instant `millis` milliseconds after the Unix epoch.
pub uninterp spec fn rfc3339_text(millis: int) -> Seq<char>;

/// Name for the instant, in milliseconds since the Unix epoch and rounded
/// down to a whole millisecond, that `str::parse::<DateTime<Utc>>` reads from
/// `text`; `None` where it rejects the text.
pub uninterp spec fn rfc3339_instant(text: Seq<char>) -> Option<int>;

/// An instant between the years 0000 and 9999, the span that RFC 3339 can
/// write, with millisecond precision.
#[derive(Clone, Copy, Debug, PartialEq, Eq, Structural)]
pub struct Timestamp {
    millis: i64,
}

impl View for Timestamp {
    type V = int;

    /// Milliseconds since the Unix epoch.
    closed spec fn view(&self) -> int {
        self.millis as int
    }
}

/// Reads the system clock through `std::time::SystemTime::elapsed` on the
/// Unix epoch and returns the time passed since then in milliseconds;
/// `None` where the clock stands before the epoch or the count does not fit.
/// Nothing is claimed of the value.
#[verifier::external_body]
fn system_clock_millis() -> Option<i64> {
    let elapsed = std::time::UNIX_EPOCH.elapsed().ok()?;
    i64::try_from(elapsed.as_millis()).ok()
}

/// Calls `chrono::DateTime::from_timestamp_millis` and then `to_rfc3339` on
/// the result. Within the bounds required `from_timestamp_millis` has a
/// value, so the empty text that stands in for none never comes out.
///
/// The contract gives the text its name and claims one fact of it: the
/// parser of the same library reads the instant back from it. For the years
/// 0000 to 9999 `to_rfc3339` writes four digits of year, month, day, `T`,
/// the time with the milliseconds where there are any, and `+00:00`; the
/// parser takes just these fields in this order.
#[verifier::external_body]
fn format_rfc3339(millis: i64) -> (text: String)
    requires
        MIN_MILLIS <= millis <= MAX_MILLIS,
    ensures
        text@ == rfc3339_text(millis as int),
        rfc3339_instant(text@) == Some(millis as int),
{
    chrono::DateTime::from_timestamp_millis(millis).map(|t| t.to_rfc3339()).unwrap_or_default()
}

/// Calls `str::parse::<chrono::DateTime<chrono::Utc>>` and returns
/// `timestamp_millis` of what it read. The contract only gives the outcome
/// its name.
#[verifier::external_body]
fn parse_rfc3339_millis(text: &str) -> (millis: Option<i64>)
    ensures
        match millis {
            Some(m) => rfc3339_instant(text@) == Some(m as int),
            None => rfc3339_instant(text@).is_none(),
        },
{
    text.parse::<chrono::DateTime<chrono::Utc>>().ok().map(|t| t.timestamp_millis())
}

impl Timestamp {
    /// Every `Timestamp` lies between [`MIN_MILLIS`] and [`MAX_MILLIS`].
    #[verifier::type_invariant]
    pub open spec fn in_range(self) -> bool {
        MIN_MILLIS <= self@ <= MAX_MILLIS
    }

    /// The instant `millis` milliseconds after the Unix epoch, if it lies in
    /// the span that a `Timestamp` holds.
    pub fn from_millis(millis: i64) -> (r: Option<Timestamp>)
        ensures
            r.is_some() <==> MIN_MILLIS <= millis <= MAX_MILLIS,
            r matches Some(t) ==> t@ == millis,
    {
        if MIN_MILLIS <= millis && millis <= MAX_MILLIS {
            Some(Timestamp { millis })
        } else {
            None
        }
    }

    /// Milliseconds since the Unix epoch.
    pub fn millis(self) -> (m: i64)
        ensures
            m == self@,
            MIN_MILLIS <= m <= MAX_MILLIS,
    {
        proof {
            use_type_invariant(self);
        }
        self.millis
    }

    /// The current time, or `None` if the system clock stands outside the
    /// span that a `Timestamp` holds.
    ///
    /// The result is what [`Timestamp::from_millis`] makes of the reading of
    /// the clock. Which reading that is cannot be said beforehand, so the
    /// contract says what holds of every reading: an instant that comes
    /// back lies within the span.
    pub fn now() -> (r: Option<Timestamp>)
        ensures
            r matches Some(t) ==> MIN_MILLIS <= t@ <= MAX_MILLIS,
    {
        match system_clock_millis() {
            Some(millis) => Timestamp::from_millis(millis),
            None => None,
        }
    }

    /// This instant moved `delta` milliseconds into the future, or `None` if
    /// that lies beyond [`MAX_MILLIS`].
    pub fn checked_add_millis(self, delta: u64) -> (r: Option<Timestamp>)
        ensures
            r.is_some() <==> self@ + delta <= MAX_MILLIS,
            r matches Some(t) ==> t@ == self@ + delta,
    {
        proof {
            use_type_invariant(self);
        }
        let room: i64 = MAX_MILLIS - self.millis;
        if delta <= room as u64 {
            Some(Timestamp { millis: self.millis + delta as i64 })
        } else {
            None
        }
    }

    /// Milliseconds from `earlier` to this instant; negative if `earlier` is
    /// the later of the two.
    pub fn millis_since(self, earlier: Timestamp) -> (d: i64)
        ensures
            d == self@ - earlier@,
            MIN_MILLIS - MAX_MILLIS <= d <= MAX_MILLIS - MIN_MILLIS,
    {
        proof {
            use_type_invariant(self);
            use_type_invariant(earlier);
        }
        self.millis - earlier.millis
    }

    /// Whether this instant is strictly before `other`.
    pub fn is_before(self, other: Timestamp) -> (r: bool)
        ensures
            r == (self@ < other@),
    {
        self.millis < other.millis
    }

    /// This instant in RFC 3339 notation. [`Timestamp::parse_rfc3339`]
    /// reads the instant back from the text.
    pub fn to_rfc3339(self) -> (text: String)
        ensures
            text@ == rfc3339_text(self@),
            rfc3339_instant(text@) == Some(self@),
            MIN_MILLIS <= self@ <= MAX_MILLIS,
    {
        proof {
            use_type_invariant(self);
        }
        format_rfc3339(self.millis)
    }

    /// The instant that RFC 3339 `text` denotes, rounded down to a whole
    /// millisecond; `None` if the text is rejected or denotes an instant
    /// outside the span that a `Timestamp` holds.
    pub fn parse_rfc3339(text: &str) -> (r: Option<Timestamp>)
        ensures
            r.is_some() <==> (rfc3339_instant(text@) matches Some(m) && MIN_MILLIS <= m
                <= MAX_MILLIS),
            r matches Some(t) ==> rfc3339_instant(text@) == Some(t@),
    {
        match parse_rfc3339_millis(text) {
            Some(m) => Timestamp::from_millis(m),
            None => None,
        }
    }
}

} // verus!
