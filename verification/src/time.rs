//! Instants on the UTC time line, held as plain integers: whole seconds
//! since the Unix epoch and the nanoseconds inside that second. RFC 3339
//! parsing and rendering are delegated to `chrono`.

use vstd::prelude::*;

verus! {

/// Earliest second that `chrono` can represent (`-262143-01-01T00:00:00Z`).
pub const MIN_SECS: i64 = -8334601315200;

/// Latest second that `chrono` can represent (`+262142-12-31T23:59:59Z`).
pub const MAX_SECS: i64 = 8210266876799;

/// A UTC instant: `secs` seconds after 1970-01-01T00:00:00Z plus `nanos`
/// nanoseconds. As in `chrono`, `nanos` reaches past one second only
/// inside a leap second, which is the last second of a minute.
#[derive(Debug, Clone, Copy, PartialEq, Eq, Structural)]
pub struct Timestamp {
    pub secs: i64,
    pub nanos: u32,
}

impl Timestamp {
    /// The instant lies in the range that `chrono::DateTime<Utc>` covers.
    pub open spec fn wf(self) -> bool {
        &&& MIN_SECS <= self.secs <= MAX_SECS
        &&& self.nanos < 1_000_000_000 || (self.nanos < 2_000_000_000 && self.secs % 60 == 59)
    }

    /// Strict chronological order.
    pub open spec fn lt(self, other: Timestamp) -> bool {
        self.secs < other.secs || (self.secs == other.secs && self.nanos < other.nanos)
    }

    /// Milliseconds since the epoch, leap time folded into the second
    /// (`DateTime::timestamp_millis`).
    pub open spec fn millis(self) -> int {
        self.secs * 1000 + self.nanos / 1_000_000
    }

    pub fn new(secs: i64, nanos: u32) -> (t: Timestamp)
        ensures
            t.secs == secs,
            t.nanos == nanos,
    {
        Timestamp { secs, nanos }
    }

    pub fn is_before(&self, other: &Timestamp) -> (r: bool)
        ensures
            r == self.lt(*other),
    {
        self.secs < other.secs || (self.secs == other.secs && self.nanos < other.nanos)
    }

    pub fn timestamp_millis(&self) -> (r: i64)
        requires
            self.wf(),
        ensures
            r == self.millis(),
    {
        self.secs * 1000 + (self.nanos / 1_000_000) as i64
    }

    /// The instant `seconds` whole seconds earlier, as `chrono` computes
    /// `DateTime - Duration::seconds(seconds)`; inside a leap second the
    /// result leaves the leap second first.
    pub open spec fn shifted_back(self, seconds: int) -> (int, int) {
        if self.nanos >= 1_000_000_000 && seconds > 0 {
            (self.secs + 1 - seconds, self.nanos - 1_000_000_000)
        } else if self.nanos >= 1_000_000_000 && seconds < 0 {
            (self.secs - seconds, self.nanos - 1_000_000_000)
        } else {
            (self.secs - seconds, self.nanos as int)
        }
    }

    /// `DateTime - Duration::seconds(seconds)` succeeds: the duration is one
    /// that `Duration::seconds` accepts and the result is in range.
    pub open spec fn can_shift_back(self, seconds: int) -> bool {
        &&& -(i64::MAX / 1000) <= seconds <= i64::MAX / 1000
        &&& MIN_SECS <= self.shifted_back(seconds).0 <= MAX_SECS
    }

    pub fn minus_seconds(&self, seconds: i64) -> (r: Timestamp)
        requires
            self.wf(),
            self.can_shift_back(seconds as int),
        ensures
            r.secs == self.shifted_back(seconds as int).0,
            r.nanos == self.shifted_back(seconds as int).1,
            r.wf(),
    {
        if self.nanos >= 1_000_000_000 && seconds > 0 {
            Timestamp { secs: self.secs + 1 - seconds, nanos: self.nanos - 1_000_000_000 }
        } else if self.nanos >= 1_000_000_000 && seconds < 0 {
            Timestamp { secs: self.secs - seconds, nanos: self.nanos - 1_000_000_000 }
        } else {
            let t = Timestamp { secs: self.secs - seconds, nanos: self.nanos };
            proof {
                if self.nanos >= 1_000_000_000 {
                    assert(seconds == 0);
                }
            }
            t
        }
    }
}

impl Timestamp {
    /// Whether the instant lies in `chrono`'s range and `seconds` can be
    /// taken from it there.
    pub fn shift_back_ok(&self, seconds: i64) -> (r: bool)
        ensures
            r == (self.wf() && self.can_shift_back(seconds as int)),
    {
        if self.secs < MIN_SECS || self.secs > MAX_SECS {
            return false;
        }
        // MIN_SECS is a whole number of minutes, so the offset from it has
        // the same position inside the minute.
        let d: i64 = self.secs - MIN_SECS;
        let leap_ok = d % 60 == 59;
        proof {
            vstd::arithmetic::div_mod::lemma_mod_multiples_vanish(138910021920, self.secs as int, 60);
            assert(d as int == 60 * 138910021920 + self.secs);
        }
        if !(self.nanos < 1_000_000_000 || (self.nanos < 2_000_000_000 && leap_ok)) {
            return false;
        }
        if seconds < -(i64::MAX / 1000) || seconds > i64::MAX / 1000 {
            return false;
        }
        let s: i64 = if self.nanos >= 1_000_000_000 && seconds > 0 {
            self.secs + 1 - seconds
        } else {
            self.secs - seconds
        };
        MIN_SECS <= s && s <= MAX_SECS
    }
}

/// What `DateTime::<Utc>::to_rfc3339` renders for the instant.
pub uninterp spec fn rfc3339_text(secs: i64, nanos: u32) -> Seq<char>;

/// `chrono::DateTime::<Utc>::from_timestamp(..).to_rfc3339()`. The
/// contract names the rendered text; the calendar arithmetic behind it is
/// not restated. The instant is in range, so `from_timestamp` succeeds.
#[verifier::external_body]
pub(crate) fn rfc3339_of(t: &Timestamp) -> (r: String)
    requires
        t.wf(),
    ensures
        r@ == rfc3339_text(t.secs, t.nanos),
{
    chrono::DateTime::from_timestamp(t.secs, t.nanos).expect("instant in chrono range").to_rfc3339()
}

/// What `DateTime::parse_from_rfc3339` yields for a text: `None` when the
/// text is no RFC 3339 date-time, else the UTC instant as whole seconds
/// and the nanoseconds inside the second.
pub uninterp spec fn rfc3339_parse(text: Seq<char>) -> Option<(i64, u32)>;

/// `chrono::DateTime::parse_from_rfc3339`, taken in UTC. The contract names
/// the outcome; the grammar of RFC 3339 is not restated. Every value that
/// `chrono` yields is in its representable range.
#[verifier::external_body]
pub(crate) fn parse_rfc3339(text: &str) -> (r: Option<Timestamp>)
    ensures
        match rfc3339_parse(text@) {
            Some((s, n)) => r == Some(Timestamp { secs: s, nanos: n }),
            None => r is None,
        },
        r matches Some(t) ==> t.wf(),
{
    match chrono::DateTime::parse_from_rfc3339(text) {
        Ok(d) => Some(Timestamp { secs: d.timestamp(), nanos: d.timestamp_subsec_nanos() }),
        Err(_) => None,
    }
}

} // verus!
