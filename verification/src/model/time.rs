//! # Times and lengths of time
//!
//! A scan reads two clocks: the wall clock, which says when something was seen,
//! and a monotonic one, which orders replies against each other. Both are read
//! outside this library and arrive as numbers of nanoseconds, so everything that
//! depends on them is a function of what was read.

use vstd::prelude::*;

verus! {

/// A length of time, in nanoseconds.
///
/// Saturating, as every other count in the model is: the lengths are a caller's
/// to supply, and the longest is as long as it gets.
#[derive(Debug, Clone, Copy, PartialEq, Eq, PartialOrd, Ord, Hash, Structural)]
pub struct Duration {
    nanos: u128,
}

/// The nanoseconds of the longest length of time: `u64::MAX` seconds and all but
/// one nanosecond of another.
pub const LONGEST: u128 = 18_446_744_073_709_551_615_999_999_999;

impl Duration {
    /// How many nanoseconds this is.
    pub closed spec fn length(&self) -> int {
        self.nanos as int
    }

    #[verifier::type_invariant]
    spec fn not_beyond(self) -> bool {
        self.nanos <= LONGEST
    }

    /// The length decides.
    pub proof fn lemma_length_decides(a: Duration, b: Duration)
        ensures
            a.length() == b.length() ==> a == b,
    {
    }

    /// No time at all.
    pub fn zero() -> (d: Duration)
        ensures
            d.length() == 0,
    {
        Duration { nanos: 0 }
    }

    /// So many nanoseconds.
    pub fn from_nanos(nanos: u64) -> (d: Duration)
        ensures
            d.length() == nanos,
    {
        Duration { nanos: nanos as u128 }
    }

    /// So many microseconds.
    pub fn from_micros(micros: u64) -> (d: Duration)
        ensures
            d.length() == micros * 1_000,
    {
        Duration { nanos: micros as u128 * 1_000 }
    }

    /// So many milliseconds.
    pub fn from_millis(millis: u64) -> (d: Duration)
        ensures
            d.length() == millis * 1_000_000,
    {
        Duration { nanos: millis as u128 * 1_000_000 }
    }

    /// So many seconds.
    pub fn from_secs(secs: u64) -> (d: Duration)
        ensures
            d.length() == secs * 1_000_000_000,
    {
        Duration { nanos: secs as u128 * 1_000_000_000 }
    }

    /// So many nanoseconds, or the longest length of time where that is longer.
    pub fn of_nanos(nanos: u128) -> (d: Duration)
        ensures
            d.length() == capped(nanos as int),
    {
        if nanos > LONGEST {
            Duration { nanos: LONGEST }
        } else {
            Duration { nanos }
        }
    }

    /// How many nanoseconds this is.
    pub fn as_nanos(&self) -> (nanos: u128)
        ensures
            nanos == self.length(),
            nanos <= LONGEST,
    {
        proof {
            use_type_invariant(self);
        }
        self.nanos
    }

    /// Writes the length as the standard library's `Debug` does, such as `7.5ms`.
    pub fn to_string(&self) -> (written: String)
        ensures
            written@ == duration_text(
                (self.length() / 1_000_000_000) as u64,
                (self.length() % 1_000_000_000) as u32,
            ),
    {
        proof {
            use_type_invariant(self);
        }
        let secs: u64 = (self.nanos / 1_000_000_000) as u64;
        let nanos: u32 = (self.nanos % 1_000_000_000) as u32;
        write_duration(secs, nanos)
    }
}

/// A number of nanoseconds, and no more than the longest length of time.
pub open spec fn capped(nanos: int) -> int {
    if nanos > LONGEST {
        LONGEST as int
    } else {
        nanos
    }
}

/// How the standard library writes a length of time for a reader.
pub uninterp spec fn duration_text(secs: u64, nanos: u32) -> Seq<char>;

/// Formats `std::time::Duration::new(secs, nanos)` with its `Debug`.
///
/// Which digits and which unit that shows is not said here, only that it rests
/// on the length alone.
#[verifier::external_body]
fn write_duration(secs: u64, nanos: u32) -> (written: String)
    requires
        nanos < 1_000_000_000,
    ensures
        written@ == duration_text(secs, nanos),
{
    format!("{:?}", std::time::Duration::new(secs, nanos))
}

/// A reading of the monotonic clock, in nanoseconds from wherever it started.
#[derive(Debug, Clone, Copy, PartialEq, Eq, PartialOrd, Ord, Hash, Structural)]
pub struct Instant {
    /// How far the clock had run.
    pub nanos: u128,
}

/// A reading of the wall clock, in nanoseconds from the Unix epoch, which it may
/// be set before.
#[derive(Debug, Clone, Copy, PartialEq, Eq, PartialOrd, Ord, Hash, Structural)]
pub struct SystemTime {
    /// How long after the epoch, negative before it.
    pub nanos: i128,
}

/// The later of two readings.
pub open spec fn later_of(a: SystemTime, b: SystemTime) -> SystemTime {
    if b.nanos > a.nanos {
        b
    } else {
        a
    }
}

/// The earlier of two readings.
pub open spec fn earlier_of(a: SystemTime, b: SystemTime) -> SystemTime {
    if b.nanos < a.nanos {
        b
    } else {
        a
    }
}

impl SystemTime {
    /// The Unix epoch.
    pub fn unix_epoch() -> (time: SystemTime)
        ensures
            time.nanos == 0,
    {
        SystemTime { nanos: 0 }
    }

    /// The later of two readings.
    pub fn or_later(self, other: SystemTime) -> (time: SystemTime)
        ensures
            time == later_of(self, other),
    {
        if other.nanos > self.nanos {
            other
        } else {
            self
        }
    }

    /// The earlier of two readings.
    pub fn or_earlier(self, other: SystemTime) -> (time: SystemTime)
        ensures
            time == earlier_of(self, other),
    {
        if other.nanos < self.nanos {
            other
        } else {
            self
        }
    }
}

/// Of two readings the later one is no earlier than either and the earlier one no
/// later, and the two are the readings.
pub proof fn lemma_later_and_earlier(a: SystemTime, b: SystemTime)
    ensures
        later_of(a, b).nanos >= a.nanos && later_of(a, b).nanos >= b.nanos,
        earlier_of(a, b).nanos <= a.nanos && earlier_of(a, b).nanos <= b.nanos,
        later_of(a, b) == later_of(b, a),
        earlier_of(a, b) == earlier_of(b, a),
        later_of(a, b).nanos + earlier_of(a, b).nanos == a.nanos + b.nanos,
{
}

/// A length is what it is up to the longest there is: one nanosecond short of two
/// to the sixty-fourth seconds.
pub proof fn lemma_a_length_is_capped_at_the_longest(nanos: int)
    ensures
        nanos < 0x1_0000_0000_0000_0000 * 1_000_000_000 ==> capped(nanos) == nanos,
        nanos >= 0x1_0000_0000_0000_0000 * 1_000_000_000 ==> capped(nanos)
            == 0x1_0000_0000_0000_0000 * 1_000_000_000 - 1,
{
}

} // verus!
