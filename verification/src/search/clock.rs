//! Time, and the source that a search measures its budget against.

use std::time::Instant;
use vstd::prelude::*;

verus! {

/// The nanoseconds of the longest time that can be held.
pub const MAX_NANOS: u128 = 18_446_744_073_709_551_615_999_999_999;

/// A length of time, to the nanosecond.
#[derive(Clone, Copy, Debug, PartialEq, Eq, Structural)]
pub struct Duration {
    nanos: u128,
}

impl Duration {
    #[verifier::type_invariant]
    spec fn can_be_held(self) -> bool {
        self.nanos <= MAX_NANOS
    }

    /// The length in nanoseconds.
    pub closed spec fn ns(self) -> int {
        self.nanos as int
    }

    /// No time at all.
    pub fn zero() -> (r: Duration)
        ensures
            r.ns() == 0,
    {
        Duration { nanos: 0 }
    }

    /// So many milliseconds.
    pub closed spec fn of_millis(millis: int) -> Duration {
        Duration { nanos: (millis * 1_000_000) as u128 }
    }

    pub fn from_millis(millis: u64) -> (r: Duration)
        ensures
            r == Duration::of_millis(millis as int),
            r.ns() == millis * 1_000_000,
    {
        Duration { nanos: millis as u128 * 1_000_000 }
    }

    /// As many nanoseconds as can be held.
    pub fn from_nanos(nanos: u128) -> (r: Duration)
        ensures
            r.ns() == (if nanos > MAX_NANOS {
                MAX_NANOS
            } else {
                nanos
            }),
    {
        if nanos > MAX_NANOS {
            Duration { nanos: MAX_NANOS }
        } else {
            Duration { nanos }
        }
    }

    pub fn as_nanos(self) -> (r: u128)
        ensures
            r == self.ns(),
            r <= MAX_NANOS,
    {
        proof {
            use_type_invariant(self);
        }
        self.nanos
    }

    /// Whole milliseconds.
    pub fn as_millis(self) -> (r: u128)
        ensures
            r == self.ns() / 1_000_000,
    {
        self.nanos / 1_000_000
    }

    pub fn is_zero(self) -> (r: bool)
        ensures
            r == (self.ns() == 0),
    {
        self.nanos == 0
    }

    /// Whether `other` has passed when this much time has.
    pub fn reaches(self, other: Duration) -> (r: bool)
        ensures
            r == (self.ns() >= other.ns()),
    {
        self.nanos >= other.nanos
    }

    /// The sum, or the longest time where the sum is longer.
    pub fn saturating_add(self, other: Duration) -> (r: Duration)
        ensures
            r.ns() == sum_of(self.ns(), other.ns()),
    {
        proof {
            use_type_invariant(self);
            use_type_invariant(other);
        }
        Duration::from_nanos(self.nanos + other.nanos)
    }

    /// The difference, or no time where `other` is longer.
    pub fn saturating_sub(self, other: Duration) -> (r: Duration)
        ensures
            r.ns() == less(self.ns(), other.ns()),
    {
        proof {
            use_type_invariant(self);
        }
        if self.nanos < other.nanos {
            Duration { nanos: 0 }
        } else {
            Duration { nanos: self.nanos - other.nanos }
        }
    }

    /// One of `parts` equal parts.
    pub fn part_of(self, parts: u32) -> (r: Duration)
        requires
            parts > 0,
        ensures
            r.ns() == self.ns() / parts as int,
    {
        proof {
            use_type_invariant(self);
            assert(self.nanos / (parts as u128) <= self.nanos) by (nonlinear_arith)
                requires
                    parts > 0,
            ;
        }
        Duration { nanos: self.nanos / parts as u128 }
    }

    /// The shorter of the two.
    pub fn min(self, other: Duration) -> (r: Duration)
        ensures
            r.ns() == (if self.ns() <= other.ns() {
                self.ns()
            } else {
                other.ns()
            }),
    {
        if self.nanos <= other.nanos {
            self
        } else {
            other
        }
    }
}

/// Two times together, as far as they can be held.
pub open spec fn sum_of(a: int, b: int) -> int {
    if a + b > MAX_NANOS {
        MAX_NANOS as int
    } else {
        a + b
    }
}

/// A time with another taken off, as far as there is any.
pub open spec fn less(a: int, b: int) -> int {
    if a < b {
        0
    } else {
        a - b
    }
}

/// No length of time is negative.
pub proof fn law_no_time_is_negative(time: Duration)
    ensures
        time.ns() >= 0,
{
}

/// Two times together are their sum, or the longest time that can be held where
/// that is shorter; and taking one of them off again leaves the other, unless it
/// had to be cut short.
pub proof fn law_times_add_up(a: int, b: int)
    requires
        0 <= a,
        0 <= b,
    ensures
        sum_of(a, b) == sum_of(b, a),
        sum_of(a, b) <= a + b,
        sum_of(a, b) <= 18_446_744_073_709_551_615_999_999_999,
        sum_of(a, b) == a + b || sum_of(a, b) == 18_446_744_073_709_551_615_999_999_999,
        a + b <= 18_446_744_073_709_551_615_999_999_999 ==> less(sum_of(a, b), b) == a,
        less(a, b) >= 0,
        less(a, b) == 0 || less(a, b) + b == a,
        b < a ==> less(a, b) > 0,
{
}

/// So many milliseconds are a million times as many nanoseconds.
pub proof fn law_a_millisecond_is_a_million_nanoseconds(millis: int)
    requires
        0 <= millis <= u64::MAX,
    ensures
        Duration::of_millis(millis).ns() == millis * 1_000_000,
{
}

/// A monotonic time source. `now` is the time since an origin of the source's
/// own choice; it never goes back.
pub trait Clock: Send {
    /// Whether the source may give such a reading. Unless a source says more of
    /// itself, it may give any.
    open spec fn reads(&self, now: Duration) -> bool {
        true
    }

    fn now(&self) -> (r: Duration)
        ensures
            self.reads(r),
    ;
}

/// Whether no reading of the clock comes before `ns` nanoseconds.
pub open spec fn is_past<C: Clock>(clock: C, ns: int) -> bool {
    forall|now: Duration| #[trigger] clock.reads(now) ==> now.ns() >= ns
}

/// Whether every reading of the clock comes before `ns` nanoseconds.
pub open spec fn is_ahead<C: Clock>(clock: C, ns: int) -> bool {
    forall|now: Duration| #[trigger] clock.reads(now) ==> now.ns() < ns
}

#[verifier::external_type_specification]
#[verifier::external_body]
pub struct ExInstant(Instant);

/// `std::time::Instant::now`: the present moment. Nothing holds of it on every
/// run.
#[verifier::external_body]
fn instant_now() -> Instant {
    Instant::now()
}

/// `std::time::Instant::elapsed`: the nanoseconds since a moment. How many they
/// are is up to the machine.
#[verifier::external_body]
fn nanos_since(moment: &Instant) -> u128 {
    moment.elapsed().as_nanos()
}

/// The clock of the machine, counted from when it was made.
#[derive(Clone, Copy, Debug)]
pub struct RealClock(Instant);

impl RealClock {
    pub fn new() -> RealClock {
        RealClock(instant_now())
    }
}

impl Default for RealClock {
    fn default() -> RealClock {
        RealClock::new()
    }
}

impl Clock for RealClock {
    fn now(&self) -> Duration {
        Duration::from_nanos(nanos_since(&self.0))
    }
}

} // verus!
