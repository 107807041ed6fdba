//! Lengths of time in whole nanoseconds.

use vstd::prelude::*;

verus! {

/// The longest representable time, in nanoseconds: `u64::MAX` seconds and 999 999 999 nanoseconds.
pub const MAX_NANOS: u128 = 18_446_744_073_709_551_615_999_999_999;

/// A length of time, in nanoseconds, from 0 to [`MAX_NANOS`].
#[derive(Clone, Copy, Debug, PartialEq, Eq, PartialOrd, Ord, Hash, Structural)]
pub struct Duration {
    nanos: u128,
}

impl View for Duration {
    type V = nat;

    /// The number of nanoseconds.
    closed spec fn view(&self) -> nat {
        self.nanos as nat
    }
}

/// Two lengths of time with the same number of nanoseconds are the same.
pub broadcast proof fn lemma_duration_eq(a: Duration, b: Duration)
    ensures
        #![trigger a@, b@]
        a@ == b@ <==> a == b,
{
}

/// The length of time of `n` nanoseconds.
pub closed spec fn of_nanos(n: nat) -> Duration {
    Duration { nanos: n as u128 }
}

/// A length of time is as long as its nanoseconds say.
pub proof fn lemma_of_nanos(n: nat)
    requires
        n <= u128::MAX,
    ensures
        of_nanos(n)@ == n,
{
}

/// The nanoseconds of each length of time in turn.
pub open spec fn nanos_of(s: Seq<Duration>) -> Seq<nat> {
    s.map_values(|d: Duration| d@)
}

impl Duration {
    #[verifier::type_invariant]
    spec fn in_range(self) -> bool {
        self.nanos <= MAX_NANOS
    }

    /// `secs` seconds and `nanos` nanoseconds.
    pub fn new(secs: u64, nanos: u32) -> (r: Duration)
        requires
            nanos < 1_000_000_000,
        ensures
            r@ == secs * 1_000_000_000 + nanos,
    {
        Duration { nanos: secs as u128 * 1_000_000_000 + nanos as u128 }
    }

    /// No time at all.
    pub fn zero() -> (r: Duration)
        ensures
            r@ == 0,
    {
        Duration { nanos: 0 }
    }

    /// The longest representable time.
    pub fn max() -> (r: Duration)
        ensures
            r@ == MAX_NANOS,
    {
        Duration { nanos: MAX_NANOS }
    }

    /// `n` nanoseconds.
    pub fn from_nanos(n: u64) -> (r: Duration)
        ensures
            r@ == n,
    {
        Duration { nanos: n as u128 }
    }

    /// `n` milliseconds.
    pub fn from_millis(n: u64) -> (r: Duration)
        ensures
            r@ == n * 1_000_000,
    {
        Duration { nanos: n as u128 * 1_000_000 }
    }

    /// The whole nanoseconds.
    pub fn as_nanos(&self) -> (r: u128)
        ensures
            r == self@,
            r <= MAX_NANOS,
    {
        proof {
            use_type_invariant(self);
        }
        self.nanos
    }

    /// The whole microseconds.
    pub fn as_micros(&self) -> (r: u128)
        ensures
            r == self@ / 1000,
    {
        self.nanos / 1000
    }

    /// The whole milliseconds.
    pub fn as_millis(&self) -> (r: u128)
        ensures
            r == self@ / 1_000_000,
    {
        self.nanos / 1_000_000
    }

    /// Whether this is no time at all.
    pub fn is_zero(&self) -> (r: bool)
        ensures
            r == (self@ == 0),
    {
        self.nanos == 0
    }
}

} // verus!
