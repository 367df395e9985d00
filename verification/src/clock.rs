//! Points in time on a clock that never runs backwards.

use vstd::prelude::*;

verus! {

/// The number of nanoseconds in a second.
pub const NANOS_PER_SECOND: u128 = 1_000_000_000;

/// A reading of a monotonic clock: the nanoseconds that have passed since an
/// origin which the caller fixes once, such as the start of its loop.
#[derive(Clone, Copy, Debug, PartialEq, Eq)]
pub struct Moment {
    /// The nanoseconds since the origin.
    pub nanos: u128,
}

impl Moment {
    /// The whole seconds that passed from `earlier` to `self`; zero where
    /// `earlier` is in fact the later of the two.
    pub open spec fn seconds_since(self, earlier: Moment) -> nat {
        if self.nanos >= earlier.nanos {
            ((self.nanos - earlier.nanos) / NANOS_PER_SECOND as int) as nat
        } else {
            0
        }
    }

    /// The reading `nanos` nanoseconds after the origin.
    pub fn from_nanos(nanos: u128) -> (moment: Moment)
        ensures
            moment.nanos == nanos,
    {
        Moment { nanos }
    }

    /// Computes the whole seconds that passed from `earlier` to `self`.
    pub fn whole_seconds_since(&self, earlier: &Moment) -> (secs: u128)
        ensures
            secs == self.seconds_since(*earlier),
    {
        if self.nanos >= earlier.nanos {
            (self.nanos - earlier.nanos) / NANOS_PER_SECOND
        } else {
            0
        }
    }
}

} // verus!
