//! A point on the local clock.
use vstd::prelude::*;

verus! {

/// The time that has passed since the clock's origin, in nanoseconds. The
/// clock does not go backwards.
#[derive(Clone, Copy, Debug, PartialEq, Eq, Structural, PartialOrd, Ord, Hash)]
pub struct Time(pub u64);

impl Time {
    /// The point `rhs` nanoseconds before this one, or the origin.
    pub open spec fn spec_saturating_sub(self, rhs: u64) -> Time {
        if self.0 >= rhs {
            Time((self.0 - rhs) as u64)
        } else {
            Time(0)
        }
    }

    /// The point `rhs` nanoseconds before this one, or the origin when the
    /// clock has not run that long.
    pub fn saturating_sub(self, rhs: u64) -> (r: Self)
        ensures
            r == self.spec_saturating_sub(rhs),
            r.0 == if self.0 >= rhs {
                self.0 - rhs
            } else {
                0
            },
    {
        if self.0 >= rhs {
            Time(self.0 - rhs)
        } else {
            Time(0)
        }
    }

    /// The point `rhs` nanoseconds after this one, or `None` when the
    /// counter cannot hold it.
    pub fn checked_add(self, rhs: u64) -> (r: Option<Self>)
        ensures
            r == if self.0 + rhs <= u64::MAX {
                Some(Time((self.0 + rhs) as u64))
            } else {
                None
            },
    {
        if rhs <= u64::MAX - self.0 {
            Some(Time(self.0 + rhs))
        } else {
            None
        }
    }
}

} // verus!
