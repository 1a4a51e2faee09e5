//! Logical clocks that order renders and reclamations.
use vstd::prelude::*;

verus! {

/// A moment of a logical clock. Moments of a running clock are nonnegative;
/// a negative moment is a placeholder for storage that holds none.
#[derive(Clone, Copy, PartialEq, Eq, Structural, PartialOrd, Ord, Debug, Default)]
pub struct MomentInner(pub i32);

/// A moment of the clock that counts frames.
pub type RenderMoment = MomentInner;

/// A moment of the clock that counts reclamation epochs.
pub type ReclaimMoment = MomentInner;

impl MomentInner {
    /// The first moment.
    pub fn min_moment() -> (r: Self)
        ensures
            r.0 == 0,
    {
        MomentInner(0)
    }

    /// The moment with the given count, which must be nonnegative.
    pub fn new(value: i32) -> (r: Self)
        requires
            value >= 0,
        ensures
            r.0 == value,
    {
        MomentInner(value)
    }

    /// A recognizable placeholder for storage that holds no moment.
    pub fn uninit() -> (r: Self)
        ensures
            r.0 == -987123,
    {
        MomentInner(-987123)
    }

    /// The moment `rhs` ticks later; it must be a valid, representable moment.
    pub fn add(self, rhs: i32) -> (r: Self)
        requires
            0 <= self.0 + rhs <= i32::MAX,
        ensures
            r.0 == self.0 + rhs,
    {
        Self::new(self.0 + rhs)
    }

    /// Moves the moment `rhs` ticks later; it must stay a valid, representable moment.
    pub fn add_assign(&mut self, rhs: i32)
        requires
            0 <= old(self).0 + rhs <= i32::MAX,
        ensures
            final(self).0 == old(self).0 + rhs,
    {
        *self = Self::new(self.0 + rhs);
    }

    /// The moment `rhs` ticks earlier; it must be a valid, representable moment.
    pub fn sub(self, rhs: i32) -> (r: Self)
        requires
            0 <= self.0 - rhs <= i32::MAX,
        ensures
            r.0 == self.0 - rhs,
    {
        Self::new(self.0 - rhs)
    }
}

} // verus!
