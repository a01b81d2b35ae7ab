//! The simplification tolerance.
//!
//! The tolerance is a non-negative rational `num / den` in the same linear
//! units as the point coordinates. Keeping it as a ratio of integers lets
//! every threshold test of the simplifier be decided exactly: a perpendicular
//! distance |c| / sqrt(l) exceeds num / den exactly when
//! c^2 * den^2 > num^2 * l.

use vstd::prelude::*;

verus! {

/// A non-negative rational tolerance, `num / den`.
#[derive(Clone, Copy, PartialEq, Eq, Structural, Debug)]
pub struct Tolerance {
    pub num: u32,
    pub den: u32,
}

impl Tolerance {
    /// A tolerance is well-formed when its denominator is positive.
    pub open spec fn wf(self) -> bool {
        self.den >= 1
    }

    /// `self <= other` as rationals: num1/den1 <= num2/den2.
    pub open spec fn le(self, other: Tolerance) -> bool {
        self.num * other.den <= other.num * self.den
    }

    /// Build the tolerance `num / den`.
    pub fn new(num: u32, den: u32) -> (r: Tolerance)
        requires
            den >= 1,
        ensures
            r.wf(),
            r.num == num,
            r.den == den,
    {
        Tolerance { num, den }
    }

    /// Build a whole-number tolerance.
    pub fn from_int(num: u32) -> (r: Tolerance)
        ensures
            r.wf(),
            r.num == num,
            r.den == 1,
    {
        Tolerance { num, den: 1 }
    }
}

} // verus!
