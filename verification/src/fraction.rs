//! Exact points of the half-open unit interval.

use vstd::prelude::*;

verus! {

/// A rational number `numerator / denominator` in `[0, 1)`.
///
/// Both the uniform sampler and the low-discrepancy construction produce
/// their coordinates in this form, so no rounding happens before the caller
/// maps a coordinate into its own interval.
#[derive(Clone, Copy, Debug, PartialEq, Eq, Structural)]
pub struct UnitFraction {
    pub numerator: u64,
    pub denominator: u64,
}

impl UnitFraction {
    /// The fraction lies in `[0, 1)`: a positive denominator and a strictly
    /// smaller numerator.
    pub open spec fn wf(&self) -> bool {
        self.numerator < self.denominator
    }

    /// Builds `numerator / denominator`.
    pub fn new(numerator: u64, denominator: u64) -> (r: UnitFraction)
        requires
            numerator < denominator,
        ensures
            r.wf(),
            r.numerator == numerator,
            r.denominator == denominator,
    {
        UnitFraction { numerator, denominator }
    }

    /// `true` when the fraction is strictly above one half.
    pub open spec fn spec_above_half(&self) -> bool {
        2 * self.numerator > self.denominator
    }

    /// Decides on which side of the midpoint the fraction lies.
    pub fn above_half(&self) -> (r: bool)
        ensures
            r == self.spec_above_half(),
    {
        self.numerator > self.denominator / 2
    }
}

} // verus!
