//! The conditions under which an integration request is refused.

use vstd::prelude::*;

verus! {

/// Why a request could not be carried out.
///
/// Statistical error estimates are never reported through this type: they are
/// returned next to the value they belong to. Only a request that cannot be
/// served at all ends in one of these.
#[derive(Clone, Copy, Debug, PartialEq, Eq, Structural)]
pub enum IntegrationError {
    /// A Monte Carlo method was asked to use zero samples.
    NoSamples,
    /// Both limits of an integral are the same infinity.
    InvalidLimits,
    /// More dimensions were requested than the method can serve.
    TooManyDimensions,
    /// A point index of a low-discrepancy sequence does not fit in 32 bits.
    IndexOutOfRange,
    /// The stratification options cannot be used: the estimate divisor is zero.
    InvalidOptions,
    /// The estimation phase of a stratum cannot put a sample on both sides of
    /// every axis.
    InsufficientSamples,
    /// Adaptive quadrature reached its depth limit with the tolerance unmet.
    ToleranceNotAchievable,
}

} // verus!
