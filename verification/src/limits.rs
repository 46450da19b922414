//! Reduction of improper integrals to integrals over a finite interval.
//!
//! The limits of an integral may be finite or infinite. This module looks
//! only at which of them are infinite, and of which sign, and picks the change
//! of variable that brings the integral onto a finite interval. Applying the
//! substitution to an integrand is the caller's part.

use vstd::prelude::*;
use crate::error::IntegrationError;

verus! {

/// What kind of number a limit of integration is.
#[derive(Clone, Copy, Debug, PartialEq, Eq, Structural)]
pub enum Limit {
    NegInfinity,
    Finite,
    PosInfinity,
}

impl Limit {
    /// `true` for the two infinities.
    pub open spec fn is_infinite(&self) -> bool {
        !(*self is Finite)
    }
}

/// A change of variable from `x` to `t`.
#[derive(Clone, Copy, Debug, PartialEq, Eq, Structural)]
pub enum Substitution {
    /// `x = t`, over the given interval.
    Identity,
    /// `x = c + (1 - t) / t` with `t` in `(0, 1]`, Jacobian `1 / t^2`: the
    /// half-line above the finite limit `c`.
    UpperTail,
    /// `x = c - (1 - t) / t` with `t` in `(0, 1]`, Jacobian `1 / t^2`: the
    /// half-line below the finite limit `c`.
    LowerTail,
    /// `x = t / (1 - t^2)` with `t` in `(-1, 1)`, Jacobian
    /// `(1 + t^2) / (1 - t^2)^2`: the whole real line.
    WholeLine,
}

/// One of the two limits of an integral.
#[derive(Clone, Copy, Debug, PartialEq, Eq, Structural)]
pub enum Endpoint {
    Lower,
    Upper,
}

/// How an integral with given limits is computed.
#[derive(Clone, Copy, Debug, PartialEq, Eq, Structural)]
pub struct LimitPlan {
    /// The change of variable to apply.
    pub substitution: Substitution,
    /// For a tail, the limit that holds the finite end `c` of the half-line.
    /// `Lower` for the other substitutions, which have no such end.
    pub anchor: Endpoint,
    /// Whether the transformed integral has the opposite sign of the one
    /// asked for.
    pub negate: bool,
}

/// The plan for an integral from a limit of kind `a` to one of kind `b`.
///
/// A half-line is always integrated away from its finite end, and the whole
/// line from below to above; when the limits are given the other way round
/// the result changes sign. The same infinity on both sides is refused.
pub open spec fn spec_plan_limits(a: Limit, b: Limit) -> Result<LimitPlan, IntegrationError> {
    match (a, b) {
        (Limit::Finite, Limit::Finite) => Ok(
            LimitPlan { substitution: Substitution::Identity, anchor: Endpoint::Lower, negate: false },
        ),
        (Limit::Finite, Limit::PosInfinity) => Ok(
            LimitPlan {
                substitution: Substitution::UpperTail,
                anchor: Endpoint::Lower,
                negate: false,
            },
        ),
        (Limit::Finite, Limit::NegInfinity) => Ok(
            LimitPlan { substitution: Substitution::LowerTail, anchor: Endpoint::Lower, negate: true },
        ),
        (Limit::NegInfinity, Limit::Finite) => Ok(
            LimitPlan {
                substitution: Substitution::LowerTail,
                anchor: Endpoint::Upper,
                negate: false,
            },
        ),
        (Limit::PosInfinity, Limit::Finite) => Ok(
            LimitPlan { substitution: Substitution::UpperTail, anchor: Endpoint::Upper, negate: true },
        ),
        (Limit::NegInfinity, Limit::PosInfinity) => Ok(
            LimitPlan {
                substitution: Substitution::WholeLine,
                anchor: Endpoint::Lower,
                negate: false,
            },
        ),
        (Limit::PosInfinity, Limit::NegInfinity) => Ok(
            LimitPlan { substitution: Substitution::WholeLine, anchor: Endpoint::Lower, negate: true },
        ),
        (Limit::NegInfinity, Limit::NegInfinity) | (Limit::PosInfinity, Limit::PosInfinity) => Err(
            IntegrationError::InvalidLimits,
        ),
    }
}

/// Picks the substitution for an integral from a limit of kind `a` to one of
/// kind `b`, or refuses equal infinite limits with `InvalidLimits`.
pub fn plan_limits(a: Limit, b: Limit) -> (plan: Result<LimitPlan, IntegrationError>)
    ensures
        plan == spec_plan_limits(a, b),
        plan is Err <==> a.is_infinite() && a == b,
{
    match a {
        Limit::Finite => match b {
            Limit::Finite => Ok(
                LimitPlan {
                    substitution: Substitution::Identity,
                    anchor: Endpoint::Lower,
                    negate: false,
                },
            ),
            Limit::PosInfinity => Ok(
                LimitPlan {
                    substitution: Substitution::UpperTail,
                    anchor: Endpoint::Lower,
                    negate: false,
                },
            ),
            Limit::NegInfinity => Ok(
                LimitPlan {
                    substitution: Substitution::LowerTail,
                    anchor: Endpoint::Lower,
                    negate: true,
                },
            ),
        },
        Limit::NegInfinity => match b {
            Limit::Finite => Ok(
                LimitPlan {
                    substitution: Substitution::LowerTail,
                    anchor: Endpoint::Upper,
                    negate: false,
                },
            ),
            Limit::PosInfinity => Ok(
                LimitPlan {
                    substitution: Substitution::WholeLine,
                    anchor: Endpoint::Lower,
                    negate: false,
                },
            ),
            Limit::NegInfinity => Err(IntegrationError::InvalidLimits),
        },
        Limit::PosInfinity => match b {
            Limit::Finite => Ok(
                LimitPlan {
                    substitution: Substitution::UpperTail,
                    anchor: Endpoint::Upper,
                    negate: true,
                },
            ),
            Limit::NegInfinity => Ok(
                LimitPlan {
                    substitution: Substitution::WholeLine,
                    anchor: Endpoint::Lower,
                    negate: true,
                },
            ),
            Limit::PosInfinity => Err(IntegrationError::InvalidLimits),
        },
    }
}

/// The other limit.
pub open spec fn opposite(end: Endpoint) -> Endpoint {
    match end {
        Endpoint::Lower => Endpoint::Upper,
        Endpoint::Upper => Endpoint::Lower,
    }
}

/// Exchanging the limits of an improper integral keeps the substitution and
/// flips the sign. For a half-line the finite end stays what it was and now
/// stands on the other side.
pub proof fn lemma_improper_is_antisymmetric(a: Limit, b: Limit)
    requires
        a != b,
        a.is_infinite() || b.is_infinite(),
    ensures
        spec_plan_limits(a, b) is Ok,
        spec_plan_limits(b, a) is Ok,
        spec_plan_limits(b, a)->Ok_0.substitution == spec_plan_limits(a, b)->Ok_0.substitution,
        spec_plan_limits(b, a)->Ok_0.negate == !spec_plan_limits(a, b)->Ok_0.negate,
        a.is_infinite() != b.is_infinite() ==> spec_plan_limits(b, a)->Ok_0.anchor == opposite(
            spec_plan_limits(a, b)->Ok_0.anchor,
        ),
{
}

/// With two finite limits the integral is computed as given, in either order:
/// the orientation is carried by the interval itself.
pub proof fn lemma_finite_limits_pass_through(a: Limit, b: Limit)
    requires
        !a.is_infinite(),
        !b.is_infinite(),
    ensures
        spec_plan_limits(a, b) == Ok::<LimitPlan, IntegrationError>(
            LimitPlan { substitution: Substitution::Identity, anchor: Endpoint::Lower, negate: false },
        ),
{
}

} // verus!
