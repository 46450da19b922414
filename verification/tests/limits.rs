use scientific::error::IntegrationError;
use scientific::limits::{plan_limits, Endpoint, Limit, LimitPlan, Substitution};

fn plan(substitution: Substitution, anchor: Endpoint, negate: bool) -> LimitPlan {
    LimitPlan { substitution, anchor, negate }
}

#[test]
fn finite_limits_pass_through() {
    assert_eq!(
        plan_limits(Limit::Finite, Limit::Finite),
        Ok(plan(Substitution::Identity, Endpoint::Lower, false))
    );
}

#[test]
fn upper_limit_infinite() {
    assert_eq!(
        plan_limits(Limit::Finite, Limit::PosInfinity),
        Ok(plan(Substitution::UpperTail, Endpoint::Lower, false))
    );
    assert_eq!(
        plan_limits(Limit::Finite, Limit::NegInfinity),
        Ok(plan(Substitution::LowerTail, Endpoint::Lower, true))
    );
}

#[test]
fn lower_limit_infinite() {
    assert_eq!(
        plan_limits(Limit::NegInfinity, Limit::Finite),
        Ok(plan(Substitution::LowerTail, Endpoint::Upper, false))
    );
    assert_eq!(
        plan_limits(Limit::PosInfinity, Limit::Finite),
        Ok(plan(Substitution::UpperTail, Endpoint::Upper, true))
    );
}

#[test]
fn both_limits_infinite() {
    assert_eq!(
        plan_limits(Limit::NegInfinity, Limit::PosInfinity),
        Ok(plan(Substitution::WholeLine, Endpoint::Lower, false))
    );
    assert_eq!(
        plan_limits(Limit::PosInfinity, Limit::NegInfinity),
        Ok(plan(Substitution::WholeLine, Endpoint::Lower, true))
    );
}

#[test]
fn equal_infinite_limits_are_refused() {
    assert_eq!(
        plan_limits(Limit::PosInfinity, Limit::PosInfinity),
        Err(IntegrationError::InvalidLimits)
    );
    assert_eq!(
        plan_limits(Limit::NegInfinity, Limit::NegInfinity),
        Err(IntegrationError::InvalidLimits)
    );
}

#[test]
fn exchanging_the_limits_of_an_improper_integral_flips_the_sign() {
    let kinds = [Limit::NegInfinity, Limit::Finite, Limit::PosInfinity];
    for a in kinds {
        for b in kinds {
            let a_infinite = a != Limit::Finite;
            let b_infinite = b != Limit::Finite;
            if a != b && (a_infinite || b_infinite) {
                let forward = plan_limits(a, b).unwrap();
                let backward = plan_limits(b, a).unwrap();
                assert_eq!(forward.substitution, backward.substitution);
                assert_ne!(forward.negate, backward.negate);
                if a_infinite != b_infinite {
                    assert_ne!(forward.anchor, backward.anchor);
                }
            }
        }
    }
}
