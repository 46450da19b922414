//! Budget decisions of recursive stratified sampling.
//!
//! A stratum is an axis-aligned box with a budget of integrand evaluations.
//! Small budgets are spent on plain sampling. Larger ones pay for an
//! estimation phase, after which the box is bisected along one axis and the
//! rest of the budget is shared between the halves. This module decides how a
//! budget is spent, counts on which side of each axis the estimation samples
//! fall, and refuses a bisection that would leave a side without a sample.
//! The sums, variances and the choice of axis belong to the caller.

use vstd::prelude::*;
use crate::error::IntegrationError;
use crate::fraction::UnitFraction;
use crate::rand::{advance_by, lemma_advance_adds, Rng};
use crate::sampling::{is_drawn_from, unit_point};

verus! {

/// The default estimation phase takes one tenth of a budget: numerator.
pub const DEFAULT_ESTIMATE_NUMERATOR: u32 = 1;

/// The default estimation phase takes one tenth of a budget: denominator.
pub const DEFAULT_ESTIMATE_DENOMINATOR: u32 = 10;

/// Default estimation samples per dimension.
pub const MIN_CALLS_PER_DIMENSION: u32 = 8;

/// Default ratio between the bisection threshold and the estimation minimum.
pub const BISECTION_FACTOR: u32 = 16;

/// Tuning of the sampler.
///
/// The estimation phase of a stratum takes the larger of `min_calls` and the
/// fraction `estimate_numerator / estimate_denominator` of the budget, rounded
/// down. The fraction is at most one. A budget of at most
/// `min_calls_per_bisection` is not bisected.
#[derive(Clone, Copy, Debug, PartialEq, Eq, Structural)]
pub struct StratifyOptions {
    pub estimate_numerator: u32,
    pub estimate_denominator: u32,
    pub min_calls: u32,
    pub min_calls_per_bisection: u32,
}

impl StratifyOptions {
    /// The defaults for a domain of `dimension` axes: a tenth of the budget
    /// for estimation, at least `8 * dimension` estimation samples, and no
    /// bisection at or below sixteen times that.
    pub open spec fn spec_defaults(dimension: usize) -> StratifyOptions {
        StratifyOptions {
            estimate_numerator: DEFAULT_ESTIMATE_NUMERATOR,
            estimate_denominator: DEFAULT_ESTIMATE_DENOMINATOR,
            min_calls: (MIN_CALLS_PER_DIMENSION * dimension) as u32,
            min_calls_per_bisection: (BISECTION_FACTOR * MIN_CALLS_PER_DIMENSION * dimension) as u32,
        }
    }

    /// The default options, or `TooManyDimensions` when the bisection
    /// threshold would not fit in 32 bits.
    pub fn defaults(dimension: usize) -> (r: Result<StratifyOptions, IntegrationError>)
        ensures
            128 * dimension <= u32::MAX ==> r == Ok::<StratifyOptions, IntegrationError>(
                Self::spec_defaults(dimension),
            ),
            128 * dimension > u32::MAX ==> r == Err::<StratifyOptions, IntegrationError>(
                IntegrationError::TooManyDimensions,
            ),
    {
        if dimension > 0x1FF_FFFF {
            return Err(IntegrationError::TooManyDimensions);
        }
        let d: u32 = dimension as u32;
        let min_calls: u32 = MIN_CALLS_PER_DIMENSION * d;
        Ok(
            StratifyOptions {
                estimate_numerator: DEFAULT_ESTIMATE_NUMERATOR,
                estimate_denominator: DEFAULT_ESTIMATE_DENOMINATOR,
                min_calls,
                min_calls_per_bisection: BISECTION_FACTOR * min_calls,
            },
        )
    }
}

/// How the budget of one stratum is spent.
#[derive(Clone, Copy, Debug, PartialEq, Eq, Structural)]
pub enum StratumPlan {
    /// Nothing to spend: the stratum reports what it inherited.
    Carry,
    /// The whole budget goes to plain sampling inside the stratum.
    Plain { draws: u32 },
    /// `estimation` samples choose the axis; `remaining` are shared between
    /// the two halves.
    Bisect { estimation: u32, remaining: u32 },
}

/// `true` when the estimate fraction is a fraction of at most one.
pub open spec fn fraction_is_valid(options: StratifyOptions) -> bool {
    0 < options.estimate_denominator && options.estimate_numerator <= options.estimate_denominator
}

/// Size of the estimation phase for `budget`, for a valid estimate fraction.
pub open spec fn estimation_draws(budget: u32, options: StratifyOptions) -> int {
    let share: int = (budget as int * options.estimate_numerator as int)
        / options.estimate_denominator as int;
    if options.min_calls as int >= share {
        options.min_calls as int
    } else {
        share
    }
}

/// The plan for a stratum with `budget` evaluations left.
///
/// An estimation phase of fewer than two samples cannot see both sides of an
/// axis, and one larger than the budget cannot be paid for: both are refused.
pub open spec fn spec_plan_stratum(budget: u32, options: StratifyOptions) -> Result<
    StratumPlan,
    IntegrationError,
> {
    if budget == 0 {
        Ok(StratumPlan::Carry)
    } else if budget <= options.min_calls_per_bisection {
        Ok(StratumPlan::Plain { draws: budget })
    } else if !fraction_is_valid(options) {
        Err(IntegrationError::InvalidOptions)
    } else if estimation_draws(budget, options) < 2 || estimation_draws(budget, options) > budget {
        Err(IntegrationError::InsufficientSamples)
    } else {
        Ok(
            StratumPlan::Bisect {
                estimation: estimation_draws(budget, options) as u32,
                remaining: (budget - estimation_draws(budget, options)) as u32,
            },
        )
    }
}

/// A fraction of at most one of a budget is at most the budget, and the
/// product behind it fits in 64 bits.
pub proof fn lemma_share_fits(budget: int, numerator: int, denominator: int)
    requires
        0 <= budget <= u32::MAX,
        0 <= numerator <= denominator <= u32::MAX,
        0 < denominator,
    ensures
        0 <= budget * numerator <= u64::MAX,
        0 <= (budget * numerator) / denominator <= budget,
{
    assert(0 <= budget * numerator <= budget * denominator) by (nonlinear_arith)
        requires
            0 <= budget,
            0 <= numerator <= denominator,
    ;
    assert(budget * denominator <= 0xFFFF_FFFF * 0xFFFF_FFFF) by (nonlinear_arith)
        requires
            0 <= budget <= 0xFFFF_FFFF,
            0 <= denominator <= 0xFFFF_FFFF,
    ;
    vstd::arithmetic::div_mod::lemma_div_is_ordered(
        budget * numerator,
        budget * denominator,
        denominator,
    );
    vstd::arithmetic::div_mod::lemma_div_multiples_vanish(budget, denominator);
    assert(budget * denominator == denominator * budget) by (nonlinear_arith);
    vstd::arithmetic::div_mod::lemma_div_pos_is_pos(budget * numerator, denominator);
}

/// Decides how a stratum spends `budget` evaluations.
pub fn plan_stratum(budget: u32, options: &StratifyOptions) -> (plan: Result<
    StratumPlan,
    IntegrationError,
>)
    ensures
        plan == spec_plan_stratum(budget, *options),
{
    if budget == 0 {
        return Ok(StratumPlan::Carry);
    }
    if budget <= options.min_calls_per_bisection {
        return Ok(StratumPlan::Plain { draws: budget });
    }
    if options.estimate_denominator == 0 || options.estimate_numerator
        > options.estimate_denominator {
        return Err(IntegrationError::InvalidOptions);
    }
    proof {
        lemma_share_fits(
            budget as int,
            options.estimate_numerator as int,
            options.estimate_denominator as int,
        );
    }
    let wide: u64 = (budget as u64) * (options.estimate_numerator as u64)
        / (options.estimate_denominator as u64);
    let share: u32 = wide as u32;
    let estimation: u32 = if options.min_calls >= share {
        options.min_calls
    } else {
        share
    };
    if estimation < 2 || estimation > budget {
        return Err(IntegrationError::InsufficientSamples);
    }
    Ok(StratumPlan::Bisect { estimation, remaining: budget - estimation })
}

/// The budgets of the lower and upper half when the lower half asks for
/// `requested` of `remaining`: the request is capped at what there is.
pub open spec fn spec_allocate(remaining: u32, requested: u32) -> (u32, u32) {
    if requested <= remaining {
        (requested, (remaining - requested) as u32)
    } else {
        (remaining, 0u32)
    }
}

/// Shares `remaining` evaluations between the two halves of a bisected
/// stratum. The caller derives `requested`, the lower half's share, from the
/// spread it observed on each side.
pub fn allocate(remaining: u32, requested: u32) -> (shares: (u32, u32))
    ensures
        shares == spec_allocate(remaining, requested),
        shares.0 + shares.1 == remaining,
{
    if requested <= remaining {
        (requested, remaining - requested)
    } else {
        (remaining, 0)
    }
}

/// Evaluations made in the subtree of a stratum with `budget`, when the lower
/// half of the stratum reached by `path` asks for `requests(path)`. A path
/// lists the halves taken from the root, `true` for the upper one. A subtree
/// that is refused makes no evaluation.
pub open spec fn draws_spent(
    budget: u32,
    options: StratifyOptions,
    requests: spec_fn(Seq<bool>) -> u32,
    path: Seq<bool>,
) -> nat
    decreases budget,
{
    match spec_plan_stratum(budget, options) {
        Ok(StratumPlan::Carry) => 0,
        Ok(StratumPlan::Plain { draws }) => draws as nat,
        Ok(StratumPlan::Bisect { estimation, remaining }) => {
            let shares = spec_allocate(remaining, requests(path));
            estimation as nat + draws_spent(shares.0, options, requests, path.push(false))
                + draws_spent(shares.1, options, requests, path.push(true))
        },
        Err(_) => 0,
    }
}

/// `true` when no stratum in the subtree is refused.
pub open spec fn plan_completes(
    budget: u32,
    options: StratifyOptions,
    requests: spec_fn(Seq<bool>) -> u32,
    path: Seq<bool>,
) -> bool
    decreases budget,
{
    match spec_plan_stratum(budget, options) {
        Ok(StratumPlan::Carry) => true,
        Ok(StratumPlan::Plain { draws }) => true,
        Ok(StratumPlan::Bisect { estimation, remaining }) => {
            let shares = spec_allocate(remaining, requests(path));
            plan_completes(shares.0, options, requests, path.push(false)) && plan_completes(
                shares.1,
                options,
                requests,
                path.push(true),
            )
        },
        Err(_) => false,
    }
}

/// Every bisection hands strictly smaller budgets to its halves, and a
/// sampler that is never refused evaluates the integrand exactly as often as
/// its budget says, however the halves share what is left.
pub proof fn lemma_budget_is_spent(
    budget: u32,
    options: StratifyOptions,
    requests: spec_fn(Seq<bool>) -> u32,
    path: Seq<bool>,
)
    requires
        plan_completes(budget, options, requests, path),
    ensures
        draws_spent(budget, options, requests, path) == budget,
    decreases budget,
{
    match spec_plan_stratum(budget, options) {
        Ok(StratumPlan::Bisect { estimation, remaining }) => {
            let shares = spec_allocate(remaining, requests(path));
            lemma_budget_is_spent(shares.0, options, requests, path.push(false));
            lemma_budget_is_spent(shares.1, options, requests, path.push(true));
        },
        _ => {},
    }
}

/// Per axis, how many recorded samples fell in the lower and in the upper
/// half of the stratum.
#[derive(Debug)]
pub struct SideCounts {
    below: Vec<u64>,
    above: Vec<u64>,
    recorded: u64,
}

impl SideCounts {
    /// Number of axes.
    pub closed spec fn dimension(&self) -> nat {
        self.below@.len()
    }

    /// Samples recorded in the lower half along `axis`.
    pub closed spec fn below(&self, axis: int) -> nat {
        self.below@[axis] as nat
    }

    /// Samples recorded in the upper half along `axis`.
    pub closed spec fn above(&self, axis: int) -> nat {
        self.above@[axis] as nat
    }

    /// Samples recorded so far.
    pub closed spec fn recorded(&self) -> nat {
        self.recorded as nat
    }

    /// Along every axis each recorded sample is on exactly one side.
    pub closed spec fn wf(&self) -> bool {
        &&& self.below@.len() == self.above@.len()
        &&& forall|axis: int|
            0 <= axis < self.below@.len() ==> #[trigger] self.below@[axis] + self.above@[axis]
                == self.recorded
    }

    /// `true` when the counts allow a bisection: there is an axis to cut, and
    /// each side of each axis holds at least one sample.
    pub open spec fn can_bisect(&self) -> bool {
        self.dimension() > 0 && self.all_sides_seen()
    }

    /// `true` when each side of each axis holds at least one sample.
    pub open spec fn all_sides_seen(&self) -> bool {
        forall|axis: int|
            0 <= axis < self.dimension() ==> self.below(axis) > 0 && self.above(axis) > 0
    }

    /// The two counts of an axis add up to the number of samples recorded.
    pub proof fn lemma_sides_partition(&self, axis: int)
        requires
            self.wf(),
            0 <= axis < self.dimension(),
        ensures
            self.below(axis) + self.above(axis) == self.recorded(),
    {
    }

    /// Empty counts for `dimension` axes.
    pub fn new(dimension: usize) -> (counts: SideCounts)
        ensures
            counts.wf(),
            counts.dimension() == dimension,
            counts.recorded() == 0,
            forall|axis: int|
                0 <= axis < dimension ==> counts.below(axis) == 0 && counts.above(axis) == 0,
    {
        let mut below: Vec<u64> = Vec::new();
        let mut above: Vec<u64> = Vec::new();
        let mut axis: usize = 0;
        while axis < dimension
            invariant
                axis <= dimension,
                below@.len() == axis,
                above@.len() == axis,
                forall|k: int| 0 <= k < axis ==> below@[k] == 0 && above@[k] == 0,
            decreases dimension - axis,
        {
            below.push(0);
            above.push(0);
            axis = axis + 1;
        }
        SideCounts { below, above, recorded: 0 }
    }

    /// Records one sample, given by its position in the unit cube, and tells
    /// for each axis whether it fell in the upper half. A coordinate of
    /// exactly one half belongs to the lower half.
    pub fn record(&mut self, point: &Vec<UnitFraction>) -> (sides: Vec<bool>)
        requires
            old(self).wf(),
            point@.len() == old(self).dimension(),
            old(self).recorded() < u64::MAX,
        ensures
            final(self).wf(),
            final(self).dimension() == old(self).dimension(),
            final(self).recorded() == old(self).recorded() + 1,
            sides@.len() == point@.len(),
            forall|axis: int|
                0 <= axis < point@.len() ==> sides@[axis] == point@[axis].spec_above_half(),
            forall|axis: int|
                0 <= axis < point@.len() ==> final(self).above(axis) == old(self).above(axis) + (
                if sides@[axis] {
                    1nat
                } else {
                    0nat
                }),
            forall|axis: int|
                0 <= axis < point@.len() ==> final(self).below(axis) == old(self).below(axis) + (
                if sides@[axis] {
                    0nat
                } else {
                    1nat
                }),
    {
        let dimension: usize = point.len();
        let mut sides: Vec<bool> = Vec::new();
        let mut axis: usize = 0;
        while axis < dimension
            invariant
                axis <= dimension,
                dimension == point@.len(),
                self.below@.len() == dimension,
                self.above@.len() == dimension,
                self.recorded == old(self).recorded,
                self.recorded < u64::MAX,
                sides@.len() == axis,
                forall|k: int| 0 <= k < axis ==> sides@[k] == point@[k].spec_above_half(),
                forall|k: int|
                    0 <= k < axis ==> #[trigger] self.below@[k] + self.above@[k]
                        == self.recorded + 1,
                forall|k: int|
                    axis <= k < dimension ==> #[trigger] self.below@[k] + self.above@[k]
                        == self.recorded,
                forall|k: int|
                    0 <= k < axis ==> self.above@[k] == old(self).above@[k] + (if sides@[k] {
                        1int
                    } else {
                        0int
                    }),
                forall|k: int|
                    0 <= k < axis ==> self.below@[k] == old(self).below@[k] + (if sides@[k] {
                        0int
                    } else {
                        1int
                    }),
                forall|k: int|
                    axis <= k < dimension ==> self.below@[k] == old(self).below@[k]
                        && self.above@[k] == old(self).above@[k],
            decreases dimension - axis,
        {
            let upper: bool = point[axis].above_half();
            assert(self.below@[axis as int] + self.above@[axis as int] == self.recorded);
            if upper {
                let count: u64 = self.above[axis];
                self.above[axis] = count + 1;
            } else {
                let count: u64 = self.below[axis];
                self.below[axis] = count + 1;
            }
            sides.push(upper);
            axis = axis + 1;
        }
        self.recorded = self.recorded + 1;
        sides
    }

    /// Number of samples in the lower half along `axis`.
    pub fn below_count(&self, axis: usize) -> (count: u64)
        requires
            axis < self.dimension(),
        ensures
            count == self.below(axis as int),
    {
        self.below[axis]
    }

    /// Number of samples in the upper half along `axis`.
    pub fn above_count(&self, axis: usize) -> (count: u64)
        requires
            self.wf(),
            axis < self.dimension(),
        ensures
            count == self.above(axis as int),
    {
        self.above[axis]
    }

    /// Accepts the counts as the basis of a bisection, or refuses them with
    /// `InsufficientSamples` when some side of some axis is empty or there
    /// is no axis at all.
    pub fn check(&self) -> (r: Result<(), IntegrationError>)
        requires
            self.wf(),
        ensures
            self.can_bisect() ==> r == Ok::<(), IntegrationError>(()),
            !self.can_bisect() ==> r == Err::<(), IntegrationError>(
                IntegrationError::InsufficientSamples,
            ),
    {
        let dimension: usize = self.below.len();
        if dimension == 0 {
            return Err(IntegrationError::InsufficientSamples);
        }
        let mut axis: usize = 0;
        while axis < dimension
            invariant
                axis <= dimension,
                0 < dimension == self.below@.len(),
                self.below@.len() == self.above@.len(),
                forall|k: int| 0 <= k < axis ==> self.below(k) > 0 && self.above(k) > 0,
            decreases dimension - axis,
        {
            if self.below[axis] == 0 || self.above[axis] == 0 {
                assert(!(self.below(axis as int) > 0 && self.above(axis as int) > 0));
                return Err(IntegrationError::InsufficientSamples);
            }
            axis = axis + 1;
        }
        Ok(())
    }
}

/// Number of points among `points` whose coordinate along `axis` lies in the
/// upper half.
pub open spec fn count_above(points: Seq<Vec<UnitFraction>>, axis: int) -> nat
    decreases points.len(),
{
    if points.len() == 0 {
        0
    } else {
        count_above(points.drop_last(), axis) + if points.last()@[axis].spec_above_half() {
            1nat
        } else {
            0nat
        }
    }
}

/// `true` when observation `k` of an estimation phase is in order: the point
/// holds the draws that are due, `sides[k]` tells for each axis whether the
/// point lies in the upper half, and `visit` may turn `states[k]` into
/// `states[k + 1]` on seeing both.
pub open spec fn is_observation<A, F: Fn(A, Vec<UnitFraction>, Vec<bool>) -> A>(
    visit: F,
    seed: u64,
    dimension: usize,
    states: Seq<A>,
    points: Seq<Vec<UnitFraction>>,
    sides: Seq<Vec<bool>>,
    k: int,
) -> bool {
    &&& points[k]@.len() == dimension
    &&& is_drawn_from(points[k]@, advance_by(seed, (k * dimension) as nat))
    &&& sides[k]@.len() == dimension
    &&& forall|axis: int|
        0 <= axis < dimension ==> sides[k]@[axis] == points[k]@[axis].spec_above_half()
    &&& call_ensures(visit, (states[k], points[k], sides[k]), states[k + 1])
}

/// `true` when the three sequences are the course of an estimation phase of
/// `draws` observations led by `visit`.
pub open spec fn is_estimation<A, F: Fn(A, Vec<UnitFraction>, Vec<bool>) -> A>(
    visit: F,
    seed: u64,
    dimension: usize,
    draws: nat,
    states: Seq<A>,
    points: Seq<Vec<UnitFraction>>,
    sides: Seq<Vec<bool>>,
) -> bool {
    &&& states.len() == draws + 1
    &&& points.len() == draws
    &&& sides.len() == draws
    &&& forall|k: int|
        0 <= k < draws ==> #[trigger] is_observation(
            visit,
            seed,
            dimension,
            states,
            points,
            sides,
            k,
        )
}

/// Runs the estimation phase of a stratum: draws `draws` uniform points of
/// the unit cube, counts for each axis on which side of the middle they fall,
/// and hands each point with its sides to `visit`, together with what `visit`
/// made of the points before, starting from `start`. Returns what `visit`
/// made of the last point, and the counts.
///
/// The generator moves on by exactly `draws * dimension` draws.
pub fn observe_points<A, F: Fn(A, Vec<UnitFraction>, Vec<bool>) -> A>(
    rng: &mut Rng,
    dimension: usize,
    draws: u32,
    start: A,
    visit: F,
) -> (r: (A, SideCounts))
    requires
        forall|state: A, point: Vec<UnitFraction>, sides: Vec<bool>|
            point@.len() == dimension && sides@.len() == dimension ==> call_requires(
                visit,
                (state, point, sides),
            ),
    ensures
        final(rng)@ == advance_by(old(rng)@, (draws * dimension) as nat),
        r.1.wf(),
        r.1.dimension() == dimension,
        r.1.recorded() == draws,
        exists|states: Seq<A>, points: Seq<Vec<UnitFraction>>, sides: Seq<Vec<bool>>|
            {
                &&& #[trigger] is_estimation(
                    visit,
                    old(rng)@,
                    dimension,
                    draws as nat,
                    states,
                    points,
                    sides,
                )
                &&& states[0] == start
                &&& states[draws as int] == r.0
                &&& forall|axis: int|
                    0 <= axis < dimension ==> r.1.above(axis) == count_above(points, axis)
            },
{
    let ghost seed: u64 = rng@;
    let ghost mut states: Seq<A> = seq![start];
    let ghost mut points: Seq<Vec<UnitFraction>> = Seq::empty();
    let ghost mut sides: Seq<Vec<bool>> = Seq::empty();
    let mut counts: SideCounts = SideCounts::new(dimension);
    let mut state: A = start;
    let mut done: u32 = 0;
    proof {
        assert(0 * dimension == 0);
    }
    while done < draws
        invariant
            done <= draws,
            forall|state: A, point: Vec<UnitFraction>, sides: Vec<bool>|
                point@.len() == dimension && sides@.len() == dimension ==> call_requires(
                    visit,
                    (state, point, sides),
                ),
            rng@ == advance_by(seed, (done * dimension) as nat),
            counts.wf(),
            counts.dimension() == dimension,
            counts.recorded() == done,
            is_estimation(visit, seed, dimension, done as nat, states, points, sides),
            states[0] == start,
            states[done as int] == state,
            forall|axis: int|
                0 <= axis < dimension ==> counts.above(axis) == count_above(points, axis),
        decreases draws - done,
    {
        let ghost before: A = state;
        let point: Vec<UnitFraction> = unit_point(rng, dimension);
        let ghost seen: Vec<UnitFraction> = point;
        let ghost old_counts = counts;
        let side: Vec<bool> = counts.record(&point);
        let ghost told: Vec<bool> = side;
        state = visit(state, point, side);
        proof {
            lemma_advance_adds(seed, (done * dimension) as nat, dimension as nat);
            assert((done + 1) * dimension == done * dimension + dimension) by (nonlinear_arith);
            let ghost old_states = states;
            let ghost old_points = points;
            let ghost old_sides = sides;
            states = states.push(state);
            points = points.push(seen);
            sides = sides.push(told);
            assert(points.drop_last() =~= old_points);
            assert forall|k: int| 0 <= k < done + 1 implies #[trigger] is_observation(
                visit,
                seed,
                dimension,
                states,
                points,
                sides,
                k,
            ) by {
                if k < done {
                    assert(is_observation(
                        visit,
                        seed,
                        dimension,
                        old_states,
                        old_points,
                        old_sides,
                        k,
                    ));
                    assert(points[k] == old_points[k]);
                    assert(sides[k] == old_sides[k]);
                    assert(states[k] == old_states[k]);
                    assert(states[k + 1] == old_states[k + 1]);
                } else {
                    assert(points[k] == seen);
                    assert(sides[k] == told);
                    assert(states[k] == before);
                }
            }
            assert forall|axis: int| 0 <= axis < dimension implies counts.above(axis)
                == count_above(points, axis) by {
                assert(old_counts.above(axis) == count_above(old_points, axis));
                assert(points.last() == seen);
            }
        }
        done = done + 1;
    }
    (state, counts)
}

} // verus!
