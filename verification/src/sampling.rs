//! The draws of plain Monte Carlo sampling.

use vstd::prelude::*;
use crate::error::IntegrationError;
use crate::fraction::UnitFraction;
use crate::rand::{advance_by, fold, lemma_advance_adds, Rng, FRACTION_DENOMINATOR};

verus! {

/// Accepts a positive sample budget and refuses an empty one with
/// `NoSamples`.
pub fn check_samples(samples: u32) -> (r: Result<u32, IntegrationError>)
    ensures
        samples > 0 ==> r == Ok::<u32, IntegrationError>(samples),
        samples == 0 ==> r == Err::<u32, IntegrationError>(IntegrationError::NoSamples),
{
    if samples == 0 {
        Err(IntegrationError::NoSamples)
    } else {
        Ok(samples)
    }
}

/// `true` when `point` holds the next `point.len()` draws of a generator in
/// state `state`, one per axis in the order of the axes.
pub open spec fn is_drawn_from(point: Seq<UnitFraction>, state: u64) -> bool {
    forall|axis: int|
        0 <= axis < point.len() ==> {
            &&& (#[trigger] point[axis]).numerator == fold(advance_by(state, (axis + 1) as nat))
                / 4096
            &&& point[axis].denominator == FRACTION_DENOMINATOR
            &&& point[axis].wf()
        }
}

/// Draws a uniform point of the unit cube with `dimension` axes. The
/// generator moves on by one draw per axis.
pub fn unit_point(rng: &mut Rng, dimension: usize) -> (point: Vec<UnitFraction>)
    ensures
        point@.len() == dimension,
        is_drawn_from(point@, old(rng)@),
        final(rng)@ == advance_by(old(rng)@, dimension as nat),
{
    let mut point: Vec<UnitFraction> = Vec::new();
    let mut axis: usize = 0;
    while axis < dimension
        invariant
            axis <= dimension,
            point@.len() == axis,
            is_drawn_from(point@, old(rng)@),
            rng@ == advance_by(old(rng)@, axis as nat),
        decreases dimension - axis,
    {
        let draw: UnitFraction = rng.fraction();
        point.push(draw);
        axis = axis + 1;
    }
    point
}

/// `true` when `states` is the course of a fold of `visit` over `samples`
/// uniform points: `points[k]` holds the draws `k * dimension + 1` to
/// `(k + 1) * dimension` of a generator started in `seed`, and `visit` may
/// turn `states[k]` into `states[k + 1]` on seeing it.
pub open spec fn is_uniform_fold<A, F: Fn(A, Vec<UnitFraction>) -> A>(
    visit: F,
    seed: u64,
    dimension: usize,
    samples: nat,
    states: Seq<A>,
    points: Seq<Vec<UnitFraction>>,
) -> bool {
    &&& states.len() == samples + 1
    &&& points.len() == samples
    &&& forall|k: int|
        0 <= k < samples ==> {
            &&& (#[trigger] points[k])@.len() == dimension
            &&& is_drawn_from(points[k]@, advance_by(seed, (k * dimension) as nat))
            &&& call_ensures(visit, (states[k], points[k]), states[k + 1])
        }
}

/// Draws `samples` uniform points of the unit cube with `dimension` axes and
/// hands them to `visit` one by one, together with what `visit` made of the
/// points before, starting from `start`. Returns what `visit` made of the
/// last point. An empty budget is refused with `NoSamples` before anything
/// is drawn.
///
/// The generator moves on by exactly `samples * dimension` draws.
pub fn fold_uniform_points<A, F: Fn(A, Vec<UnitFraction>) -> A>(
    rng: &mut Rng,
    dimension: usize,
    samples: u32,
    start: A,
    visit: F,
) -> (r: Result<A, IntegrationError>)
    requires
        forall|state: A, point: Vec<UnitFraction>|
            point@.len() == dimension ==> call_requires(visit, (state, point)),
    ensures
        samples == 0 ==> r is Err && r->Err_0 == IntegrationError::NoSamples && final(rng)@ == old(
            rng,
        )@,
        samples > 0 ==> r is Ok && final(rng)@ == advance_by(
            old(rng)@,
            (samples * dimension) as nat,
        ) && exists|states: Seq<A>, points: Seq<Vec<UnitFraction>>|
            {
                &&& #[trigger] is_uniform_fold(
                    visit,
                    old(rng)@,
                    dimension,
                    samples as nat,
                    states,
                    points,
                )
                &&& states[0] == start
                &&& states[samples as int] == r->Ok_0
            },
{
    if samples == 0 {
        return Err(IntegrationError::NoSamples);
    }
    let ghost seed: u64 = rng@;
    let ghost mut states: Seq<A> = seq![start];
    let ghost mut points: Seq<Vec<UnitFraction>> = Seq::empty();
    let mut state: A = start;
    let mut done: u32 = 0;
    proof {
        assert(0 * dimension == 0);
    }
    while done < samples
        invariant
            done <= samples,
            forall|state: A, point: Vec<UnitFraction>|
                point@.len() == dimension ==> call_requires(visit, (state, point)),
            rng@ == advance_by(seed, (done * dimension) as nat),
            is_uniform_fold(visit, seed, dimension, done as nat, states, points),
            states[0] == start,
            states[done as int] == state,
        decreases samples - done,
    {
        let ghost before: A = state;
        let point: Vec<UnitFraction> = unit_point(rng, dimension);
        let ghost seen: Vec<UnitFraction> = point;
        state = visit(state, point);
        proof {
            lemma_advance_adds(seed, (done * dimension) as nat, dimension as nat);
            assert((done + 1) * dimension == done * dimension + dimension) by (nonlinear_arith);
            let ghost old_states = states;
            let ghost old_points = points;
            states = states.push(state);
            points = points.push(seen);
            assert forall|k: int| 0 <= k < done + 1 implies {
                &&& (#[trigger] points[k])@.len() == dimension
                &&& is_drawn_from(points[k]@, advance_by(seed, (k * dimension) as nat))
                &&& call_ensures(visit, (states[k], points[k]), states[k + 1])
            } by {
                if k < done {
                    assert(points[k] == old_points[k]);
                    assert(states[k] == old_states[k]);
                    assert(states[k + 1] == old_states[k + 1]);
                } else {
                    assert(points[k] == seen);
                    assert(states[k] == before);
                }
            }
        }
        done = done + 1;
    }
    Ok(state)
}

} // verus!
