//! Low-discrepancy points: radical inverses in prime bases.
//!
//! The radical inverse of `n` in base `b` mirrors the base-`b` digits of `n`
//! at the radix point: the digit of weight `b^k` in `n` gets weight
//! `b^-(k+1)`. Taking the radical inverse of the same index in a different
//! prime base for each axis gives one point of a Halton sequence. All values
//! are exact fractions.

use vstd::prelude::*;
use crate::error::IntegrationError;
use crate::fraction::UnitFraction;

verus! {

/// Number of axes for which a base is available.
pub const BASE_COUNT: usize = 19;

/// The bases, one per axis, in the order of the axes.
pub open spec fn spec_bases() -> Seq<u32> {
    seq![2u32, 3, 5, 7, 11, 13, 17, 19, 23, 29, 31, 37, 41, 43, 47, 53, 59, 61, 67]
}

/// The bases grow from axis to axis, so no two axes share one, and each is at
/// least two.
pub proof fn lemma_bases_are_distinct(i: int, j: int)
    requires
        0 <= i < j < BASE_COUNT,
    ensures
        2 <= spec_bases()[i] < spec_bases()[j],
        spec_bases().len() == BASE_COUNT,
{
}

/// Dropping the last digit of a positive number makes it smaller.
pub proof fn lemma_quotient_is_smaller(n: nat, base: nat)
    requires
        n > 0,
        base >= 2,
    ensures
        n / base < n,
{
    vstd::arithmetic::div_mod::lemma_div_decreases(n as int, base as int);
}

/// Denominator of the radical inverse of `n` in `base`: `base` to the number
/// of digits of `n`.
pub open spec fn radical_denominator(n: nat, base: nat) -> nat
    decreases n,
{
    if n == 0 || base < 2 {
        1
    } else {
        proof {
            lemma_quotient_is_smaller(n, base);
        }
        base * radical_denominator(n / base, base)
    }
}

/// Numerator of the radical inverse of `n` in `base`, over
/// `radical_denominator(n, base)`: the digits of `n` read in reverse.
pub open spec fn radical_numerator(n: nat, base: nat) -> nat
    decreases n,
{
    if n == 0 || base < 2 {
        0
    } else {
        proof {
            lemma_quotient_is_smaller(n, base);
        }
        (n % base) * radical_denominator(n / base, base) + radical_numerator(n / base, base)
    }
}

/// The radical inverse lies in `[0, 1)`, and its denominator is at most
/// `base * n`, so it fits in 64 bits whenever `n` and `base` fit in 32.
pub proof fn lemma_radical_inverse_bounds(n: nat, base: nat)
    requires
        base >= 2,
    ensures
        radical_numerator(n, base) < radical_denominator(n, base),
        n > 0 ==> radical_denominator(n, base) <= base * n,
        n == 0 ==> radical_denominator(n, base) == 1 && radical_numerator(n, base) == 0,
    decreases n,
{
    if n > 0 {
        let rest: nat = n / base;
        let digit: nat = n % base;
        lemma_quotient_is_smaller(n, base);
        lemma_radical_inverse_bounds(rest, base);
        let d: nat = radical_denominator(rest, base);
        let r: nat = radical_numerator(rest, base);
        assert(n == base * rest + digit) by {
            vstd::arithmetic::div_mod::lemma_fundamental_div_mod(n as int, base as int);
        }
        assert(digit < base) by {
            vstd::arithmetic::div_mod::lemma_mod_bound(n as int, base as int);
        }
        assert(digit * d + r < base * d) by (nonlinear_arith)
            requires
                digit + 1 <= base,
                r < d,
        ;
        if rest > 0 {
            assert(base * d <= base * n) by (nonlinear_arith)
                requires
                    d <= base * rest,
                    n == base * rest + digit,
                    base >= 2,
            ;
        } else {
            assert(d == 1);
            assert(base * d <= base * n) by (nonlinear_arith)
                requires
                    d == 1,
                    n >= 1,
            ;
        }
    }
}

/// The radical inverse of `n` in `base`, as an exact fraction.
pub fn corput_number(n: u32, base: u32) -> (r: UnitFraction)
    requires
        base >= 2,
    ensures
        r.numerator == radical_numerator(n as nat, base as nat),
        r.denominator == radical_denominator(n as nat, base as nat),
        r.wf(),
{
    let mut rest: u32 = n;
    let mut numerator: u64 = 0;
    let mut denominator: u64 = 1;
    proof {
        lemma_radical_inverse_bounds(n as nat, base as nat);
        assert(0 * radical_denominator(n as nat, base as nat) == 0);
    }
    while rest > 0
        invariant
            base >= 2,
            radical_numerator(n as nat, base as nat) == numerator * radical_denominator(
                rest as nat,
                base as nat,
            ) + radical_numerator(rest as nat, base as nat),
            radical_denominator(n as nat, base as nat) == denominator * radical_denominator(
                rest as nat,
                base as nat,
            ),
            denominator >= 1,
            n > 0 ==> radical_denominator(n as nat, base as nat) <= base * n,
            n == 0 ==> rest == 0,
        decreases rest,
    {
        let digit: u32 = rest % base;
        let next: u32 = rest / base;
        proof {
            let ghost dn: nat = radical_denominator(n as nat, base as nat);
            let ghost dr: nat = radical_denominator(rest as nat, base as nat);
            let ghost dq: nat = radical_denominator(next as nat, base as nat);
            let ghost nq: nat = radical_numerator(next as nat, base as nat);
            lemma_quotient_is_smaller(rest as nat, base as nat);
            lemma_radical_inverse_bounds(next as nat, base as nat);
            lemma_radical_inverse_bounds(n as nat, base as nat);
            assert(dr == base * dq);
            assert(dn == denominator * base * dq) by (nonlinear_arith)
                requires
                    dn == denominator * dr,
                    dr == base * dq,
            ;
            assert(denominator * base <= dn) by (nonlinear_arith)
                requires
                    dn == denominator * base * dq,
                    dq >= 1,
            ;
            assert(dn <= base * n);
            assert(base * n <= 0xFFFF_FFFF * 0xFFFF_FFFF) by (nonlinear_arith)
                requires
                    base <= 0xFFFF_FFFF,
                    n <= 0xFFFF_FFFF,
            ;
            assert(numerator * base + digit < dn) by (nonlinear_arith)
                requires
                    radical_numerator(n as nat, base as nat) == numerator * dr + (digit * dq + nq),
                    dr == base * dq,
                    dq >= 1,
                    radical_numerator(n as nat, base as nat) < dn,
                    dn == denominator * base * dq,
                    nq < dq,
            {
                assert(numerator * dr == numerator * base * dq);
                assert((numerator * base + digit) * dq == numerator * base * dq + digit * dq);
                assert((numerator * base + digit) * dq <= radical_numerator(n as nat, base as nat));
                assert((numerator * base + digit) * dq < dn);
                assert(numerator * base + digit <= (numerator * base + digit) * dq);
            }
            assert((numerator * base + digit) * dq + nq == numerator * dr + (digit * dq + nq))
                by (nonlinear_arith)
                requires
                    dr == base * dq,
            ;
        }
        numerator = numerator * (base as u64) + (digit as u64);
        denominator = denominator * (base as u64);
        rest = next;
    }
    proof {
        let ghost one: nat = radical_denominator(rest as nat, base as nat);
        lemma_radical_inverse_bounds(rest as nat, base as nat);
        lemma_radical_inverse_bounds(n as nat, base as nat);
        assert(numerator * one == numerator && denominator * one == denominator)
            by (nonlinear_arith)
            requires
                one == 1,
        ;
    }
    UnitFraction { numerator, denominator }
}

/// The base used along `axis`.
pub fn base(axis: usize) -> (b: u32)
    requires
        axis < BASE_COUNT,
    ensures
        b == spec_bases()[axis as int],
        b >= 2,
{
    if axis == 0 {
        2
    } else if axis == 1 {
        3
    } else if axis == 2 {
        5
    } else if axis == 3 {
        7
    } else if axis == 4 {
        11
    } else if axis == 5 {
        13
    } else if axis == 6 {
        17
    } else if axis == 7 {
        19
    } else if axis == 8 {
        23
    } else if axis == 9 {
        29
    } else if axis == 10 {
        31
    } else if axis == 11 {
        37
    } else if axis == 12 {
        41
    } else if axis == 13 {
        43
    } else if axis == 14 {
        47
    } else if axis == 15 {
        53
    } else if axis == 16 {
        59
    } else if axis == 17 {
        61
    } else {
        67
    }
}

/// `true` when `point` is the Halton point of index `n` in `dimension` axes:
/// along each axis the radical inverse of `n` in that axis's base.
pub open spec fn is_halton_point(point: Seq<UnitFraction>, n: u32, dimension: usize) -> bool {
    &&& point.len() == dimension
    &&& forall|axis: int|
        0 <= axis < dimension ==> {
            &&& (#[trigger] point[axis]).numerator == radical_numerator(
                n as nat,
                spec_bases()[axis] as nat,
            )
            &&& point[axis].denominator == radical_denominator(
                n as nat,
                spec_bases()[axis] as nat,
            )
            &&& point[axis].wf()
        }
}

/// The point of index `n` of the Halton sequence in `dimension` axes.
pub fn halton_point(n: u32, dimension: usize) -> (point: Vec<UnitFraction>)
    requires
        dimension < BASE_COUNT,
    ensures
        is_halton_point(point@, n, dimension),
{
    let mut point: Vec<UnitFraction> = Vec::new();
    let mut axis: usize = 0;
    while axis < dimension
        invariant
            axis <= dimension,
            dimension < BASE_COUNT,
            is_halton_point(point@, n, axis),
        decreases dimension - axis,
    {
        let coordinate: UnitFraction = corput_number(n, base(axis));
        point.push(coordinate);
        axis = axis + 1;
    }
    point
}

/// The point of index `n` of the Halton sequence in `dimension` axes, or
/// `TooManyDimensions` unless `dimension` is strictly below the number of
/// bases.
pub fn halton_number(n: u32, dimension: usize) -> (r: Result<Vec<UnitFraction>, IntegrationError>)
    ensures
        dimension < BASE_COUNT ==> r is Ok && is_halton_point(r->Ok_0@, n, dimension),
        dimension >= BASE_COUNT ==> r == Err::<Vec<UnitFraction>, IntegrationError>(
            IntegrationError::TooManyDimensions,
        ),
{
    if dimension >= BASE_COUNT {
        return Err(IntegrationError::TooManyDimensions);
    }
    Ok(halton_point(n, dimension))
}

/// The two runs of Halton indices behind one low-discrepancy estimate.
///
/// A budget of `n` samples is split into two runs of `n / 2` consecutive
/// indices. The first starts at the seed and the second where the first ends,
/// so the runs share no point. The distance between the two means serves as
/// an error indication.
#[derive(Clone, Copy, Debug, PartialEq, Eq, Structural)]
pub struct SequencePlan {
    /// Number of axes of every point.
    pub dimension: usize,
    /// Length of each run.
    pub half: u32,
    /// Index of the first point of the first run.
    pub first: u32,
    /// Index of the first point of the second run.
    pub second: u32,
}

impl SequencePlan {
    /// The runs are adjacent, all their indices fit in 32 bits, and every
    /// axis has a base.
    pub open spec fn wf(&self) -> bool {
        &&& self.dimension < BASE_COUNT
        &&& self.second == self.first + self.half
        &&& self.first + 2 * self.half <= 0x1_0000_0000
    }
}

/// The plan for `samples` samples from `seed` on, for a positive budget whose
/// indices are in range and a dimension that has bases.
pub open spec fn spec_plan_sequences(samples: u32, seed: u32, dimension: usize) -> Result<
    SequencePlan,
    IntegrationError,
> {
    if samples == 0 {
        Err(IntegrationError::NoSamples)
    } else if dimension >= BASE_COUNT {
        Err(IntegrationError::TooManyDimensions)
    } else if seed + 2 * (samples / 2) > 0x1_0000_0000 {
        Err(IntegrationError::IndexOutOfRange)
    } else {
        Ok(
            SequencePlan {
                dimension,
                half: samples / 2,
                first: seed,
                second: (seed + samples / 2) as u32,
            },
        )
    }
}

/// Lays out the two runs of a low-discrepancy estimate.
pub fn plan_sequences(samples: u32, seed: u32, dimension: usize) -> (plan: Result<
    SequencePlan,
    IntegrationError,
>)
    ensures
        plan == spec_plan_sequences(samples, seed, dimension),
        plan is Ok ==> plan->Ok_0.wf(),
{
    if samples == 0 {
        return Err(IntegrationError::NoSamples);
    }
    if dimension >= BASE_COUNT {
        return Err(IntegrationError::TooManyDimensions);
    }
    let half: u32 = samples / 2;
    if seed as u64 + 2 * (half as u64) > 0x1_0000_0000 {
        return Err(IntegrationError::IndexOutOfRange);
    }
    if half == 0 {
        return Ok(SequencePlan { dimension, half, first: seed, second: seed });
    }
    Ok(SequencePlan { dimension, half, first: seed, second: seed + half })
}

/// The points at position `i` of the two runs.
pub fn sequence_pair(plan: &SequencePlan, i: u32) -> (pair: (Vec<UnitFraction>, Vec<UnitFraction>))
    requires
        plan.wf(),
        i < plan.half,
    ensures
        is_halton_point(pair.0@, (plan.first + i) as u32, plan.dimension),
        is_halton_point(pair.1@, (plan.second + i) as u32, plan.dimension),
        plan.second + i <= u32::MAX,
{
    let one: Vec<UnitFraction> = halton_point(plan.first + i, plan.dimension);
    let two: Vec<UnitFraction> = halton_point(plan.second + i, plan.dimension);
    (one, two)
}

/// `true` when `states` is the course of a fold of `visit` over the pairs of
/// `plan`: `firsts[k]` and `seconds[k]` are the points at position `k` of the
/// two runs, and `visit` may turn `states[k]` into `states[k + 1]` on seeing
/// them.
pub open spec fn is_sequence_fold<A, F: Fn(A, Vec<UnitFraction>, Vec<UnitFraction>) -> A>(
    visit: F,
    plan: SequencePlan,
    states: Seq<A>,
    firsts: Seq<Vec<UnitFraction>>,
    seconds: Seq<Vec<UnitFraction>>,
) -> bool {
    &&& states.len() == plan.half + 1
    &&& firsts.len() == plan.half
    &&& seconds.len() == plan.half
    &&& forall|k: int|
        0 <= k < plan.half ==> {
            &&& is_halton_point((#[trigger] firsts[k])@, (plan.first + k) as u32, plan.dimension)
            &&& is_halton_point(seconds[k]@, (plan.second + k) as u32, plan.dimension)
            &&& call_ensures(visit, (states[k], firsts[k], seconds[k]), states[k + 1])
        }
}

/// Walks through the two runs of a low-discrepancy estimate with `samples`
/// samples from index `seed` on, and hands the points to `visit` pair by pair,
/// together with what `visit` made of the pairs before, starting from
/// `start`. Returns what `visit` made of the last pair, and the length of a
/// run. A request without a plan is refused with the reason.
pub fn fold_sequence_pairs<A, F: Fn(A, Vec<UnitFraction>, Vec<UnitFraction>) -> A>(
    samples: u32,
    seed: u32,
    dimension: usize,
    start: A,
    visit: F,
) -> (r: Result<(A, u32), IntegrationError>)
    requires
        forall|state: A, first: Vec<UnitFraction>, second: Vec<UnitFraction>|
            first@.len() == dimension && second@.len() == dimension ==> call_requires(
                visit,
                (state, first, second),
            ),
    ensures
        spec_plan_sequences(samples, seed, dimension) is Err ==> r is Err && r->Err_0
            == spec_plan_sequences(samples, seed, dimension)->Err_0,
        spec_plan_sequences(samples, seed, dimension) is Ok ==> r is Ok && r->Ok_0.1 == samples / 2
            && exists|
            states: Seq<A>,
            firsts: Seq<Vec<UnitFraction>>,
            seconds: Seq<Vec<UnitFraction>>,
        |
            {
                &&& #[trigger] is_sequence_fold(
                    visit,
                    spec_plan_sequences(samples, seed, dimension)->Ok_0,
                    states,
                    firsts,
                    seconds,
                )
                &&& states[0] == start
                &&& states[(samples / 2) as int] == r->Ok_0.0
            },
{
    let plan: SequencePlan = match plan_sequences(samples, seed, dimension) {
        Ok(plan) => plan,
        Err(e) => {
            return Err(e);
        },
    };
    let ghost mut states: Seq<A> = seq![start];
    let ghost mut firsts: Seq<Vec<UnitFraction>> = Seq::empty();
    let ghost mut seconds: Seq<Vec<UnitFraction>> = Seq::empty();
    let mut state: A = start;
    let mut done: u32 = 0;
    while done < plan.half
        invariant
            done <= plan.half,
            plan.wf(),
            plan.dimension == dimension,
            spec_plan_sequences(samples, seed, dimension) == Ok::<SequencePlan, IntegrationError>(
                plan,
            ),
            forall|state: A, first: Vec<UnitFraction>, second: Vec<UnitFraction>|
                first@.len() == dimension && second@.len() == dimension ==> call_requires(
                    visit,
                    (state, first, second),
                ),
            states.len() == done + 1,
            firsts.len() == done,
            seconds.len() == done,
            forall|k: int|
                0 <= k < done ==> {
                    &&& is_halton_point(
                        (#[trigger] firsts[k])@,
                        (plan.first + k) as u32,
                        plan.dimension,
                    )
                    &&& is_halton_point(seconds[k]@, (plan.second + k) as u32, plan.dimension)
                    &&& call_ensures(visit, (states[k], firsts[k], seconds[k]), states[k + 1])
                },
            states[0] == start,
            states[done as int] == state,
        decreases plan.half - done,
    {
        let ghost before: A = state;
        let pair: (Vec<UnitFraction>, Vec<UnitFraction>) = sequence_pair(&plan, done);
        let ghost one: Vec<UnitFraction> = pair.0;
        let ghost two: Vec<UnitFraction> = pair.1;
        state = visit(state, pair.0, pair.1);
        proof {
            let ghost old_states = states;
            let ghost old_firsts = firsts;
            let ghost old_seconds = seconds;
            states = states.push(state);
            firsts = firsts.push(one);
            seconds = seconds.push(two);
            assert forall|k: int| 0 <= k < done + 1 implies {
                &&& is_halton_point(
                    (#[trigger] firsts[k])@,
                    (plan.first + k) as u32,
                    plan.dimension,
                )
                &&& is_halton_point(seconds[k]@, (plan.second + k) as u32, plan.dimension)
                &&& call_ensures(visit, (states[k], firsts[k], seconds[k]), states[k + 1])
            } by {
                if k < done {
                    assert(firsts[k] == old_firsts[k]);
                    assert(seconds[k] == old_seconds[k]);
                    assert(states[k] == old_states[k]);
                    assert(states[k + 1] == old_states[k + 1]);
                } else {
                    assert(firsts[k] == one);
                    assert(seconds[k] == two);
                    assert(states[k] == before);
                }
            }
        }
        done = done + 1;
    }
    proof {
        assert(is_sequence_fold(visit, plan, states, firsts, seconds));
    }
    Ok((state, plan.half))
}

} // verus!
