//! Special functions on integers.

use vstd::prelude::*;

verus! {

/// The largest argument whose factorial fits in 64 bits.
pub const MAX_FACTORIAL_ARGUMENT: u64 = 20;

/// The product of the integers from 1 to `n`; 1 for `n == 0`.
pub open spec fn spec_factorial(n: nat) -> nat
    decreases n,
{
    if n == 0 {
        1
    } else {
        n * spec_factorial((n - 1) as nat)
    }
}

/// The factorial never decreases.
pub proof fn lemma_factorial_increases(i: nat, j: nat)
    requires
        i <= j,
    ensures
        1 <= spec_factorial(i) <= spec_factorial(j),
    decreases j,
{
    if i < j {
        lemma_factorial_increases(i, (j - 1) as nat);
        let previous: nat = spec_factorial((j - 1) as nat);
        assert(previous <= j * previous) by (nonlinear_arith)
            requires
                j >= 1,
        ;
    } else if j > 0 {
        lemma_factorial_increases((i - 1) as nat, (j - 1) as nat);
        let previous: nat = spec_factorial((j - 1) as nat);
        assert(previous <= j * previous) by (nonlinear_arith)
            requires
                j >= 1,
        ;
    }
}

/// The factorial of 20 is 2432902008176640000, which fits in 64 bits.
pub proof fn lemma_factorial_of_twenty()
    ensures
        spec_factorial(20) == 2_432_902_008_176_640_000,
{
    reveal_with_fuel(spec_factorial, 21);
}

/// The factorial of `num`, for `num` up to 20. Beyond that the product does
/// not fit in 64 bits.
pub fn factorial(num: u64) -> (product: u64)
    requires
        num <= MAX_FACTORIAL_ARGUMENT,
    ensures
        product == spec_factorial(num as nat),
{
    let mut product: u64 = 1;
    let mut factor: u64 = 0;
    while factor < num
        invariant
            factor <= num <= MAX_FACTORIAL_ARGUMENT,
            product == spec_factorial(factor as nat),
        decreases num - factor,
    {
        factor = factor + 1;
        proof {
            lemma_factorial_increases(factor as nat, 20);
            lemma_factorial_of_twenty();
            assert(spec_factorial(factor as nat) == factor * spec_factorial((factor - 1) as nat));
            assert(product * factor == factor * product) by (nonlinear_arith);
        }
        product = product * factor;
    }
    product
}

} // verus!
