//! Rabbit pairs under a Fibonacci-style recurrence with a litter size.

use vstd::prelude::*;

verus! {

/// Pairs alive in generation `n` when every mature pair bears `litter` new
/// pairs: `f(1) = f(2) = 1`, `f(n) = f(n - 1) + f(n - 2) * litter`.
pub open spec fn population(n: nat, litter: nat) -> nat
    decreases n,
{
    if n <= 2 {
        1
    } else {
        population((n - 1) as nat, litter) + population((n - 2) as nat, litter) * litter
    }
}

proof fn lemma_population_grows(m: nat, n: nat, litter: nat)
    requires
        m <= n,
    ensures
        population(m, litter) <= population(n, litter),
    decreases n - m,
{
    if m < n {
        lemma_population_grows(m, (n - 1) as nat, litter);
        if n > 2 {
            assert(population((n - 2) as nat, litter) * litter >= 0) by (nonlinear_arith);
        }
    }
}

/// The size of the next generation: the last one plus the litters of the one before.
pub fn next_generation(
    last_generation_size: u128,
    next_last_generation_size: u128,
    litter_size: u128,
) -> (r: u128)
    requires
        last_generation_size + next_last_generation_size * litter_size <= u128::MAX,
    ensures
        r == last_generation_size + next_last_generation_size * litter_size,
{
    assert(next_last_generation_size * litter_size <= u128::MAX) by (nonlinear_arith)
        requires
            last_generation_size + next_last_generation_size * litter_size <= u128::MAX,
            last_generation_size >= 0,
    ;
    last_generation_size + next_last_generation_size * litter_size
}

/// The number of rabbit pairs after `generations` generations; the first two
/// generations hold one pair each.
pub fn rabbits(generations: u128, litter_size: u128) -> (r: u128)
    requires
        population(generations as nat, litter_size as nat) <= u128::MAX,
    ensures
        r == population(generations as nat, litter_size as nat),
{
    let ghost k = litter_size as nat;
    let mut next_last_generation_size: u128 = 1;
    let mut last_generation_size: u128 = 1;
    let mut g: u128 = 2;
    while g < generations
        invariant
            2 <= g,
            g <= generations || g == 2,
            k == litter_size,
            population(generations as nat, k) <= u128::MAX,
            last_generation_size == population(g as nat, k),
            next_last_generation_size == population((g - 1) as nat, k),
        decreases generations - g,
    {
        proof {
            lemma_population_grows((g + 1) as nat, generations as nat, k);
            assert(population((g + 1) as nat, k) == population(g as nat, k)
                + population((g - 1) as nat, k) * k);
        }
        let tmp = next_generation(last_generation_size, next_last_generation_size, litter_size);
        next_last_generation_size = last_generation_size;
        last_generation_size = tmp;
        g = g + 1;
    }
    if generations < 2 {
        assert(population(generations as nat, k) == 1);
        assert(population(2, k) == 1);
    } else {
        assert(g == generations);
    }
    last_generation_size
}

/// The number of rabbit pairs after `generations` generations, or `None`
/// when that number does not fit in a `u128`.
pub fn rabbits_checked(generations: u128, litter_size: u128) -> (r: Option<u128>)
    ensures
        r is Some <==> population(generations as nat, litter_size as nat) <= u128::MAX,
        r matches Some(n) ==> n == population(generations as nat, litter_size as nat),
{
    let ghost k = litter_size as nat;
    let mut next_last_generation_size: u128 = 1;
    let mut last_generation_size: u128 = 1;
    let mut g: u128 = 2;
    while g < generations
        invariant
            2 <= g,
            g <= generations || g == 2,
            k == litter_size,
            last_generation_size == population(g as nat, k),
            next_last_generation_size == population((g - 1) as nat, k),
        decreases generations - g,
    {
        proof {
            lemma_population_grows((g + 1) as nat, generations as nat, k);
            assert(population((g + 1) as nat, k) == population(g as nat, k)
                + population((g - 1) as nat, k) * k);
            assert(population((g - 1) as nat, k) * k >= 0) by (nonlinear_arith);
        }
        let litters = match next_last_generation_size.checked_mul(litter_size) {
            Some(n) => n,
            None => return None,
        };
        let tmp = match last_generation_size.checked_add(litters) {
            Some(n) => n,
            None => return None,
        };
        next_last_generation_size = last_generation_size;
        last_generation_size = tmp;
        g = g + 1;
    }
    if generations < 2 {
        assert(population(generations as nat, k) == 1);
        assert(population(2, k) == 1);
    } else {
        assert(g == generations);
    }
    Some(last_generation_size)
}

} // verus!
