//! Greatest common divisor and least common multiple on the integer
//! substrate that rate normalization runs on.
use vstd::prelude::*;
use vstd::arithmetic::div_mod::{
    lemma_div_is_ordered_by_denominator, lemma_div_multiples_vanish, lemma_mod_decreases,
    lemma_mod_is_zero,
};

verus! {

/// Mathematical greatest common divisor, by Euclid's recursion.
pub open spec fn spec_gcd(a: nat, b: nat) -> nat
    decreases b,
{
    if b == 0 {
        a
    } else {
        spec_gcd(b, a % b)
    }
}

/// Mathematical least common multiple of two positive integers.
pub open spec fn spec_lcm(a: int, b: int) -> int {
    a * b / (spec_gcd(a as nat, b as nat) as int)
}

/// Relies on `gcd::Gcd::gcd` for `u128`: it returns the greatest common
/// divisor of its two arguments, the value Euclid's recursion yields.
#[verifier::external_body]
fn gcd_u128(a: u128, b: u128) -> (r: u128)
    ensures
        r == spec_gcd(a as nat, b as nat),
{
    gcd::Gcd::gcd(a, b)
}

/// For a positive second argument the divisor lies between one and that
/// argument.
pub proof fn lemma_gcd_bounds(a: nat, b: nat)
    requires
        b > 0,
    ensures
        1 <= spec_gcd(a, b) <= b,
    decreases b,
{
    if a % b == 0 {
        assert(spec_gcd(a, b) == spec_gcd(b, 0nat));
    } else {
        lemma_mod_decreases(a, b);
        lemma_gcd_bounds(b, a % b);
    }
}

/// For a positive first argument the divisor is at most that argument.
pub proof fn lemma_gcd_le_left(a: nat, b: nat)
    requires
        a > 0,
    ensures
        1 <= spec_gcd(a, b) <= a,
{
    if b == 0 {
    } else {
        if a % b == 0 {
            lemma_mod_is_zero(a, b);
            assert(spec_gcd(a, b) == spec_gcd(b, 0nat));
        } else {
            lemma_gcd_bounds(b, a % b);
            lemma_mod_decreases(a, b);
        }
    }
}

/// The least common multiple of two positive integers is at least each
/// of them.
pub proof fn lemma_lcm_ge(a: int, b: int)
    requires
        a >= 1,
        b >= 1,
    ensures
        spec_lcm(a, b) >= a,
        spec_lcm(a, b) >= b,
{
    let g = spec_gcd(a as nat, b as nat) as int;
    lemma_gcd_bounds(a as nat, b as nat);
    lemma_gcd_le_left(a as nat, b as nat);
    lemma_div_is_ordered_by_denominator(a * b, g, b);
    lemma_div_multiples_vanish(a, b);
    assert(a * b / b == a) by {
        assert(a * b == b * a) by (nonlinear_arith);
    }
    lemma_div_is_ordered_by_denominator(a * b, g, a);
    lemma_div_multiples_vanish(b, a);
    assert(a * b >= 0) by (nonlinear_arith)
        requires a >= 1 && b >= 1;
}

/// One folding step of the common-multiple computation: either the exact
/// least common multiple, or a report that it exceeds what a machine
/// word can hold.
pub fn lcm_step(a: u128, b: u128) -> (r: Option<u128>)
    requires
        a >= 1,
        b >= 1,
    ensures
        match r {
            Some(l) => l as int == spec_lcm(a as int, b as int) && l >= 1,
            None => spec_lcm(a as int, b as int) > usize::MAX as int,
        },
{
    proof {
        lemma_gcd_bounds(a as nat, b as nat);
        lemma_gcd_le_left(a as nat, b as nat);
        lemma_lcm_ge(a as int, b as int);
    }
    let g = gcd_u128(a, b);
    match a.checked_mul(b) {
        Some(p) => Some(p / g),
        None => {
            proof {
                assert(a as int * b as int > u128::MAX as int);
                assert(a as int > u64::MAX as int || b as int > u64::MAX as int) by (nonlinear_arith)
                    requires
                        a as int * b as int > u128::MAX as int,
                        a as int <= u128::MAX as int,
                        b as int <= u128::MAX as int,
                        (u64::MAX as int) * (u64::MAX as int) < (u128::MAX as int);
                assert(usize::MAX as int <= u64::MAX as int);
            }
            None
        },
    }
}

} // verus!
