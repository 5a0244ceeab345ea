//! Congruences between integers.
use vstd::arithmetic::div_mod::*;
use vstd::arithmetic::mul::*;
use vstd::arithmetic::power::*;
use vstd::prelude::*;

verus! {

/// `a` and `b` leave the same remainder modulo `m`.
pub open spec fn congruent(a: int, b: int, m: int) -> bool {
    a % m == b % m
}

/// Congruences may be added, subtracted and multiplied side by side.
pub proof fn lemma_congruent_ops(a: int, b: int, c: int, d: int, m: int)
    requires
        m > 0,
        congruent(a, b, m),
        congruent(c, d, m),
    ensures
        congruent(a + c, b + d, m),
        congruent(a - c, b - d, m),
        congruent(a * c, b * d, m),
{
    lemma_add_mod_noop(a, c, m);
    lemma_add_mod_noop(b, d, m);
    lemma_sub_mod_noop(a, c, m);
    lemma_sub_mod_noop(b, d, m);
    lemma_mul_mod_noop(a, c, m);
    lemma_mul_mod_noop(b, d, m);
}

/// A congruence survives raising both sides to the same power.
pub proof fn lemma_congruent_pow(a: int, b: int, e: nat, m: int)
    requires
        m > 0,
        congruent(a, b, m),
    ensures
        congruent(pow(a, e), pow(b, e), m),
{
    lemma_pow_mod_noop(a, e, m);
    lemma_pow_mod_noop(b, e, m);
}

/// Every integer is congruent to its remainder.
pub proof fn lemma_congruent_remainder(a: int, m: int)
    requires
        m > 0,
    ensures
        congruent(a % m, a, m),
        0 <= a % m < m,
{
    lemma_mod_twice(a, m);
    lemma_mod_bound(a, m);
}

/// Adding a multiple of the modulus changes nothing.
pub proof fn lemma_congruent_shift(a: int, k: int, m: int)
    requires
        m > 0,
    ensures
        congruent(a + k * m, a, m),
        congruent(a - k * m, a, m),
{
    lemma_mod_multiples_vanish(k, a, m);
    lemma_mod_multiples_vanish(-k, a, m);
    lemma_mul_is_commutative(k, m);
    lemma_mul_unary_negation(m, k);
    assert(m * (-k) == -(m * k));
}

/// Congruent integers differ by a multiple of the modulus.
pub proof fn lemma_congruent_difference(a: int, b: int, m: int)
    requires
        m > 0,
    ensures
        congruent(a, b, m) <==> (a - b) % m == 0,
        congruent(a, b, m) ==> a - b == m * ((a - b) / m),
{
    lemma_mod_equivalence(a, b, m);
    lemma_fundamental_div_mod(a - b, m);
}

} // verus!
