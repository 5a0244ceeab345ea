//! Garner's mixed-radix form of the Chinese remainder theorem for the three
//! transform primes.
use crate::field;
use crate::modular;
use crate::ntt;
use vstd::arithmetic::div_mod::*;
use vstd::arithmetic::mul::*;
use vstd::arithmetic::power::*;
use vstd::prelude::*;

verus! {

/// `P1 * P2`.
pub open spec fn two_primes() -> int {
    ntt::P1 * ntt::P2
}

/// `P1 * P2 * P3`: residues tell apart the numbers below this.
pub open spec fn three_primes() -> int {
    two_primes() * ntt::P3
}

/// `P1^-1 mod P2`.
pub open spec fn inverse_p1() -> int {
    pow(ntt::P1 as int, (ntt::P2 - 2) as nat) % (ntt::P2 as int)
}

/// `(P1 * P2)^-1 mod P3`.
pub open spec fn inverse_p1p2() -> int {
    pow(two_primes() % (ntt::P3 as int), (ntt::P3 - 2) as nat) % (ntt::P3 as int)
}

/// The second mixed-radix digit.
pub open spec fn second_digit(r1: int, r2: int) -> int {
    ((r2 - r1) * inverse_p1()) % (ntt::P2 as int)
}

/// The number below `P1 * P2` with the first two residues.
pub open spec fn partial(r1: int, r2: int) -> int {
    r1 + ntt::P1 * second_digit(r1, r2)
}

/// The third mixed-radix digit.
pub open spec fn third_digit(r1: int, r2: int, r3: int) -> int {
    ((r3 - partial(r1, r2)) * inverse_p1p2()) % (ntt::P3 as int)
}

/// The number below `P1 * P2 * P3` with residues `r1`, `r2`, `r3`.
pub open spec fn combined(r1: int, r2: int, r3: int) -> int {
    partial(r1, r2) + two_primes() * third_digit(r1, r2, r3)
}

/// The two constants are inverses.
pub proof fn lemma_inverses()
    ensures
        modular::congruent(ntt::P1 * inverse_p1(), 1, ntt::P2 as int),
        0 <= inverse_p1() < ntt::P2,
        modular::congruent(two_primes() * inverse_p1p2(), 1, ntt::P3 as int),
        0 <= inverse_p1p2() < ntt::P3,
{
    field::lemma_prime_shape(1);
    field::lemma_prime_shape(2);
    field::lemma_transform_primes(1);
    field::lemma_transform_primes(2);
    assert(998_244_353int % 167_772_161 != 0);
    ntt::lemma_mod_inverse(ntt::P1 as int, ntt::P2 as int);
    lemma_mod_bound(pow(ntt::P1 as int, (ntt::P2 - 2) as nat), ntt::P2 as int);
    let p3 = ntt::P3 as int;
    let r = two_primes() % p3;
    assert(two_primes() == 167_477_612_308_856_833);
    assert(r != 0 && 0 <= r < p3);
    lemma_small_mod(r as nat, p3 as nat);
    ntt::lemma_mod_inverse(r, p3);
    lemma_mod_bound(pow(r, (p3 - 2) as nat), p3);
    modular::lemma_congruent_remainder(two_primes(), p3);
    modular::lemma_congruent_ops(r, two_primes(), inverse_p1p2(), inverse_p1p2(), p3);
    lemma_small_mod(1, p3 as nat);
    lemma_small_mod(1, ntt::P2 as nat);
}

/// The digits are digits, and the combination stays below the product of the
/// primes.
pub proof fn lemma_combined_range(r1: int, r2: int, r3: int)
    requires
        0 <= r1 < ntt::P1,
    ensures
        0 <= second_digit(r1, r2) < ntt::P2,
        0 <= partial(r1, r2) < two_primes(),
        0 <= third_digit(r1, r2, r3) < ntt::P3,
        0 <= combined(r1, r2, r3) < three_primes(),
{
    lemma_mod_bound((r2 - r1) * inverse_p1(), ntt::P2 as int);
    lemma_mod_bound((r3 - partial(r1, r2)) * inverse_p1p2(), ntt::P3 as int);
}

/// The combination has the three residues that it was made from.
pub proof fn lemma_combined_residues(r1: int, r2: int, r3: int)
    requires
        0 <= r1 < ntt::P1,
        0 <= r2 < ntt::P2,
        0 <= r3 < ntt::P3,
    ensures
        combined(r1, r2, r3) % (ntt::P1 as int) == r1,
        combined(r1, r2, r3) % (ntt::P2 as int) == r2,
        combined(r1, r2, r3) % (ntt::P3 as int) == r3,
{
    let p1 = ntt::P1 as int;
    let p2 = ntt::P2 as int;
    let p3 = ntt::P3 as int;
    let v2 = second_digit(r1, r2);
    let v3 = third_digit(r1, r2, r3);
    let c = combined(r1, r2, r3);
    lemma_inverses();
    lemma_combined_range(r1, r2, r3);
    // Modulo P1 only r1 is left.
    assert(c == r1 + (v2 + p2 * v3) * p1) by (nonlinear_arith)
        requires
            c == r1 + p1 * v2 + (p1 * p2) * v3,
    ;
    modular::lemma_congruent_shift(r1, v2 + p2 * v3, p1);
    lemma_small_mod(r1 as nat, p1 as nat);
    // Modulo P2 the second digit makes up the difference.
    let i1 = inverse_p1();
    modular::lemma_congruent_remainder((r2 - r1) * i1, p2);
    modular::lemma_congruent_ops(p1, p1, v2, (r2 - r1) * i1, p2);
    modular::lemma_congruent_ops(p1 * i1, 1, r2 - r1, r2 - r1, p2);
    assert(p1 * ((r2 - r1) * i1) == (p1 * i1) * (r2 - r1)) by (nonlinear_arith);
    modular::lemma_congruent_ops(r1, r1, p1 * v2, r2 - r1, p2);
    assert(c == partial(r1, r2) + (p1 * v3) * p2) by (nonlinear_arith)
        requires
            c == partial(r1, r2) + (p1 * p2) * v3,
    ;
    modular::lemma_congruent_shift(partial(r1, r2), p1 * v3, p2);
    lemma_small_mod(r2 as nat, p2 as nat);
    // Modulo P3 the third digit does.
    let m = two_primes();
    let i2 = inverse_p1p2();
    let d = r3 - partial(r1, r2);
    modular::lemma_congruent_remainder(d * i2, p3);
    modular::lemma_congruent_ops(m, m, v3, d * i2, p3);
    modular::lemma_congruent_ops(m * i2, 1, d, d, p3);
    assert(m * (d * i2) == (m * i2) * d) by (nonlinear_arith);
    modular::lemma_congruent_ops(partial(r1, r2), partial(r1, r2), m * v3, d, p3);
    lemma_small_mod(r3 as nat, p3 as nat);
}

/// Every number below the product of the primes is recovered from its
/// residues.
pub proof fn lemma_combined_unique(c: int)
    requires
        0 <= c < three_primes(),
    ensures
        combined(c % (ntt::P1 as int), c % (ntt::P2 as int), c % (ntt::P3 as int)) == c,
{
    let p1 = ntt::P1 as int;
    let p2 = ntt::P2 as int;
    let p3 = ntt::P3 as int;
    let r1 = c % p1;
    let r2 = c % p2;
    let r3 = c % p3;
    let k = c / p1;
    lemma_inverses();
    lemma_fundamental_div_mod(c, p1);
    lemma_mod_bound(c, p1);
    lemma_div_pos_is_pos(c, p1);
    // The second digit is k mod P2.
    let i1 = inverse_p1();
    modular::lemma_congruent_remainder(c, p2);
    modular::lemma_congruent_ops(r2, c, r1, r1, p2);
    modular::lemma_congruent_ops(r2 - r1, c - r1, i1, i1, p2);
    modular::lemma_congruent_ops(p1 * i1, 1, k, k, p2);
    assert((c - r1) * i1 == (p1 * i1) * k) by (nonlinear_arith)
        requires
            c == p1 * k + r1,
    ;
    lemma_mul_basics(k);
    assert(second_digit(r1, r2) == k % p2);
    // What is left is a multiple of P1 * P2.
    let m = k / p2;
    lemma_fundamental_div_mod(k, p2);
    lemma_mod_bound(k, p2);
    lemma_div_pos_is_pos(k, p2);
    let part = partial(r1, r2);
    assert(c == part + two_primes() * m) by (nonlinear_arith)
        requires
            c == p1 * k + r1,
            k == p2 * m + k % p2,
            part == r1 + p1 * (k % p2),
            two_primes() == p1 * p2,
    ;
    assert(part >= 0) by (nonlinear_arith)
        requires
            part == r1 + p1 * (k % p2),
            r1 >= 0,
            k % p2 >= 0,
            p1 >= 0,
    ;
    assert(m < p3) by (nonlinear_arith)
        requires
            c == part + two_primes() * m,
            part >= 0,
            c < two_primes() * p3,
            two_primes() > 0,
    ;
    let i2 = inverse_p1p2();
    let mm = two_primes();
    modular::lemma_congruent_remainder(c, p3);
    modular::lemma_congruent_ops(r3, c, part, part, p3);
    modular::lemma_congruent_ops(r3 - part, c - part, i2, i2, p3);
    modular::lemma_congruent_ops(mm * i2, 1, m, m, p3);
    assert((c - part) * i2 == (mm * i2) * m) by (nonlinear_arith)
        requires
            c == part + mm * m,
    ;
    lemma_mul_basics(m);
    lemma_small_mod(m as nat, p3 as nat);
    assert(third_digit(r1, r2, r3) == m);
}

} // verus!
