//! Prime numbers: Fermat's little theorem and a primality criterion for
//! numbers of the form `k * 2^e + 1`.
use crate::modular;
use vstd::arithmetic::div_mod::*;
use vstd::arithmetic::mul::*;
use vstd::arithmetic::power::*;
use vstd::arithmetic::power2::*;
use vstd::prelude::*;
use vstd::set_lib::*;

verus! {

/// `n` has no divisors but 1 and itself.
pub open spec fn is_prime(n: int) -> bool {
    &&& n > 1
    &&& forall|d: int| 1 < d < n ==> #[trigger] (n % d) != 0
}

/// The product of all members of a sequence.
pub open spec fn product(s: Seq<int>) -> int
    decreases s.len(),
{
    if s.len() == 0 {
        1
    } else {
        product(s.drop_last()) * s.last()
    }
}

/// A prime that divides a product divides one of its factors.
pub proof fn lemma_euclid(a: int, b: int, p: int)
    requires
        is_prime(p),
        (a * b) % p == 0,
        a % p != 0,
    ensures
        b % p == 0,
{
    modular::lemma_congruent_remainder(a, p);
    modular::lemma_congruent_ops(a % p, a, b, b, p);
    lemma_euclid_small(a % p, b, p);
}

proof fn lemma_euclid_small(a: int, b: int, p: int)
    requires
        is_prime(p),
        0 < a < p,
        (a * b) % p == 0,
    ensures
        b % p == 0,
    decreases a,
{
    if a == 1 {
        lemma_mul_basics(b);
    } else {
        let q = p / a;
        let r = p % a;
        lemma_fundamental_div_mod(p, a);
        lemma_mod_bound(p, a);
        assert(r != 0);
        assert(r * b == b * p - q * (a * b)) by (nonlinear_arith)
            requires
                p == a * q + r,
        ;
        modular::lemma_congruent_shift(0, b, p);
        modular::lemma_congruent_ops(q, q, a * b, 0, p);
        modular::lemma_congruent_ops(b * p, 0, q * (a * b), 0, p);
        lemma_mul_by_zero_is_zero(q);
        lemma_small_mod(0, p as nat);
        lemma_euclid_small(r, b, p);
    }
}

proof fn lemma_product_remove(t: Seq<int>, i: int)
    requires
        0 <= i < t.len(),
    ensures
        product(t) == product(t.remove(i)) * t[i],
    decreases t.len(),
{
    let r = t.remove(i);
    if i == t.len() - 1 {
        assert(r =~= t.drop_last());
    } else {
        let u = t.drop_last();
        lemma_product_remove(u, i);
        assert(r.drop_last() =~= u.remove(i));
        assert(r.last() == t.last());
        let x = product(u.remove(i));
        let y = t[i];
        let z = t.last();
        assert((x * y) * z == (x * z) * y) by (nonlinear_arith);
    }
}

proof fn lemma_product_same_members(s: Seq<int>, t: Seq<int>)
    requires
        s.len() == t.len(),
        s.no_duplicates(),
        forall|i: int| 0 <= i < s.len() ==> t.contains(#[trigger] s[i]),
    ensures
        product(s) == product(t),
    decreases s.len(),
{
    if s.len() > 0 {
        let x = s.last();
        assert(t.contains(s[s.len() - 1]));
        let i = t.index_of(x);
        let rs = s.drop_last();
        let rt = t.remove(i);
        assert forall|j: int| 0 <= j < rs.len() implies rt.contains(#[trigger] rs[j]) by {
            assert(t.contains(s[j]));
            let k = t.index_of(s[j]);
            assert(k != i);
            if k < i {
                assert(rt[k] == s[j]);
            } else {
                assert(rt[k - 1] == s[j]);
            }
        }
        lemma_product_same_members(rs, rt);
        lemma_product_remove(t, i);
    }
}

/// `1, 2, .., n`.
spec fn naturals(n: nat) -> Seq<int> {
    Seq::new(n, |i: int| i + 1)
}

/// The remainders modulo `p` of `a, 2a, .., na`.
spec fn multiples(a: int, n: nat, p: int) -> Seq<int> {
    Seq::new(n, |i: int| (a * (i + 1)) % p)
}

proof fn lemma_product_multiples(a: int, n: nat, p: int)
    requires
        p > 0,
    ensures
        modular::congruent(
            product(multiples(a, n, p)),
            pow(a, n) * product(naturals(n)),
            p,
        ),
    decreases n,
{
    if n == 0 {
        lemma_pow0(a);
    } else {
        let m = (n - 1) as nat;
        lemma_product_multiples(a, m, p);
        assert(multiples(a, n, p).drop_last() =~= multiples(a, m, p));
        assert(naturals(n).drop_last() =~= naturals(m));
        modular::lemma_congruent_remainder(a * n, p);
        modular::lemma_congruent_ops(
            product(multiples(a, m, p)),
            pow(a, m) * product(naturals(m)),
            (a * n) % p,
            a * n,
            p,
        );
        lemma_pow_adds(a, m, 1);
        lemma_pow1(a);
        let x = pow(a, m);
        let f = product(naturals(m));
        assert((x * f) * (a * n) == (x * a) * (f * n)) by (nonlinear_arith);
    }
}

proof fn lemma_factorial_not_divisible(n: nat, p: int)
    requires
        is_prime(p),
        n < p,
    ensures
        product(naturals(n)) % p != 0,
    decreases n,
{
    if n == 0 {
        lemma_small_mod(1, p as nat);
    } else {
        let m = (n - 1) as nat;
        lemma_factorial_not_divisible(m, p);
        assert(naturals(n).drop_last() =~= naturals(m));
        lemma_small_mod(n, p as nat);
        if product(naturals(n)) % p == 0 {
            lemma_euclid(product(naturals(m)), n as int, p);
        }
    }
}

/// Fermat's little theorem: `a^(p-1)` is 1 modulo the prime `p` unless `p`
/// divides `a`.
pub proof fn lemma_fermat(a: int, p: int)
    requires
        is_prime(p),
        a % p != 0,
    ensures
        pow(a, (p - 1) as nat) % p == 1,
{
    let n = (p - 1) as nat;
    let s = multiples(a, n, p);
    let t = naturals(n);
    assert forall|i: int| 0 <= i < n implies 0 < #[trigger] s[i] < p by {
        lemma_mod_bound(a * (i + 1), p);
        if s[i] == 0 {
            lemma_euclid(a, i + 1, p);
            lemma_small_mod((i + 1) as nat, p as nat);
        }
    }
    assert forall|i: int, j: int| 0 <= i < j < n implies s[i] != s[j] by {
        if s[i] == s[j] {
            modular::lemma_congruent_difference(a * (j + 1), a * (i + 1), p);
            lemma_mul_is_distributive_sub(a, j + 1, i + 1);
            lemma_euclid(a, j - i, p);
            lemma_small_mod((j - i) as nat, p as nat);
        }
    }
    assert forall|i: int| 0 <= i < s.len() implies t.contains(#[trigger] s[i]) by {
        assert(t[s[i] - 1] == s[i]);
    }
    lemma_product_same_members(s, t);
    lemma_product_multiples(a, n, p);
    let f = product(t);
    let x = pow(a, n);
    modular::lemma_congruent_difference(x * f, f, p);
    assert(x * f - f == f * (x - 1)) by (nonlinear_arith);
    lemma_factorial_not_divisible(n, p);
    lemma_euclid(f, x - 1, p);
    modular::lemma_congruent_difference(x, 1, p);
    lemma_small_mod(1, p as nat);
}

/// Where `h^(2^(e-1))` is -1, no smaller power than `h^(2^e)` is 1.
pub proof fn lemma_order(h: int, d: int, e: nat, t: nat)
    requires
        d > 2,
        e > 0,
        modular::congruent(pow(h, pow2((e - 1) as nat)), -1, d),
        0 < t < pow2(e),
    ensures
        !modular::congruent(pow(h, t), 1, d),
    decreases e,
{
    let q = pow2((e - 1) as nat);
    lemma_pow2_unfold(e);
    if modular::congruent(pow(h, t), 1, d) {
        if t % 2 == 1 {
            modular::lemma_congruent_pow(pow(h, t), 1, q, d);
            lemma1_pow(q);
            modular::lemma_congruent_pow(pow(h, q), -1, t, d);
            lemma_pow_multiplies(h, t, q);
            lemma_pow_multiplies(h, q, t);
            lemma_mul_is_commutative(q as int, t as int);
            lemma_pow_minus_one(t);
            modular::lemma_congruent_difference(1, -1, d);
            lemma_small_mod(2, d as nat);
        } else {
            let s = (t / 2) as nat;
            lemma2_to64();
            assert(e > 1);
            lemma_pow2_unfold((e - 1) as nat);
            lemma_pow_multiplies(h, 2, pow2((e - 2) as nat));
            lemma_pow_multiplies(h, 2, s);
            lemma_order(pow(h, 2), d, (e - 1) as nat, s);
        }
    }
}

pub proof fn lemma_pow_minus_one(t: nat)
    ensures
        t % 2 == 1 ==> pow(-1, t) == -1,
        t % 2 == 0 ==> pow(-1, t) == 1,
    decreases t,
{
    lemma_pow0(-1);
    if t > 0 {
        lemma_pow_minus_one((t - 1) as nat);
        lemma_pow_adds(-1, 1, (t - 1) as nat);
        lemma_pow1(-1);
    }
}

proof fn lemma_distinct_count(s: Seq<int>, d: int)
    requires
        d > 0,
        s.no_duplicates(),
        forall|i: int| 0 <= i < s.len() ==> 0 < #[trigger] s[i] < d,
    ensures
        s.len() < d,
{
    s.unique_seq_to_set();
    lemma_int_range(1, d);
    assert(s.to_set().subset_of(set_int_range(1, d))) by {
        assert forall|x: int| s.to_set().contains(x) implies set_int_range(1, d).contains(x) by {
            let i = s.index_of(x);
            assert(s[i] == x);
        }
    }
    lemma_len_subset(s.to_set(), set_int_range(1, d));
}

proof fn lemma_proth_divisor(n: int, k: nat, e: nat, a: int, d: int)
    requires
        e > 0,
        n == k * pow2(e) + 1,
        modular::congruent(pow(a, ((n - 1) / 2) as nat), -1, n),
        d > 1,
        n % d == 0,
    ensures
        d > pow2(e),
{
    let q = pow2((e - 1) as nat);
    let c = pow2(e);
    lemma_pow2_unfold(e);
    lemma_pow2_pos((e - 1) as nat);
    let h = pow(a, k);
    lemma_fundamental_div_mod(n, d);
    let m = n / d;
    assert(d != 2) by {
        if d == 2 {
            assert((k * c) % 2 == 0) by {
                assert(k * c == (k * q) * 2) by (nonlinear_arith)
                    requires
                        c == 2 * q,
                ;
            }
        }
    }
    assert(modular::congruent(pow(h, q), -1, d)) by {
        assert((n - 1) / 2 == k * q) by {
            assert(k * c == (k * q) * 2) by (nonlinear_arith)
                requires
                    c == 2 * q,
            ;
        }
        lemma_pow_multiplies(a, k, q);
        modular::lemma_congruent_difference(pow(h, q), -1, n);
        let z = (pow(h, q) + 1) / n;
        assert(pow(h, q) == -1 + (m * z) * d) by (nonlinear_arith)
            requires
                pow(h, q) + 1 == n * z,
                n == d * m,
        ;
        modular::lemma_congruent_shift(-1, m * z, d);
    }
    assert(modular::congruent(pow(h, c), 1, d)) by {
        lemma_pow_adds(h, q, q);
        modular::lemma_congruent_ops(pow(h, q), -1, pow(h, q), -1, d);
    }
    lemma_small_mod(1, d as nat);
    lemma_small_mod(0, d as nat);
    let s = Seq::new(c, |i: int| pow(h, i as nat) % d);
    assert forall|i: int| 0 <= i < s.len() implies 0 < #[trigger] s[i] < d by {
        lemma_mod_bound(pow(h, i as nat), d);
        let rest = pow(h, (c - i) as nat);
        lemma_pow_adds(h, i as nat, (c - i) as nat);
        if s[i] == 0 {
            modular::lemma_congruent_ops(pow(h, i as nat), 0, rest, rest, d);
            lemma_mul_by_zero_is_zero(rest);
        }
    }
    assert forall|i: int, j: int| 0 <= i < j < s.len() implies s[i] != s[j] by {
        if s[i] == s[j] {
            let rest = pow(h, (c - i) as nat);
            modular::lemma_congruent_ops(pow(h, i as nat), pow(h, j as nat), rest, rest, d);
            lemma_pow_adds(h, i as nat, (c - i) as nat);
            lemma_pow_adds(h, j as nat, (c - i) as nat);
            lemma_pow_adds(h, c, (j - i) as nat);
            modular::lemma_congruent_ops(
                pow(h, c),
                1,
                pow(h, (j - i) as nat),
                pow(h, (j - i) as nat),
                d,
            );
            lemma_order(h, d, e, (j - i) as nat);
        }
    }
    lemma_distinct_count(s, d);
}

/// Proth's criterion: `n = k * 2^e + 1` with `k < 2^e` is prime as soon as
/// some `a^((n-1)/2)` is -1 modulo `n`.
pub proof fn lemma_proth(n: int, k: nat, e: nat, a: int)
    requires
        e > 0,
        0 < k < pow2(e),
        n == k * pow2(e) + 1,
        modular::congruent(pow(a, ((n - 1) / 2) as nat), -1, n),
    ensures
        is_prime(n),
{
    let c = pow2(e);
    assert(n > 1) by (nonlinear_arith)
        requires
            0 < k < c,
            n == k * c + 1,
    ;
    assert forall|d: int| 1 < d < n implies #[trigger] (n % d) != 0 by {
        if n % d == 0 {
            lemma_fundamental_div_mod(n, d);
            let m = n / d;
            lemma_proth_divisor(n, k, e, a, d);
            assert(m > 1) by (nonlinear_arith)
                requires
                    n == d * m,
                    1 < d < n,
            ;
            assert(n % m == 0) by {
                modular::lemma_congruent_shift(0, d, m);
                lemma_small_mod(0, m as nat);
                lemma_mul_is_commutative(d, m);
            }
            lemma_proth_divisor(n, k, e, a, m);
            assert(false) by (nonlinear_arith)
                requires
                    n == d * m,
                    d > c,
                    m > c,
                    k < c,
                    n == k * c + 1,
            ;
        }
    }
}

/// Squaring a known power, modulo `m`.
pub proof fn lemma_power_double(b: int, e: nat, r: int, s: int, m: int)
    requires
        m > 0,
        pow(b, e) % m == r,
        (r * r) % m == s,
    ensures
        pow(b, 2 * e) % m == s,
{
    lemma_pow_adds(b, e, e);
    lemma_mul_mod_noop(pow(b, e), pow(b, e), m);
}

/// Squaring a known power and multiplying once more, modulo `m`.
pub proof fn lemma_power_double_add(b: int, e: nat, r: int, s: int, m: int)
    requires
        m > 0,
        pow(b, e) % m == r,
        (r * r * b) % m == s,
    ensures
        pow(b, 2 * e + 1) % m == s,
{
    lemma_pow_adds(b, e, e);
    lemma_pow_adds(b, 2 * e, 1);
    lemma_pow1(b);
    lemma_mul_mod_noop(pow(b, e), pow(b, e), m);
    lemma_mul_mod_noop_left(pow(b, 2 * e), b, m);
    lemma_mul_mod_noop_left(r * r, b, m);
}

} // verus!
