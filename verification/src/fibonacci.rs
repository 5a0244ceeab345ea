//! The Fibonacci numbers and the identities behind fast doubling.
use crate::bigint::BigInt;
use crate::bigint::FibError;
use crate::limbs;
use crate::ntt;
use crate::product;
use vstd::arithmetic::div_mod::*;
use vstd::arithmetic::mul::*;
use vstd::arithmetic::power::*;
use vstd::arithmetic::power2::*;
use vstd::prelude::*;

verus! {

/// `F(n)`: 0, 1, and from then on the sum of the two before.
pub open spec fn fibonacci(n: nat) -> nat
    decreases n,
{
    if n < 2 {
        n
    } else {
        fibonacci((n - 1) as nat) + fibonacci((n - 2) as nat)
    }
}

/// The sequence starts with 0 and 1, and every later number is the sum of the
/// two before.
pub proof fn lemma_recurrence(n: nat)
    ensures
        fibonacci(0) == 0,
        fibonacci(1) == 1,
        fibonacci(n + 2) == fibonacci(n + 1) + fibonacci(n),
{
}

/// `F(m + n + 1) = F(m + 1) F(n + 1) + F(m) F(n)`.
pub proof fn lemma_addition(m: nat, n: nat)
    ensures
        fibonacci(m + n + 1) == fibonacci(m + 1) * fibonacci(n + 1) + fibonacci(m) * fibonacci(n),
    decreases m,
{
    let x = fibonacci(n + 1);
    let y = fibonacci(n);
    if m == 0 {
        lemma_mul_basics(x as int);
        lemma_mul_basics(y as int);
    } else if m == 1 {
        assert(fibonacci(2) == fibonacci(1) + fibonacci(0));
        assert(fibonacci(n + 2) == x + y);
        lemma_mul_basics(x as int);
        lemma_mul_basics(y as int);
    } else {
        lemma_addition((m - 1) as nat, n);
        lemma_addition((m - 2) as nat, n);
        let f1 = fibonacci((m - 1) as nat);
        let f2 = fibonacci((m - 2) as nat);
        let f = fibonacci(m);
        assert(fibonacci(m + n + 1) == fibonacci((m - 1) as nat + n + 1) + fibonacci(
            (m - 2) as nat + n + 1,
        ));
        assert((f * x + f1 * y) + (f1 * x + f2 * y) == (f + f1) * x + (f1 + f2) * y)
            by (nonlinear_arith);
    }
}

/// The doubling identities: `F(2k) = F(k) (2 F(k+1) - F(k))` and
/// `F(2k+1) = F(k)^2 + F(k+1)^2`.
pub proof fn lemma_doubling(k: nat)
    ensures
        fibonacci(2 * k) == 2 * (fibonacci(k) * fibonacci(k + 1)) - fibonacci(k) * fibonacci(k),
        fibonacci(2 * k) == fibonacci(k) * (2 * fibonacci(k + 1) - fibonacci(k)),
        fibonacci(2 * k + 1) == fibonacci(k) * fibonacci(k) + fibonacci(k + 1) * fibonacci(k + 1),
{
    let a = fibonacci(k) as int;
    let b = fibonacci(k + 1) as int;
    lemma_addition(k, k);
    if k == 0 {
        lemma_mul_basics(b);
    } else {
        let j = (k - 1) as nat;
        lemma_addition(k, j);
        let c = fibonacci(j) as int;
        assert(b == a + c);
        assert(b * a + a * c == 2 * (a * b) - a * a) by (nonlinear_arith)
            requires
                b == a + c,
        ;
    }
    assert(2 * (a * b) - a * a == a * (2 * b - a)) by (nonlinear_arith);
}

/// The doubling step takes `(F(k), F(k+1))` to `(F(2k), F(2k+1))`, or refuses.
pub proof fn lemma_doubling_step(k: nat, r: Result<(BigInt, BigInt), FibError>)
    requires
        product::is_doubling(r, fibonacci(k), fibonacci(k + 1)),
    ensures
        fibonacci(k) * fibonacci(k) <= 2 * (fibonacci(k) * fibonacci(k + 1)),
        match r {
            Ok((x, y)) => x@ == fibonacci(2 * k) && y@ == fibonacci(2 * k + 1),
            Err(_) => limbs::limb_count(fibonacci(k + 1)) > 0x40_0000,
        },
{
    let a = fibonacci(k);
    let b = fibonacci(k + 1);
    lemma_growth(k);
    lemma_doubling(k);
    lemma_transform_log(a, b);
    assert(a * a <= 2 * (a * b)) by (nonlinear_arith)
        requires
            a <= b,
    ;
}

/// The sequence never falls, and from `F(1)` on it at most doubles.
pub proof fn lemma_growth(n: nat)
    ensures
        fibonacci(n) <= fibonacci(n + 1),
        n > 0 ==> 0 < fibonacci(n),
        n > 0 ==> fibonacci(n + 1) <= 2 * fibonacci(n),
    decreases n,
{
    if n > 0 {
        lemma_growth((n - 1) as nat);
        assert(fibonacci(n + 1) == fibonacci(n) + fibonacci((n - 1) as nat));
    }
}

pub proof fn lemma_monotone(m: nat, n: nat)
    requires
        m <= n,
    ensures
        fibonacci(m) <= fibonacci(n),
    decreases n,
{
    if m < n {
        lemma_monotone(m, (n - 1) as nat);
        lemma_growth((n - 1) as nat);
    }
}

/// The base-2 logarithm of the transform size at which the computation of
/// `F(k)` has to stop, or `None` if it goes through.
///
/// The computation doubles its way along the leading bits of `k`; the first
/// step whose operands need too large a transform ends it.
pub open spec fn refusal(k: nat) -> Option<nat>
    decreases k,
{
    if k < 17 {
        None
    } else {
        match refusal(k / 2) {
            Some(l) => Some(l),
            None => {
                let l = product::transform_log(fibonacci(k / 2), fibonacci(k / 2 + 1));
                if l > ntt::MAX_LOG_N {
                    Some(l)
                } else {
                    None
                }
            },
        }
    }
}

/// A step is refused exactly when an operand has more than `2^22` limbs.
pub proof fn lemma_transform_log(a: nat, b: nat)
    requires
        a <= b,
    ensures
        product::transform_log(a, b) <= ntt::MAX_LOG_N <==> limbs::limb_count(b) <= 0x40_0000,
{
    let m = product::operand_limbs(a, b);
    limbs::lemma_limb_count_monotone(a, b);
    ntt::lemma_ceil_log(2 * m, 23);
    lemma2_to64();
}

/// What is refused for the leading bits is refused for the whole index.
pub proof fn lemma_refusal_prefix(n: nat, i: nat)
    requires
        refusal(n / pow2(i)) is Some,
    ensures
        refusal(n) == refusal(n / pow2(i)),
    decreases i,
{
    lemma2_to64();
    if i == 0 {
        assert(n / pow2(0) == n);
    } else {
        let j = (i - 1) as nat;
        lemma_pow2_unfold(i);
        lemma_pow2_pos(j);
        lemma_div_denominator(n as int, pow2(j) as int, 2);
        lemma_mul_is_commutative(pow2(j) as int, 2);
        let m = n / pow2(j);
        assert(m / 2 == n / pow2(i));
        assert(m >= 17) by {
            if m < 17 {
                assert(m / 2 < 17);
            }
        }
        lemma_refusal_prefix(n, j);
    }
}

/// The computation of `F(n)` is refused exactly when the operands of its last
/// doubling have more than `2^22` limbs.
pub proof fn lemma_refusal(n: nat)
    ensures
        n >= 17 ==> (refusal(n) is None <==> limbs::limb_count(fibonacci(n / 2 + 1)) <= 0x40_0000),
    decreases n,
{
    if n >= 17 {
        let k = n / 2;
        lemma_growth(k);
        lemma_transform_log(fibonacci(k), fibonacci(k + 1));
        if k >= 17 {
            lemma_refusal(k);
            lemma_monotone(k / 2 + 1, k + 1);
            limbs::lemma_limb_count_monotone(fibonacci(k / 2 + 1), fibonacci(k + 1));
        } else {
            assert(refusal(k) is None);
        }
    }
}

/// If `F(m)` is refused then so is every later number of the sequence.
pub proof fn lemma_refusal_monotone(m: nat, n: nat)
    requires
        m <= n,
        refusal(m) is Some,
    ensures
        refusal(n) is Some,
{
    lemma_refusal(m);
    lemma_refusal(n);
    lemma_monotone(m / 2 + 1, n / 2 + 1);
    limbs::lemma_limb_count_monotone(fibonacci(m / 2 + 1), fibonacci(n / 2 + 1));
}

/// The computation of `F(n)` cannot get past the leading bits `n / 2^i`: they
/// are the shortest prefix `k` for which `F(k+1)` has more than `2^22` limbs.
pub open spec fn stops_at(n: nat, i: nat) -> bool {
    &&& i > 0
    &&& limbs::limb_count(fibonacci(n / pow2(i) + 1)) > 0x40_0000
    &&& forall|j: nat|
        j > i ==> limbs::limb_count(fibonacci(#[trigger] (n / pow2(j)) + 1)) <= 0x40_0000
}

/// `2^l` is the smallest power of two that holds twice the limbs of the
/// operand `F(k+1)` at which the computation of `F(n)` stops, and it is more
/// than the limit.
pub open spec fn stops_with(n: nat, l: nat) -> bool {
    &&& l > ntt::MAX_LOG_N
    &&& exists|i: nat| #[trigger]
        stops_at(n, i) && pow2((l - 1) as nat) < 2 * limbs::limb_count(
            fibonacci(n / pow2(i) + 1),
        ) <= pow2(l)
}

proof fn lemma_small_operand(k: nat)
    requires
        k <= 17,
    ensures
        limbs::limb_count(fibonacci(k)) <= 1,
{
    reveal_with_fuel(fibonacci, 18);
    lemma_monotone(k, 17);
    limbs::lemma_base_pow_step(0);
    limbs::lemma_limb_count(fibonacci(k), 1);
}

/// The reported size belongs to the first operand that is too long: it is the
/// least that holds twice its limbs.
pub proof fn lemma_refusal_size(n: nat, i: nat)
    requires
        stops_at(n, i),
    ensures
        refusal(n) matches Some(l) && l > ntt::MAX_LOG_N && pow2((l - 1) as nat) < 2
            * limbs::limb_count(fibonacci(n / pow2(i) + 1)) <= pow2(l),
{
    let j = (i - 1) as nat;
    let k = n / pow2(i);
    let m = n / pow2(j);
    lemma_pow2_unfold(i);
    lemma_pow2_unfold(i + 1);
    lemma_pow2_pos(j);
    lemma_pow2_pos(i);
    lemma_div_denominator(n as int, pow2(j) as int, 2);
    lemma_mul_is_commutative(pow2(j) as int, 2);
    lemma_div_denominator(n as int, pow2(i) as int, 2);
    lemma_mul_is_commutative(pow2(i) as int, 2);
    assert(m / 2 == k);
    assert(k / 2 == n / pow2(i + 1));
    if k < 17 {
        lemma_small_operand(k + 1);
    }
    lemma_refusal(k);
    lemma_growth(k);
    lemma_transform_log(fibonacci(k), fibonacci(k + 1));
    limbs::lemma_limb_count_monotone(fibonacci(k), fibonacci(k + 1));
    let l = product::transform_log(fibonacci(k), fibonacci(k + 1));
    ntt::lemma_ceil_log(2 * limbs::limb_count(fibonacci(k + 1)), l);
    assert(refusal(m) == Some(l));
    lemma_refusal_prefix(n, j);
}

/// A refused computation stops somewhere, and reports the size that it would
/// have needed there.
pub proof fn lemma_refusal_stops(n: nat)
    requires
        refusal(n) is Some,
    ensures
        exists|i: nat| stops_at(n, i),
        stops_with(n, refusal(n)->Some_0),
    decreases n,
{
    let k = n / 2;
    lemma2_to64();
    assert forall|j: nat| j > 0 implies #[trigger] (n / pow2(j)) == k / pow2((j - 1) as nat) by {
        let h = (j - 1) as nat;
        lemma_pow2_unfold(j);
        lemma_pow2_pos(h);
        lemma_div_denominator(n as int, 2, pow2(h) as int);
    }
    if refusal(k) is Some {
        lemma_refusal_stops(k);
        let i = choose|i: nat| stops_at(k, i);
        assert(n / pow2(i + 1) == k / pow2(i));
        assert forall|j: nat| j > i + 1 implies limbs::limb_count(
            fibonacci(#[trigger] (n / pow2(j)) + 1),
        ) <= 0x40_0000 by {
            let h = (j - 1) as nat;
            assert(n / pow2(j) == k / pow2(h));
        }
        assert(stops_at(n, i + 1));
    } else {
        lemma_refusal(n);
        lemma_refusal(k);
        assert(n / pow2(1) == k);
        if k < 17 {
            lemma_small_operand(k / 2 + 1);
        }
        assert forall|j: nat| j > 1 implies limbs::limb_count(
            fibonacci(#[trigger] (n / pow2(j)) + 1),
        ) <= 0x40_0000 by {
            let h = (j - 2) as nat;
            lemma_pow2_unfold((j - 1) as nat);
            lemma_pow2_pos(h);
            lemma_div_denominator(k as int, 2, pow2(h) as int);
            lemma_div_is_ordered_by_denominator((k / 2) as int, 1, pow2(h) as int);
            assert(n / pow2(j) <= k / 2);
            lemma_monotone(n / pow2(j) + 1, k / 2 + 1);
            limbs::lemma_limb_count_monotone(
                fibonacci(n / pow2(j) + 1),
                fibonacci(k / 2 + 1),
            );
        }
        assert(stops_at(n, 1));
    }
    let i = choose|i: nat| stops_at(n, i);
    lemma_refusal_size(n, i);
}

} // verus!
