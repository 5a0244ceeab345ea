//! Positional notation in base `10^9`, least significant limb first.
use crate::ntt;
use crate::poly;
use vstd::arithmetic::div_mod::*;
use vstd::arithmetic::mul::*;
use vstd::arithmetic::power::*;
use vstd::prelude::*;

verus! {

/// Limb base: each limb holds 9 decimal digits (`< 1_000_000_000`).
pub const LIMB_BASE: u64 = 1_000_000_000;

/// The base as a mathematical integer.
pub open spec fn base() -> int {
    LIMB_BASE as int
}

/// `base^e`.
pub open spec fn base_pow(e: nat) -> int {
    pow(base(), e)
}

/// The number that a list of limbs stands for.
pub open spec fn value(limbs: Seq<u32>) -> int {
    poly::poly_eval(ntt::ints(limbs), base())
}

/// Every limb is a digit of the base.
pub open spec fn digits(limbs: Seq<u32>) -> bool {
    forall|i: int| 0 <= i < limbs.len() ==> #[trigger] limbs[i] < LIMB_BASE
}

/// Digits of the base without a leading zero.
pub open spec fn canonical(limbs: Seq<u32>) -> bool {
    &&& digits(limbs)
    &&& limbs.len() > 0 ==> limbs.last() != 0
}

/// The limbs of a number, without a leading zero.
pub open spec fn limbs_of(v: nat) -> Seq<u32>
    decreases v,
{
    if v == 0 {
        Seq::empty()
    } else {
        seq![(v % 1_000_000_000) as u32] + limbs_of(v / 1_000_000_000)
    }
}

/// How many limbs a number needs.
pub open spec fn limb_count(v: nat) -> nat {
    limbs_of(v).len()
}

pub proof fn lemma_base_pow_positive(e: nat)
    ensures
        base_pow(e) > 0,
{
    lemma_pow_positive(base(), e);
}

pub proof fn lemma_base_pow_step(e: nat)
    ensures
        base_pow(0) == 1,
        base_pow(e + 1) == base() * base_pow(e),
        base_pow(e + 1) == base_pow(e) * base(),
{
    lemma_pow0(base());
    lemma_pow_adds(base(), 1, e);
    lemma_pow1(base());
    lemma_mul_is_commutative(base(), base_pow(e));
}

pub proof fn lemma_base_pow_monotone(a: nat, b: nat)
    requires
        a <= b,
    ensures
        base_pow(a) <= base_pow(b),
{
    lemma_pow_increases(LIMB_BASE as nat, a, b);
}

pub proof fn lemma_value_empty()
    ensures
        value(Seq::<u32>::empty()) == 0,
{
}

pub proof fn lemma_value_push(s: Seq<u32>, x: u32)
    ensures
        value(s.push(x)) == value(s) + x * base_pow(s.len()),
{
    assert(ntt::ints(s.push(x)) =~= ntt::ints(s).push(x as int));
    poly::lemma_eval_push(ntt::ints(s), x as int, base());
}

/// The value of a prefix that is one limb longer.
pub proof fn lemma_value_take(s: Seq<u32>, i: int)
    requires
        0 <= i < s.len(),
    ensures
        value(s.take(i + 1)) == value(s.take(i)) + s[i] * base_pow(i as nat),
{
    assert(s.take(i + 1) =~= s.take(i).push(s[i]));
    lemma_value_push(s.take(i), s[i]);
}

pub proof fn lemma_value_bound(s: Seq<u32>)
    requires
        digits(s),
    ensures
        0 <= value(s) < base_pow(s.len()),
{
    assert forall|i: int| 0 <= i < ntt::ints(s).len() implies 0 <= #[trigger] ntt::ints(s)[i]
        < base() by {
        assert(s[i] < LIMB_BASE);
    }
    poly::lemma_eval_digits_bound(ntt::ints(s), base());
}

/// A list of digits without a leading zero reaches the top power.
pub proof fn lemma_value_top(s: Seq<u32>)
    requires
        digits(s),
        s.len() > 0,
    ensures
        s.last() != 0 <==> value(s) >= base_pow((s.len() - 1) as nat),
{
    let r = s.drop_last();
    assert forall|i: int| 0 <= i < r.len() implies #[trigger] r[i] < LIMB_BASE by {
        assert(s[i] < LIMB_BASE);
    }
    assert(s =~= r.push(s.last()));
    lemma_value_push(r, s.last());
    lemma_value_bound(r);
    let q = base_pow(r.len());
    let x = s.last() as int;
    if x == 0 {
        assert(x * q == 0) by (nonlinear_arith)
            requires
                x == 0,
        ;
    } else {
        assert(x * q >= q) by (nonlinear_arith)
            requires
                x >= 1,
                q > 0,
        ;
    }
}

/// The lowest limb is the remainder, the others are the quotient.
pub proof fn lemma_value_split(s: Seq<u32>)
    requires
        digits(s),
        s.len() > 0,
    ensures
        value(s) == s[0] + base() * value(s.drop_first()),
        value(s) % base() == s[0],
        value(s) / base() == value(s.drop_first()),
        digits(s.drop_first()),
{
    let r = s.drop_first();
    assert(ntt::ints(s).drop_first() =~= ntt::ints(r));
    assert(s[0] < LIMB_BASE);
    lemma_fundamental_div_mod_converse(value(s), base(), value(r), s[0] as int);
    assert forall|i: int| 0 <= i < r.len() implies #[trigger] r[i] < LIMB_BASE by {
        assert(s[i + 1] < LIMB_BASE);
    }
}

/// Canonical limbs are the limbs of their value: a number has exactly one
/// representation.
pub proof fn lemma_canonical(s: Seq<u32>)
    requires
        canonical(s),
    ensures
        value(s) >= 0,
        s == limbs_of(value(s) as nat),
    decreases s.len(),
{
    lemma_value_bound(s);
    if s.len() > 0 {
        let r = s.drop_first();
        lemma_value_split(s);
        lemma_value_top(s);
        lemma_base_pow_positive((s.len() - 1) as nat);
        assert(canonical(r)) by {
            if r.len() > 0 {
                assert(r.last() == s.last());
            }
        }
        lemma_canonical(r);
        assert(s =~= seq![s[0]] + r);
    }
}

/// Two canonical lists of limbs with the same value are the same list.
pub proof fn lemma_canonical_unique(a: Seq<u32>, b: Seq<u32>)
    requires
        canonical(a),
        canonical(b),
        value(a) == value(b),
    ensures
        a == b,
{
    lemma_canonical(a);
    lemma_canonical(b);
}

/// The limbs of a number are canonical and stand for it.
pub proof fn lemma_limbs_of(v: nat)
    ensures
        canonical(limbs_of(v)),
        value(limbs_of(v)) == v,
        v > 0 ==> limb_count(v) > 0 && base_pow((limb_count(v) - 1) as nat) <= v,
        v < base_pow(limb_count(v)),
    decreases v,
{
    let s = limbs_of(v);
    if v > 0 {
        let q = v / 1_000_000_000;
        let x = (v % 1_000_000_000) as u32;
        let r = limbs_of(q);
        lemma_limbs_of(q);
        assert(s.drop_first() =~= r);
        assert forall|i: int| 0 <= i < s.len() implies #[trigger] s[i] < LIMB_BASE by {
            if i > 0 {
                assert(s[i] == r[i - 1]);
                assert(r[i - 1] < LIMB_BASE);
            }
        }
        lemma_value_split(s);
        if q > 0 {
            assert(s.last() == r.last());
        } else {
            assert(r.len() == 0);
        }
        lemma_value_top(s);
    }
    lemma_value_bound(s);
}

/// A number has at most `n` limbs exactly when it is below `base^n`.
pub proof fn lemma_limb_count(v: nat, n: nat)
    ensures
        limb_count(v) <= n <==> v < base_pow(n),
{
    lemma_limbs_of(v);
    let c = limb_count(v);
    if c <= n {
        lemma_base_pow_monotone(c, n);
    } else {
        lemma_base_pow_monotone(n, (c - 1) as nat);
    }
}

/// Larger numbers need at least as many limbs.
pub proof fn lemma_limb_count_monotone(a: nat, b: nat)
    requires
        a <= b,
    ensures
        limb_count(a) <= limb_count(b),
{
    lemma_limb_count(b, limb_count(b));
    lemma_limb_count(a, limb_count(b));
}

} // verus!
