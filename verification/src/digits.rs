//! Decimal notation of natural numbers.
use crate::limbs;
use vstd::arithmetic::div_mod::*;
use vstd::arithmetic::mul::*;
use vstd::arithmetic::power::*;
use vstd::prelude::*;

verus! {

/// The character of a decimal digit.
pub open spec fn digit_char(d: nat) -> char {
    (48 + d) as char
}

/// Decimal notation: the shortest one, most significant digit first.
pub open spec fn decimal(v: nat) -> Seq<char>
    decreases v,
{
    if v < 10 {
        seq![digit_char(v)]
    } else {
        decimal(v / 10).push(digit_char(v % 10))
    }
}

/// The number that a list of digits stands for.
pub open spec fn number(s: Seq<char>) -> nat
    decreases s.len(),
{
    if s.len() == 0 {
        0
    } else {
        (10 * number(s.drop_last()) + (s.last() as int - 48)) as nat
    }
}

/// Reading the decimal notation of a number gives the number back.
pub proof fn lemma_number_decimal(v: nat)
    ensures
        number(decimal(v)) == v,
    decreases v,
{
    reveal_with_fuel(number, 2);
    if v < 10 {
        assert(decimal(v).drop_last() =~= Seq::empty());
    } else {
        lemma_number_decimal(v / 10);
        assert(decimal(v).drop_last() =~= decimal(v / 10));
    }
}

/// Decimal notation consists of digits, and only zero begins with a zero.
pub proof fn lemma_decimal_digits(v: nat)
    ensures
        decimal(v).len() > 0,
        forall|i: int| 0 <= i < decimal(v).len() ==> '0' <= #[trigger] decimal(v)[i] <= '9',
        decimal(v)[0] == '0' <==> v == 0,
    decreases v,
{
    if v >= 10 {
        lemma_decimal_digits(v / 10);
    }
}

/// The lowest `k` decimal digits of `v`, with leading zeros.
pub open spec fn padded(v: nat, k: nat) -> Seq<char>
    decreases k,
{
    if k == 0 {
        Seq::empty()
    } else {
        padded(v / 10, (k - 1) as nat).push(digit_char(v % 10))
    }
}

pub proof fn lemma_padded_len(v: nat, k: nat)
    ensures
        padded(v, k).len() == k,
    decreases k,
{
    if k > 0 {
        lemma_padded_len(v / 10, (k - 1) as nat);
    }
}

/// Writing `k` more digits behind a number.
pub proof fn lemma_decimal_append(v: nat, x: nat, k: nat)
    requires
        v > 0,
        x < pow(10, k),
    ensures
        decimal((v * pow(10, k) + x) as nat) == decimal(v) + padded(x, k),
    decreases k,
{
    lemma_pow0(10);
    if k == 0 {
        lemma_mul_basics(v as int);
        assert(decimal(v) + padded(x, k) =~= decimal(v));
    } else {
        let j = (k - 1) as nat;
        lemma_pow_adds(10, 1, j);
        lemma_pow1(10);
        lemma_pow_positive(10, j);
        let q = pow(10, j);
        let n = v * pow(10, k) + x;
        assert(n == 10 * (v * q + (x / 10) as int) + x % 10) by (nonlinear_arith)
            requires
                n == v * (10 * q) + x,
        ;
        assert(v * q >= 1) by (nonlinear_arith)
            requires
                v >= 1,
                q >= 1,
        ;
        lemma_decimal_append(v, x / 10, j);
        assert(n / 10 == v * q + (x / 10) as int);
        assert(n % 10 == x % 10);
        assert(decimal(n as nat) =~= decimal(v) + padded(x, k));
    }
}

/// Writing one more limb behind a number adds nine digits.
pub proof fn lemma_decimal_limb(v: nat, x: nat)
    requires
        v > 0,
        x < 1_000_000_000,
    ensures
        decimal(x + 1_000_000_000 * v) == decimal(v) + padded(x, 9),
        padded(x, 9).len() == 9,
{
    lemma_pow_ten_nine();
    lemma_decimal_append(v, x, 9);
    lemma_padded_len(x, 9);
}

pub proof fn lemma_pow_ten_nine()
    ensures
        pow(10, 9) == 1_000_000_000,
{
    reveal_with_fuel(pow, 10);
}

/// The zero-padded digit groups of `limbs`, the last limb first.
pub open spec fn groups(s: Seq<u32>) -> Seq<char>
    decreases s.len(),
{
    if s.len() == 0 {
        Seq::empty()
    } else {
        groups(s.drop_first()) + padded(s[0] as nat, 9)
    }
}

pub proof fn lemma_groups_append(a: Seq<u32>, b: Seq<u32>)
    ensures
        groups(a + b) == groups(b) + groups(a),
    decreases a.len(),
{
    if a.len() == 0 {
        assert(a + b =~= b);
        assert(groups(b) + groups(a) =~= groups(b));
    } else {
        lemma_groups_append(a.drop_first(), b);
        assert((a + b).drop_first() =~= a.drop_first() + b);
        assert(groups(a + b) =~= groups(b) + groups(a));
    }
}

pub proof fn lemma_groups_len(s: Seq<u32>)
    ensures
        groups(s).len() == 9 * s.len(),
    decreases s.len(),
{
    if s.len() > 0 {
        lemma_groups_len(s.drop_first());
        lemma_padded_len(s[0] as nat, 9);
    }
}

/// The decimal notation of canonical limbs: the top limb plain, every lower
/// limb as nine digits.
pub proof fn lemma_decimal_limbs(s: Seq<u32>)
    requires
        limbs::canonical(s),
        s.len() > 0,
    ensures
        limbs::value(s) > 0,
        decimal(limbs::value(s) as nat) == decimal(s.last() as nat) + groups(s.drop_last()),
        decimal(limbs::value(s) as nat).len() == decimal(s.last() as nat).len() + 9 * (s.len() - 1),
    decreases s.len(),
{
    let r = s.drop_first();
    limbs::lemma_value_split(s);
    lemma_groups_len(s.drop_last());
    if r.len() == 0 {
        limbs::lemma_value_empty();
        assert(r =~= Seq::<u32>::empty());
        assert(decimal(s.last() as nat) + groups(s.drop_last()) =~= decimal(s.last() as nat));
    } else {
        assert(r.last() == s.last());
        lemma_decimal_limbs(r);
        assert(s[0] < limbs::LIMB_BASE);
        lemma_decimal_limb(limbs::value(r) as nat, s[0] as nat);
        assert(s.drop_last().drop_first() =~= r.drop_last());
        assert(decimal(limbs::value(s) as nat) =~= decimal(s.last() as nat) + groups(
            s.drop_last(),
        ));
    }
}

/// Digit `d` of a zero-padded number, counted from the left.
pub proof fn lemma_padded_index(v: nat, k: nat, d: int)
    requires
        0 <= d < k,
    ensures
        padded(v, k).len() == k,
        padded(v, k)[d] == digit_char(v / (pow(10, (k - 1 - d) as nat) as nat) % 10),
    decreases k,
{
    lemma_padded_len(v, k);
    lemma_pow0(10);
    if d < k - 1 {
        let e = (k - 2 - d) as nat;
        lemma_padded_index(v / 10, (k - 1) as nat, d);
        lemma_pow_adds(10, 1, e);
        lemma_pow1(10);
        lemma_pow_positive(10, e);
        lemma_div_denominator(v as int, 10, pow(10, e));
        assert(padded(v, k)[d] == padded(v / 10, (k - 1) as nat)[d]);
    } else {
        lemma_padded_len(v / 10, d as nat);
        assert(v / 1 == v);
    }
}

/// Where each digit of each limb stands: the groups of nine run from the last
/// limb down to the first, and within a group from the highest digit down.
pub proof fn lemma_groups_index(s: Seq<u32>, i: int, d: int)
    requires
        0 <= i < s.len(),
        0 <= d < 9,
    ensures
        groups(s).len() == 9 * s.len(),
        groups(s)[9 * (s.len() - 1 - i) + d] == digit_char(
            s[i] as nat / (pow(10, (8 - d) as nat) as nat) % 10,
        ),
    decreases s.len(),
{
    lemma_groups_len(s);
    lemma_groups_len(s.drop_first());
    if i == 0 {
        lemma_padded_index(s[0] as nat, 9, d);
    } else {
        lemma_groups_index(s.drop_first(), i - 1, d);
    }
}

/// Reading digits that stand one behind the other.
pub proof fn lemma_number_append(a: Seq<char>, b: Seq<char>)
    requires
        forall|i: int| 0 <= i < b.len() ==> '0' <= #[trigger] b[i] <= '9',
    ensures
        number(a + b) == number(a) * pow(10, b.len()) + number(b),
    decreases b.len(),
{
    lemma_pow0(10);
    if b.len() == 0 {
        assert(a + b =~= a);
    } else {
        let c = b.drop_last();
        lemma_number_append(a, c);
        assert((a + b).drop_last() =~= a + c);
        lemma_pow_adds(10, 1, c.len());
        lemma_pow1(10);
        let x = number(a) as int;
        let q = pow(10, c.len());
        assert(10 * (x * q) == x * (10 * q)) by (nonlinear_arith);
        assert('0' <= b[b.len() - 1] <= '9');
    }
}

/// Reading a zero-padded number gives the number back.
pub proof fn lemma_number_padded(v: nat, k: nat)
    requires
        v < pow(10, k),
    ensures
        number(padded(v, k)) == v,
        forall|i: int| 0 <= i < padded(v, k).len() ==> '0' <= #[trigger] padded(v, k)[i] <= '9',
    decreases k,
{
    lemma_pow0(10);
    if k > 0 {
        let j = (k - 1) as nat;
        lemma_pow_adds(10, 1, j);
        lemma_pow1(10);
        lemma_number_padded(v / 10, j);
        assert(padded(v, k).drop_last() =~= padded(v / 10, j));
    }
}

/// Reading the groups of any list of limbs gives the number that the limbs
/// stand for.
pub proof fn lemma_number_groups(s: Seq<u32>)
    requires
        limbs::digits(s),
    ensures
        number(groups(s)) == limbs::value(s),
        forall|i: int| 0 <= i < groups(s).len() ==> '0' <= #[trigger] groups(s)[i] <= '9',
    decreases s.len(),
{
    if s.len() == 0 {
        limbs::lemma_value_empty();
        assert(s =~= Seq::<u32>::empty());
    } else {
        let r = s.drop_first();
        assert(s[0] < limbs::LIMB_BASE);
        limbs::lemma_value_split(s);
        lemma_number_groups(r);
        lemma_pow_ten_nine();
        lemma_number_padded(s[0] as nat, 9);
        lemma_padded_len(s[0] as nat, 9);
        lemma_number_append(groups(r), padded(s[0] as nat, 9));
        lemma_mul_is_commutative(limbs::value(r), 1_000_000_000);
    }
}

/// A number of `n` digits lies between the powers of ten `n - 1` and `n`.
pub proof fn lemma_decimal_len(v: nat)
    ensures
        decimal(v).len() > 0,
        v < pow(10, decimal(v).len()),
        v > 0 ==> pow(10, (decimal(v).len() - 1) as nat) <= v,
    decreases v,
{
    lemma_pow0(10);
    lemma_pow1(10);
    if v >= 10 {
        lemma_decimal_len(v / 10);
        let n = decimal(v / 10).len();
        lemma_pow_adds(10, 1, n);
        lemma_pow_adds(10, 1, (n - 1) as nat);
    }
}

} // verus!
