//! The mathematics of the transform.
//!
//! [`transform`] says exactly which numbers the butterflies leave behind, lazy
//! reduction included. The lemmas below show what those numbers mean: up to
//! congruence they are the values of the input polynomial at the powers of a
//! root of unity, and transforming back with the inverse root recovers the
//! coefficients.
use crate::modular;
use crate::poly;
use vstd::arithmetic::div_mod::*;
use vstd::arithmetic::mul::*;
use vstd::arithmetic::power::*;
use vstd::arithmetic::power2::*;
use vstd::prelude::*;

verus! {

/// The largest power of two that is at most `i` (1 for `i = 0`).
pub open spec fn top_bit(i: nat) -> nat
    decreases i,
{
    if i <= 1 {
        1
    } else {
        2 * top_bit(i / 2)
    }
}

/// Entry `i` of the layered root table for the generator `g`.
///
/// Layer `k` (a power of two) fills entries `k..2k` with the powers of
/// `g^((p-1)/2k)`: an even entry repeats one of the layer below, an odd one
/// multiplies its left neighbour.
pub open spec fn root_at(g: int, p: int, i: nat) -> int
    decreases i,
{
    if i <= 1 {
        i as int
    } else if i % 2 == 0 {
        root_at(g, p, i / 2)
    } else {
        (root_at(g, p, (i - 1) as nat) * (pow(
            g,
            ((p - 1) / (2 * top_bit(i) as int)) as nat,
        ) % p)) % p
    }
}

/// The sum of a butterfly, reduced by one conditional subtraction.
pub open spec fn butterfly_sum(u: int, v: int, p: int) -> int {
    if u + v >= p {
        u + v - p
    } else {
        u + v
    }
}

/// The difference of a butterfly, lifted by one conditional addition.
pub open spec fn butterfly_diff(u: int, v: int, p: int) -> int {
    if u < v {
        u + p - v
    } else {
        u - v
    }
}

/// Joins the transforms of the even and the odd coefficients.
pub open spec fn combine(e: Seq<int>, o: Seq<int>, g: int, p: int) -> Seq<int> {
    let h = e.len() as int;
    Seq::new(
        (2 * h) as nat,
        |k: int|
            if k < h {
                butterfly_sum(e[k], (o[k] * root_at(g, p, (h + k) as nat)) % p, p)
            } else {
                butterfly_diff(e[k - h], (o[k - h] * root_at(g, p, k as nat)) % p, p)
            },
    )
}

/// The transform of `x` modulo `p` with generator `g`.
pub open spec fn transform(x: Seq<int>, g: int, p: int) -> Seq<int>
    decreases x.len(),
{
    if x.len() <= 1 {
        x
    } else {
        combine(transform(poly::evens(x), g, p), transform(poly::odds(x), g, p), g, p)
    }
}

/// The butterflies alone, for data that was brought into bit-reversed order.
pub open spec fn butterflies(y: Seq<int>, g: int, p: int) -> Seq<int>
    decreases y.len(),
{
    if y.len() <= 1 {
        y
    } else {
        let h = (y.len() / 2) as int;
        combine(
            butterflies(y.subrange(0, h), g, p),
            butterflies(y.subrange(h, y.len() as int), g, p),
            g,
            p,
        )
    }
}

/// `x` in bit-reversed order: even positions first, recursively.
pub open spec fn reorder(x: Seq<int>) -> Seq<int>
    decreases x.len(),
{
    if x.len() <= 1 {
        x
    } else {
        reorder(poly::evens(x)) + reorder(poly::odds(x))
    }
}

/// The lowest `l` bits of `i` in opposite order.
pub open spec fn reverse_bits(l: nat, i: nat) -> nat
    decreases l,
{
    if l == 0 {
        0
    } else {
        (i % 2) * pow2((l - 1) as nat) + reverse_bits((l - 1) as nat, i / 2)
    }
}

/// The `2^l` elements of `x` in bit-reversed order.
pub open spec fn bit_reversed<T>(x: Seq<T>, l: nat) -> Seq<T> {
    Seq::new(x.len(), |i: int| x[reverse_bits(l, i as nat) as int])
}

/// The root of unity of order `2^l` that `g` generates.
pub open spec fn unity_root(g: int, p: int, l: nat) -> int {
    pow(g, ((p - 1) / (pow2(l) as int)) as nat)
}

/// `g` generates roots of unity of order `2^l` modulo `p`.
pub open spec fn generates(g: int, p: int, l: nat) -> bool {
    &&& p > 2
    &&& (p - 1) % (pow2(l) as int) == 0
    &&& modular::congruent(pow(g, ((p - 1) / 2) as nat), -1, p)
}

// ----------------------------------------------------------------------
// Bit reversal
// ----------------------------------------------------------------------

pub proof fn lemma_reverse_bits_bound(l: nat, i: nat)
    ensures
        reverse_bits(l, i) < pow2(l),
    decreases l,
{
    lemma_pow2_pos(l);
    if l > 0 {
        lemma_pow2_unfold(l);
        lemma_reverse_bits_bound((l - 1) as nat, i / 2);
        let h = pow2((l - 1) as nat);
        if i % 2 == 0 {
            lemma_mul_basics(h as int);
        } else {
            lemma_mul_basics(h as int);
        }
    }
}

/// The top bit of `i` becomes the lowest bit of its reversal.
#[verifier::spinoff_prover]
pub proof fn lemma_reverse_bits_top(l: nat, i: nat)
    requires
        l > 0,
        i < pow2(l),
    ensures
        reverse_bits(l, i) == 2 * reverse_bits((l - 1) as nat, i % pow2((l - 1) as nat)) + i / pow2(
            (l - 1) as nat,
        ),
    decreases l,
{
    let h = pow2((l - 1) as nat);
    lemma_pow2_unfold(l);
    lemma_pow2_pos((l - 1) as nat);
    if l == 1 {
        lemma2_to64();
        assert(h == 1 && pow2(0) == 1);
        assert(i < 2);
        lemma_fundamental_div_mod_converse(i as int, 1, i as int, 0);
        assert(i % h == 0 && i / h == i);
        lemma_small_mod(i, 2);
        assert(reverse_bits(0, i / 2) == 0 && reverse_bits(0, i % h) == 0);
        assert(reverse_bits(1, i) == (i % 2) * pow2(0) + reverse_bits(0, i / 2));
        lemma_mul_basics(i as int);
    } else {
        let m = (l - 1) as nat;
        let h2 = pow2((l - 2) as nat);
        lemma_pow2_unfold(m);
        lemma_pow2_pos((l - 2) as nat);
        lemma_reverse_bits_top(m, i / 2);
        let r = i % h;
        let q = i / h;
        lemma_fundamental_div_mod(i as int, h as int);
        lemma_mod_bound(i as int, h as int);
        assert(q == 0 || q == 1) by (nonlinear_arith)
            requires
                i < 2 * h,
                i == h * q + r,
                0 <= r < h,
        ;
        assert(h * q == 2 * (h2 * q)) by (nonlinear_arith)
            requires
                h == 2 * h2,
        ;
        assert(i / 2 == h2 * q + r / 2);
        assert(r % 2 == i % 2);
        assert(0 <= r / 2 < h2);
        lemma_mul_is_commutative(h2 as int, q as int);
        lemma_fundamental_div_mod_converse((i / 2) as int, h2 as int, q as int, (r / 2) as int);
        assert((r % 2) * h == 2 * ((r % 2) * h2)) by (nonlinear_arith)
            requires
                h == 2 * h2,
        ;
        let rest = reverse_bits((l - 2) as nat, r / 2);
        assert(reverse_bits(m, i / 2) == 2 * rest + q);
        assert(reverse_bits(l, i) == (i % 2) * h + reverse_bits(m, i / 2));
        assert(reverse_bits(m, r) == (r % 2) * h2 + rest);
    }
}

/// Reversing the bits twice gives the number back.
pub proof fn lemma_reverse_bits_involution(l: nat, i: nat)
    requires
        i < pow2(l),
    ensures
        reverse_bits(l, reverse_bits(l, i)) == i,
    decreases l,
{
    lemma2_to64();
    if l > 0 {
        let m = (l - 1) as nat;
        let h = pow2(m);
        lemma_pow2_unfold(l);
        let r = reverse_bits(m, i / 2);
        let c = i % 2;
        lemma_reverse_bits_bound(m, i / 2);
        lemma_reverse_bits_bound(l, i);
        lemma_reverse_bits_involution(m, i / 2);
        lemma_reverse_bits_top(l, reverse_bits(l, i));
        lemma_mul_is_commutative(c as int, h as int);
        lemma_fundamental_div_mod_converse(
            reverse_bits(l, i) as int,
            h as int,
            c as int,
            r as int,
        );
    }
}

/// Bit `j` of the reversal is bit `l - 1 - j` of the number.
pub proof fn lemma_reverse_bits_bit(l: nat, i: nat, j: nat)
    requires
        i < pow2(l),
        j < l,
    ensures
        (reverse_bits(l, i) / pow2(j)) % 2 == (i / pow2((l - 1 - j) as nat)) % 2,
    decreases l,
{
    let m = (l - 1) as nat;
    let r = reverse_bits(m, i / 2);
    lemma2_to64();
    lemma_pow2_unfold(l);
    lemma_pow2_pos(j);
    lemma_reverse_bits_bound(m, i / 2);
    if j == m {
        lemma_fundamental_div_mod_converse(
            reverse_bits(l, i) as int,
            pow2(m) as int,
            (i % 2) as int,
            r as int,
        );
        assert(i / 1 == i);
    } else {
        let d = (m - j) as nat;
        let e = (d - 1) as nat;
        let q = pow2(j) as int;
        lemma_pow2_adds(j, d);
        lemma_pow2_unfold(d);
        lemma_pow2_pos(e);
        let t = (i % 2) * (pow2(e) as int);
        assert((i % 2) * pow2(m) == q * (2 * t)) by (nonlinear_arith)
            requires
                pow2(m) == q * (2 * pow2(e)),
                t == (i % 2) * (pow2(e) as int),
        ;
        lemma_hoist_over_denominator(r as int, 2 * t, q as nat);
        lemma_mul_is_commutative(q, 2 * t);
        lemma_reverse_bits_bit(m, i / 2, j);
        lemma_div_denominator(i as int, 2, pow2(e) as int);
    }
}

/// Adding one to `i` carries from the top bit downwards in its reversal.
pub proof fn lemma_reverse_bits_step(l: nat, i: nat)
    requires
        l > 0,
        i + 1 < pow2(l),
    ensures
        i % 2 == 0 ==> reverse_bits(l, i + 1) == reverse_bits(l, i) + pow2((l - 1) as nat),
        i % 2 == 0 ==> reverse_bits(l, i) < pow2((l - 1) as nat),
        i % 2 == 1 ==> reverse_bits(l, i) == pow2((l - 1) as nat) + reverse_bits(
            (l - 1) as nat,
            i / 2,
        ),
        i % 2 == 1 ==> reverse_bits(l, i + 1) == reverse_bits((l - 1) as nat, i / 2 + 1),
        i % 2 == 1 ==> l > 1 && i / 2 + 1 < pow2((l - 1) as nat),
{
    let h = pow2((l - 1) as nat);
    lemma_pow2_unfold(l);
    lemma_mul_basics(h as int);
    lemma2_to64();
    lemma_reverse_bits_bound((l - 1) as nat, i / 2);
    if i % 2 == 0 {
        assert((i + 1) / 2 == i / 2);
    } else {
        assert((i + 1) / 2 == i / 2 + 1);
    }
}

pub proof fn lemma_reorder_len(x: Seq<int>)
    ensures
        reorder(x).len() == x.len(),
    decreases x.len(),
{
    if x.len() > 1 {
        lemma_reorder_len(poly::evens(x));
        lemma_reorder_len(poly::odds(x));
    }
}

/// Position `i` of the reordered sequence holds the element at `i` reversed.
pub proof fn lemma_reorder_index(x: Seq<int>, l: nat, i: int)
    requires
        x.len() == pow2(l),
        0 <= i < x.len(),
    ensures
        reverse_bits(l, i as nat) < x.len(),
        reorder(x)[i] == x[reverse_bits(l, i as nat) as int],
    decreases l,
{
    lemma_reverse_bits_bound(l, i as nat);
    lemma2_to64();
    if l > 0 {
        let m = (l - 1) as nat;
        let h = pow2(m);
        lemma_pow2_unfold(l);
        lemma_pow2_pos(m);
        lemma_reorder_len(poly::evens(x));
        lemma_reorder_len(poly::odds(x));
        lemma_reverse_bits_top(l, i as nat);
        if i < h {
            lemma_small_mod(i as nat, h);
            lemma_basic_div(i, h as int);
            lemma_reorder_index(poly::evens(x), m, i);
        } else {
            lemma_fundamental_div_mod_converse(i, h as int, 1, i - h);
            lemma_reorder_index(poly::odds(x), m, i - h);
        }
    }
}

/// The bit-reversal permutation undoes itself.
pub proof fn lemma_bit_reversed_involution<T>(x: Seq<T>, l: nat)
    requires
        x.len() == pow2(l),
    ensures
        bit_reversed(bit_reversed(x, l), l) == x,
{
    let y = bit_reversed(x, l);
    assert forall|i: int| 0 <= i < x.len() implies #[trigger] bit_reversed(y, l)[i] == x[i] by {
        lemma_reverse_bits_bound(l, i as nat);
        lemma_reverse_bits_involution(l, i as nat);
    }
    assert(bit_reversed(y, l) =~= x);
}

/// Even positions first, recursively, is bit-reversed order.
pub proof fn lemma_reorder(x: Seq<int>, l: nat)
    requires
        x.len() == pow2(l),
    ensures
        reorder(x) == bit_reversed(x, l),
{
    lemma_reorder_len(x);
    assert forall|i: int| 0 <= i < x.len() implies reorder(x)[i] == bit_reversed(x, l)[i] by {
        lemma_reorder_index(x, l, i);
    }
    assert(reorder(x) =~= bit_reversed(x, l));
}

/// Bringing a sequence into bit-reversed order twice restores it.
pub proof fn lemma_reorder_involution(x: Seq<int>, l: nat)
    requires
        x.len() == pow2(l),
    ensures
        reorder(reorder(x)) == x,
{
    lemma_reorder_len(x);
    lemma_reorder(x, l);
    lemma_reorder(reorder(x), l);
    lemma_bit_reversed_involution(x, l);
}

// ----------------------------------------------------------------------
// Shape and size of a transform
// ----------------------------------------------------------------------

pub proof fn lemma_transform_len(x: Seq<int>, l: nat, g: int, p: int)
    requires
        x.len() == pow2(l),
    ensures
        transform(x, g, p).len() == x.len(),
    decreases l,
{
    lemma2_to64();
    if l > 0 {
        lemma_pow2_unfold(l);
        lemma_transform_len(poly::evens(x), (l - 1) as nat, g, p);
    }
}

/// Reordering followed by the butterflies is the transform.
pub proof fn lemma_butterflies_reorder(x: Seq<int>, l: nat, g: int, p: int)
    requires
        x.len() == pow2(l),
    ensures
        butterflies(reorder(x), g, p) == transform(x, g, p),
    decreases l,
{
    lemma2_to64();
    if l > 0 {
        lemma_pow2_unfold(l);
        let e = poly::evens(x);
        let o = poly::odds(x);
        lemma_reorder_len(e);
        lemma_reorder_len(o);
        let h = e.len() as int;
        assert(reorder(x).subrange(0, h) =~= reorder(e));
        assert(reorder(x).subrange(h, x.len() as int) =~= reorder(o));
        lemma_butterflies_reorder(e, (l - 1) as nat, g, p);
        lemma_butterflies_reorder(o, (l - 1) as nat, g, p);
    }
}

/// A transform never leaves the range of its input, nor that of the modulus.
pub proof fn lemma_transform_bound(x: Seq<int>, l: nat, g: int, p: int, top: int)
    requires
        x.len() == pow2(l),
        0 < p <= top + 1,
        forall|i: int| 0 <= i < x.len() ==> 0 <= #[trigger] x[i] <= top,
    ensures
        transform(x, g, p).len() == x.len(),
        forall|i: int| 0 <= i < x.len() ==> 0 <= #[trigger] transform(x, g, p)[i] <= top,
    decreases l,
{
    lemma2_to64();
    if l > 0 {
        lemma_pow2_unfold(l);
        let e = poly::evens(x);
        let o = poly::odds(x);
        let h = e.len() as int;
        lemma_transform_bound(e, (l - 1) as nat, g, p, top);
        lemma_transform_bound(o, (l - 1) as nat, g, p, top);
        let te = transform(e, g, p);
        let to = transform(o, g, p);
        assert forall|i: int| 0 <= i < x.len() implies 0 <= #[trigger] transform(x, g, p)[i]
            <= top by {
            let k = if i < h {
                i
            } else {
                i - h
            };
            assert(0 <= te[k] <= top);
            lemma_mod_bound(to[k] * root_at(g, p, (h + k) as nat), p);
        }
    }
}

// ----------------------------------------------------------------------
// Roots of unity
// ----------------------------------------------------------------------

pub proof fn lemma_top_bit(s: nat, j: nat)
    requires
        j < pow2(s),
    ensures
        top_bit(pow2(s) + j) == pow2(s),
    decreases s,
{
    lemma2_to64();
    if s > 0 {
        lemma_pow2_unfold(s);
        lemma_pow2_pos((s - 1) as nat);
        lemma_top_bit((s - 1) as nat, j / 2);
        assert((pow2(s) + j) / 2 == pow2((s - 1) as nat) + j / 2);
    }
}

pub proof fn lemma_unity_halve(g: int, p: int, l: nat)
    requires
        l > 0,
        generates(g, p, l),
    ensures
        generates(g, p, (l - 1) as nat),
        (p - 1) / (pow2((l - 1) as nat) as int) == 2 * ((p - 1) / (pow2(l) as int)),
        unity_root(g, p, (l - 1) as nat) == unity_root(g, p, l) * unity_root(g, p, l),
{
    let c = pow2(l) as int;
    let h = pow2((l - 1) as nat) as int;
    lemma_pow2_unfold(l);
    lemma_pow2_pos((l - 1) as nat);
    lemma_fundamental_div_mod(p - 1, c);
    let q = (p - 1) / c;
    assert(p - 1 == h * (2 * q) + 0) by (nonlinear_arith)
        requires
            p - 1 == c * q,
            c == 2 * h,
    ;
    lemma_fundamental_div_mod_converse(p - 1, h, 2 * q, 0);
    lemma_div_pos_is_pos(p - 1, c);
    lemma_pow_adds(g, q as nat, q as nat);
}

/// The root of order `2^l` has -1 as its middle power.
pub proof fn lemma_unity_middle(g: int, p: int, l: nat)
    requires
        l > 0,
        generates(g, p, l),
    ensures
        modular::congruent(pow(unity_root(g, p, l), pow2((l - 1) as nat)), -1, p),
{
    let c = pow2(l) as int;
    let h = pow2((l - 1) as nat) as int;
    lemma_pow2_unfold(l);
    lemma_pow2_pos((l - 1) as nat);
    lemma_fundamental_div_mod(p - 1, c);
    let q = (p - 1) / c;
    lemma_div_pos_is_pos(p - 1, c);
    lemma_pow_multiplies(g, q as nat, h as nat);
    assert(p - 1 == 2 * (q * h)) by (nonlinear_arith)
        requires
            p - 1 == c * q,
            c == 2 * h,
    ;
    assert((p - 1) / 2 == q * h);
}

/// Entry `k + j` of the root table is the `j`-th power of the root of order
/// `2k`.
pub proof fn lemma_root_value(g: int, p: int, s: nat, j: nat)
    requires
        generates(g, p, s + 1),
        j < pow2(s),
    ensures
        root_at(g, p, pow2(s) + j) == pow(unity_root(g, p, s + 1), j) % p,
    decreases s, j,
{
    let k = pow2(s);
    let w = unity_root(g, p, s + 1);
    lemma2_to64();
    lemma_pow2_pos(s);
    if j == 0 {
        lemma_pow0(w);
        lemma_small_mod(1, p as nat);
        if s > 0 {
            lemma_pow2_unfold(s);
            lemma_pow2_pos((s - 1) as nat);
            lemma_unity_halve(g, p, s + 1);
            lemma_root_value(g, p, (s - 1) as nat, 0);
            lemma_pow0(unity_root(g, p, s));
        }
    } else {
        assert(s > 0);
        lemma_pow2_unfold(s);
        if j % 2 == 0 {
            let i = (j / 2) as nat;
            lemma_unity_halve(g, p, s + 1);
            lemma_root_value(g, p, (s - 1) as nat, i);
            assert((k + j) / 2 == pow2((s - 1) as nat) + i);
            lemma_square_is_pow2(w);
            lemma_pow_multiplies(w, 2, i);
            assert(pow(w, 2) == w * w);
            assert(2 * i == j);
        } else {
            let i = (j - 1) as nat;
            lemma_root_value(g, p, s, i);
            lemma_top_bit(s, j);
            lemma_pow2_unfold(s + 1);
            assert(2 * top_bit(k + j) == pow2(s + 1));
            modular::lemma_congruent_remainder(w, p);
            modular::lemma_congruent_remainder(pow(w, i), p);
            modular::lemma_congruent_ops(pow(w, i) % p, pow(w, i), w % p, w, p);
            lemma_pow_adds(w, i, 1);
            lemma_pow1(w);
            assert((k + j - 1) as nat == k + i);
        }
    }
}

// ----------------------------------------------------------------------
// What a transform computes
// ----------------------------------------------------------------------

/// Entry `k` of the transform is congruent to the value of the input
/// polynomial at the `k`-th power of the root of unity.
#[verifier::spinoff_prover]
pub proof fn lemma_transform_values(x: Seq<int>, l: nat, g: int, p: int, k: int)
    requires
        x.len() == pow2(l),
        generates(g, p, l),
        0 <= k < x.len(),
    ensures
        transform(x, g, p).len() == x.len(),
        modular::congruent(
            transform(x, g, p)[k],
            poly::poly_eval(x, pow(unity_root(g, p, l), k as nat)),
            p,
        ),
    decreases l,
{
    lemma2_to64();
    lemma_transform_len(x, l, g, p);
    let w = unity_root(g, p, l);
    if l == 0 {
        lemma_pow0(w);
        assert(x =~= seq![x[0]]);
        poly::lemma_eval_one(x[0], pow(w, k as nat));
    } else {
        let m = (l - 1) as nat;
        let h = pow2(m) as int;
        lemma_pow2_unfold(l);
        let e = poly::evens(x);
        let o = poly::odds(x);
        let te = transform(e, g, p);
        let to = transform(o, g, p);
        let i = if k < h {
            k
        } else {
            k - h
        };
        let wi = pow(w, i as nat);
        lemma_unity_halve(g, p, l);
        lemma_transform_values(e, m, g, p, i);
        lemma_transform_values(o, m, g, p, i);
        // The roots of the half-size transforms are squares.
        assert(pow(unity_root(g, p, m), i as nat) == wi * wi) by {
            lemma_pow_distributes(w, w, i as nat);
        }
        let ve = poly::poly_eval(e, wi * wi);
        let vo = poly::poly_eval(o, wi * wi);
        let r = root_at(g, p, (h + i) as nat);
        lemma_root_value(g, p, m, i as nat);
        modular::lemma_congruent_remainder(wi, p);
        modular::lemma_congruent_ops(to[i], vo, r, wi, p);
        let v = (to[i] * r) % p;
        modular::lemma_congruent_remainder(to[i] * r, p);
        lemma_mul_is_commutative(vo, wi);
        modular::lemma_congruent_ops(te[i], ve, v, wi * vo, p);
        modular::lemma_congruent_shift(te[i] + v, 1, p);
        modular::lemma_congruent_shift(te[i] - v, 1, p);
        let z = pow(w, k as nat);
        poly::lemma_eval_even_odd(x, z);
        if k >= h {
            // z = w^(i + h), and w^h is -1.
            lemma_pow_adds(w, i as nat, h as nat);
            lemma_unity_middle(g, p, l);
            modular::lemma_congruent_ops(wi, wi, pow(w, h as nat), -1, p);
            lemma_mul_basics(wi);
            assert(wi * -1 == -wi) by (nonlinear_arith);
            modular::lemma_congruent_ops(z, -wi, z, -wi, p);
            assert((-wi) * (-wi) == wi * wi) by (nonlinear_arith);
            poly::lemma_eval_congruent(e, e, z * z, wi * wi, p);
            poly::lemma_eval_congruent(o, o, z * z, wi * wi, p);
            modular::lemma_congruent_ops(z, -wi, poly::poly_eval(o, z * z), vo, p);
            assert((-wi) * vo == -(wi * vo)) by (nonlinear_arith);
            modular::lemma_congruent_ops(
                poly::poly_eval(e, z * z),
                ve,
                z * poly::poly_eval(o, z * z),
                -(wi * vo),
                p,
            );
        }
    }
}

/// Evaluating the list of values at the powers of the inverse root gives the
/// coefficients back, each `n` times.
#[verifier::spinoff_prover]
pub proof fn lemma_inversion(x: Seq<int>, y: Seq<int>, l: nat, w: int, v: int, p: int, m: int)
    requires
        p > 2,
        x.len() == pow2(l),
        y.len() == x.len(),
        l > 0 ==> modular::congruent(pow(w, pow2((l - 1) as nat)), -1, p),
        modular::congruent(w * v, 1, p),
        forall|k: int|
            0 <= k < y.len() ==> modular::congruent(
                #[trigger] y[k],
                poly::poly_eval(x, pow(w, k as nat)),
                p,
            ),
        0 <= m < x.len(),
    ensures
        modular::congruent(poly::poly_eval(y, pow(v, m as nat)), x.len() * x[m], p),
    decreases l,
{
    lemma2_to64();
    if l == 0 {
        assert(x =~= seq![x[0]]);
        assert(y =~= seq![y[0]]);
        poly::lemma_eval_one(x[0], pow(w, 0));
        poly::lemma_eval_one(y[0], pow(v, m as nat));
        assert(modular::congruent(y[0], poly::poly_eval(x, pow(w, 0)), p));
        lemma_mul_basics(x[0]);
    } else {
        let d = (l - 1) as nat;
        let h = pow2(d) as int;
        lemma_pow2_unfold(l);
        lemma_pow2_pos(d);
        let e = poly::evens(x);
        let o = poly::odds(x);
        let ve = Seq::new(h as nat, |k: int| poly::poly_eval(e, pow(w * w, k as nat)));
        let vo = Seq::new(h as nat, |k: int| poly::poly_eval(o, pow(w * w, k as nat)));
        let q = (m / 2) as int;
        // The half-size problem has the squares of both roots.
        modular::lemma_congruent_ops(w * v, 1, w * v, 1, p);
        assert((w * w) * (v * v) == (w * v) * (w * v)) by (nonlinear_arith);
        if d > 0 {
            lemma_pow2_unfold(d);
            lemma_pow_distributes(w, w, pow2((d - 1) as nat));
            lemma_pow_adds(w, pow2((d - 1) as nat), pow2((d - 1) as nat));
        }
        lemma_inversion(e, ve, d, w * w, v * v, p, q);
        lemma_inversion(o, vo, d, w * w, v * v, p, q);
        // v^h is -1 as well.
        lemma_pow_distributes(w, v, h as nat);
        modular::lemma_congruent_pow(w * v, 1, h as nat, p);
        lemma1_pow(h as nat);
        let vh = pow(v, h as nat);
        modular::lemma_congruent_ops(pow(w, h as nat), -1, vh, vh, p);
        modular::lemma_congruent_ops(0, 0, -1 * vh, 1, p);
        assert(modular::congruent(vh, -1, p));
        // The upper half of the values enters with the sign of z^h.
        let z = pow(v, m as nat);
        let s = pow(z, h as nat);
        lemma_pow_multiplies(v, m as nat, h as nat);
        lemma_pow_multiplies(v, h as nat, m as nat);
        lemma_mul_is_commutative(m, h);
        modular::lemma_congruent_pow(vh, -1, m as nat, p);
        crate::primes::lemma_pow_minus_one(m as nat);
        let lo = y.subrange(0, h);
        let hi = y.subrange(h, 2 * h);
        let shi = Seq::new(hi.len(), |k: int| s * hi[k]);
        let both = poly::poly_add(lo, shi);
        assert(y =~= lo + hi);
        poly::lemma_eval_append(lo, hi, z);
        poly::lemma_eval_scale(hi, s, z);
        poly::lemma_eval_add(lo, shi, z);
        assert(poly::poly_eval(y, z) == poly::poly_eval(both, z));
        let t = if m % 2 == 0 {
            ve
        } else {
            Seq::new(h as nat, |k: int| pow(w, k as nat) * vo[k])
        };
        let t2 = Seq::new(h as nat, |k: int| 2 * t[k]);
        assert forall|k: int| 0 <= k < h implies modular::congruent(
            #[trigger] both[k],
            t2[k],
            p,
        ) by {
            lemma_butterfly_values(x, l, w, p, k);
            let wk = pow(w, k as nat);
            let a = ve[k];
            let b = wk * vo[k];
            assert(modular::congruent(y[k], poly::poly_eval(x, wk), p));
            assert(modular::congruent(y[k], a + b, p));
            assert(modular::congruent(
                y[k + h],
                poly::poly_eval(x, pow(w, (k + h) as nat)),
                p,
            ));
            assert(modular::congruent(y[k + h], a - b, p));
            assert(hi[k] == y[k + h]);
            let sg = if m % 2 == 0 {
                1int
            } else {
                -1int
            };
            modular::lemma_congruent_ops(s, sg, hi[k], a - b, p);
            modular::lemma_congruent_ops(y[k], a + b, s * hi[k], sg * (a - b), p);
            assert(both[k] == y[k] + s * hi[k]);
            if m % 2 == 0 {
                assert(a + b + sg * (a - b) == 2 * a);
                assert(t2[k] == 2 * a);
            } else {
                assert(a + b + sg * (a - b) == 2 * b);
                assert(t2[k] == 2 * b);
            }
        }
        poly::lemma_eval_congruent(both, t2, z, z, p);
        poly::lemma_eval_scale(t, 2, z);
        lemma_pow_distributes(v, v, q as nat);
        lemma_pow_adds(v, q as nat, q as nat);
        let z2 = pow(v * v, q as nat);
        if m % 2 == 0 {
            assert(z == z2);
            modular::lemma_congruent_ops(2, 2, poly::poly_eval(ve, z), h * e[q], p);
            assert(2 * (h * e[q]) == (2 * h) * e[q]) by (nonlinear_arith);
        } else {
            lemma_pow_adds(v, (2 * q) as nat, 1);
            lemma_pow1(v);
            assert(z == z2 * v);
            poly::lemma_eval_twist(vo, w, z);
            modular::lemma_congruent_ops(w * v, 1, z2, z2, p);
            assert(w * (z2 * v) == (w * v) * z2) by (nonlinear_arith);
            poly::lemma_eval_congruent(vo, vo, w * z, z2, p);
            modular::lemma_congruent_ops(2, 2, poly::poly_eval(vo, w * z), h * o[q], p);
            assert(2 * (h * o[q]) == (2 * h) * o[q]) by (nonlinear_arith);
        }
    }
}

/// Values at `w^k` and at `w^(k+h)` from those of the two halves.
proof fn lemma_butterfly_values(x: Seq<int>, l: nat, w: int, p: int, k: int)
    requires
        p > 2,
        l > 0,
        x.len() == pow2(l),
        modular::congruent(pow(w, pow2((l - 1) as nat)), -1, p),
        0 <= k < pow2((l - 1) as nat),
    ensures
        ({
            let h = pow2((l - 1) as nat);
            let a = poly::poly_eval(poly::evens(x), pow(w * w, k as nat));
            let b = pow(w, k as nat) * poly::poly_eval(poly::odds(x), pow(w * w, k as nat));
            &&& modular::congruent(poly::poly_eval(x, pow(w, k as nat)), a + b, p)
            &&& modular::congruent(poly::poly_eval(x, pow(w, (k + h) as nat)), a - b, p)
        }),
{
    let h = pow2((l - 1) as nat);
    let e = poly::evens(x);
    let o = poly::odds(x);
    let wk = pow(w, k as nat);
    let z = pow(w, (k + h) as nat);
    lemma_pow_distributes(w, w, k as nat);
    poly::lemma_eval_even_odd(x, wk);
    poly::lemma_eval_even_odd(x, z);
    lemma_pow_adds(w, k as nat, h);
    modular::lemma_congruent_ops(wk, wk, pow(w, h), -1, p);
    assert(wk * -1 == -wk) by (nonlinear_arith);
    modular::lemma_congruent_ops(z, -wk, z, -wk, p);
    assert((-wk) * (-wk) == wk * wk) by (nonlinear_arith);
    poly::lemma_eval_congruent(e, e, z * z, wk * wk, p);
    poly::lemma_eval_congruent(o, o, z * z, wk * wk, p);
    let vo = poly::poly_eval(o, wk * wk);
    modular::lemma_congruent_ops(z, -wk, poly::poly_eval(o, z * z), vo, p);
    assert((-wk) * vo == -(wk * vo)) by (nonlinear_arith);
    modular::lemma_congruent_ops(
        poly::poly_eval(e, z * z),
        poly::poly_eval(e, wk * wk),
        z * poly::poly_eval(o, z * z),
        -(wk * vo),
        p,
    );
}

} // verus!
