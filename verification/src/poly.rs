//! Polynomials with integer coefficients, lowest degree first.
//!
//! A number in positional notation is its digit polynomial evaluated at the
//! base, and a number-theoretic transform lists the values of a polynomial at
//! powers of a root of unity, so both rest on the facts gathered here.
use crate::modular;
use vstd::arithmetic::mul::*;
use vstd::arithmetic::power::*;
use vstd::prelude::*;

verus! {

/// The value at `z` of the polynomial with coefficients `c`.
pub open spec fn poly_eval(c: Seq<int>, z: int) -> int
    decreases c.len(),
{
    if c.len() == 0 {
        0
    } else {
        c[0] + z * poly_eval(c.drop_first(), z)
    }
}

/// The coefficients of even degree.
pub open spec fn evens(c: Seq<int>) -> Seq<int> {
    Seq::new(((c.len() + 1) / 2) as nat, |i: int| c[2 * i])
}

/// The coefficients of odd degree.
pub open spec fn odds(c: Seq<int>) -> Seq<int> {
    Seq::new((c.len() / 2) as nat, |i: int| c[2 * i + 1])
}

/// `x * (coefficients b)`, moved up by `at` places within `n` coefficients.
pub open spec fn poly_row(x: int, b: Seq<int>, at: int, n: nat) -> Seq<int> {
    Seq::new(
        n,
        |i: int|
            if at <= i < at + b.len() {
                x * b[i - at]
            } else {
                0
            },
    )
}

/// Coefficient-wise sum of two polynomials of the same length.
pub open spec fn poly_add(a: Seq<int>, b: Seq<int>) -> Seq<int> {
    Seq::new(a.len(), |i: int| a[i] + b[i])
}

/// The first `n` coefficients of the product of `a` and `b`.
pub open spec fn poly_mul(a: Seq<int>, b: Seq<int>, n: nat) -> Seq<int>
    decreases a.len(),
{
    if a.len() == 0 {
        Seq::new(n, |i: int| 0)
    } else {
        poly_add(poly_mul(a.drop_last(), b, n), poly_row(a.last(), b, a.len() - 1, n))
    }
}

/// `c` followed by as many zeros as make `n` coefficients.
pub open spec fn poly_pad(c: Seq<int>, n: nat) -> Seq<int> {
    Seq::new(
        n,
        |i: int|
            if i < c.len() {
                c[i]
            } else {
                0
            },
    )
}

pub proof fn lemma_eval_append(a: Seq<int>, b: Seq<int>, z: int)
    ensures
        poly_eval(a + b, z) == poly_eval(a, z) + pow(z, a.len()) * poly_eval(b, z),
    decreases a.len(),
{
    if a.len() == 0 {
        assert(a + b =~= b);
        lemma_pow0(z);
    } else {
        let r = a.drop_first();
        assert((a + b).drop_first() =~= r + b);
        lemma_eval_append(r, b, z);
        lemma_pow_adds(z, 1, r.len());
        lemma_pow1(z);
        let x = poly_eval(r, z);
        let y = poly_eval(b, z);
        let q = pow(z, r.len());
        assert(z * (x + q * y) == z * x + (z * q) * y) by (nonlinear_arith);
    }
}

pub proof fn lemma_eval_one(x: int, z: int)
    ensures
        poly_eval(seq![x], z) == x,
{
    reveal_with_fuel(poly_eval, 2);
    lemma_mul_by_zero_is_zero(z);
}

pub proof fn lemma_eval_push(a: Seq<int>, x: int, z: int)
    ensures
        poly_eval(a.push(x), z) == poly_eval(a, z) + x * pow(z, a.len()),
{
    assert(a.push(x) =~= a + seq![x]);
    lemma_eval_append(a, seq![x], z);
    lemma_eval_one(x, z);
    lemma_mul_is_commutative(x, pow(z, a.len()));
}

pub proof fn lemma_eval_zeros(c: Seq<int>, z: int)
    requires
        forall|i: int| 0 <= i < c.len() ==> c[i] == 0,
    ensures
        poly_eval(c, z) == 0,
    decreases c.len(),
{
    if c.len() > 0 {
        lemma_eval_zeros(c.drop_first(), z);
        lemma_mul_by_zero_is_zero(z);
    }
}

pub proof fn lemma_eval_pad(c: Seq<int>, n: nat, z: int)
    requires
        c.len() <= n,
    ensures
        poly_eval(poly_pad(c, n), z) == poly_eval(c, z),
{
    let tail = Seq::new((n - c.len()) as nat, |i: int| 0int);
    assert(poly_pad(c, n) =~= c + tail);
    lemma_eval_append(c, tail, z);
    lemma_eval_zeros(tail, z);
    lemma_mul_by_zero_is_zero(pow(z, c.len()));
}

pub proof fn lemma_eval_add(a: Seq<int>, b: Seq<int>, z: int)
    requires
        a.len() == b.len(),
    ensures
        poly_eval(poly_add(a, b), z) == poly_eval(a, z) + poly_eval(b, z),
    decreases a.len(),
{
    if a.len() > 0 {
        lemma_eval_add(a.drop_first(), b.drop_first(), z);
        assert(poly_add(a, b).drop_first() =~= poly_add(a.drop_first(), b.drop_first()));
        lemma_mul_is_distributive_add(
            z,
            poly_eval(a.drop_first(), z),
            poly_eval(b.drop_first(), z),
        );
    }
}

pub proof fn lemma_eval_scale(c: Seq<int>, s: int, z: int)
    ensures
        poly_eval(Seq::new(c.len(), |i: int| s * c[i]), z) == s * poly_eval(c, z),
    decreases c.len(),
{
    let sc = Seq::new(c.len(), |i: int| s * c[i]);
    if c.len() == 0 {
        lemma_mul_by_zero_is_zero(s);
    } else {
        let r = c.drop_first();
        lemma_eval_scale(r, s, z);
        assert(sc.drop_first() =~= Seq::new(r.len(), |i: int| s * r[i]));
        let x = poly_eval(r, z);
        let c0 = c[0];
        assert(s * c0 + z * (s * x) == s * (c0 + z * x)) by (nonlinear_arith);
    }
}

/// Adding `d` to coefficient `k` adds `d * z^k` to the value at `z`.
pub proof fn lemma_eval_update(c: Seq<int>, k: int, d: int, z: int)
    requires
        0 <= k < c.len(),
    ensures
        poly_eval(c.update(k, c[k] + d), z) == poly_eval(c, z) + d * pow(z, k as nat),
{
    let row = poly_row(d, seq![1int], k, c.len());
    assert(c.update(k, c[k] + d) =~= poly_add(c, row));
    lemma_eval_add(c, row, z);
    lemma_eval_row(d, seq![1int], k, c.len(), z);
    lemma_eval_one(1, z);
}

pub proof fn lemma_eval_row(x: int, b: Seq<int>, at: int, n: nat, z: int)
    requires
        0 <= at,
        at + b.len() <= n,
    ensures
        poly_eval(poly_row(x, b, at, n), z) == x * pow(z, at as nat) * poly_eval(b, z),
{
    let low = Seq::new(at as nat, |i: int| 0int);
    let mid = Seq::new(b.len(), |i: int| x * b[i]);
    let high = Seq::new((n - at - b.len()) as nat, |i: int| 0int);
    assert(poly_row(x, b, at, n) =~= low + (mid + high));
    lemma_eval_append(low, mid + high, z);
    lemma_eval_append(mid, high, z);
    lemma_eval_zeros(low, z);
    lemma_eval_zeros(high, z);
    lemma_eval_scale(b, x, z);
    lemma_mul_by_zero_is_zero(pow(z, mid.len()));
    let q = pow(z, at as nat);
    let y = poly_eval(b, z);
    assert(q * (x * y) == x * q * y) by (nonlinear_arith);
}

/// The value of a product is the product of the values.
pub proof fn lemma_eval_mul(a: Seq<int>, b: Seq<int>, n: nat, z: int)
    requires
        a.len() + b.len() <= n + 1,
    ensures
        poly_eval(poly_mul(a, b, n), z) == poly_eval(a, z) * poly_eval(b, z),
    decreases a.len(),
{
    lemma_mul_len(a, b, n);
    if a.len() == 0 {
        lemma_eval_zeros(poly_mul(a, b, n), z);
        lemma_mul_by_zero_is_zero(poly_eval(b, z));
    } else {
        let r = a.drop_last();
        let x = a.last();
        let row = poly_row(x, b, a.len() - 1, n);
        lemma_mul_len(r, b, n);
        lemma_eval_mul(r, b, n, z);
        lemma_eval_add(poly_mul(r, b, n), row, z);
        lemma_eval_row(x, b, a.len() - 1, n, z);
        assert(r.push(x) =~= a);
        lemma_eval_push(r, x, z);
        let q = pow(z, r.len());
        let y = poly_eval(b, z);
        let v = poly_eval(r, z);
        assert(v * y + x * q * y == (v + x * q) * y) by (nonlinear_arith);
    }
}

pub proof fn lemma_mul_len(a: Seq<int>, b: Seq<int>, n: nat)
    ensures
        poly_mul(a, b, n).len() == n,
    decreases a.len(),
{
    if a.len() > 0 {
        lemma_mul_len(a.drop_last(), b, n);
    }
}

/// A product coefficient sums at most `a.len()` products.
pub proof fn lemma_mul_bound(a: Seq<int>, b: Seq<int>, n: nat, top: int)
    requires
        forall|i: int| 0 <= i < a.len() ==> 0 <= #[trigger] a[i] <= top,
        forall|i: int| 0 <= i < b.len() ==> 0 <= #[trigger] b[i] <= top,
    ensures
        forall|i: int|
            0 <= i < n ==> 0 <= #[trigger] poly_mul(a, b, n)[i] <= a.len() * (top * top),
    decreases a.len(),
{
    lemma_mul_len(a, b, n);
    if a.len() > 0 {
        let r = a.drop_last();
        let x = a.last();
        lemma_mul_len(r, b, n);
        lemma_mul_bound(r, b, n, top);
        assert forall|i: int| 0 <= i < n implies 0 <= #[trigger] poly_mul(a, b, n)[i] <= a.len() * (
        top * top) by {
            let row = poly_row(x, b, a.len() - 1, n);
            assert(poly_mul(a, b, n)[i] == poly_mul(r, b, n)[i] + row[i]);
            assert(0 <= row[i] <= top * top) by {
                assert(top * top >= 0) by (nonlinear_arith);
                if a.len() - 1 <= i < a.len() - 1 + b.len() {
                    let y = b[i - (a.len() - 1)];
                    assert(0 <= x * y <= top * top) by (nonlinear_arith)
                        requires
                            0 <= x <= top,
                            0 <= y <= top,
                    ;
                }
            }
            assert((a.len() - 1) * (top * top) + top * top == a.len() * (top * top))
                by (nonlinear_arith);
        }
    }
}

/// Splitting a polynomial by the parity of the degree.
pub proof fn lemma_eval_even_odd(c: Seq<int>, z: int)
    ensures
        poly_eval(c, z) == poly_eval(evens(c), z * z) + z * poly_eval(odds(c), z * z),
    decreases c.len(),
{
    if c.len() == 0 {
        lemma_mul_by_zero_is_zero(z);
    } else {
        let r = c.drop_first();
        lemma_eval_even_odd(r, z);
        assert(odds(c) =~= evens(r));
        assert(evens(c).drop_first() =~= odds(r));
        let e = poly_eval(evens(r), z * z);
        let o = poly_eval(odds(r), z * z);
        assert(z * (e + z * o) == (z * z) * o + z * e) by (nonlinear_arith);
    }
}

/// Multiplying coefficient `k` by `t^k` is the same as evaluating at `t * z`.
pub proof fn lemma_eval_twist(c: Seq<int>, t: int, z: int)
    ensures
        poly_eval(Seq::new(c.len(), |k: int| pow(t, k as nat) * c[k]), z) == poly_eval(c, t * z),
    decreases c.len(),
{
    let tc = Seq::new(c.len(), |k: int| pow(t, k as nat) * c[k]);
    if c.len() > 0 {
        let r = c.drop_first();
        let tr = Seq::new(r.len(), |k: int| pow(t, k as nat) * r[k]);
        lemma_eval_twist(r, t, z);
        lemma_pow0(t);
        assert(tc.drop_first() =~= Seq::new(r.len(), |k: int| t * tr[k])) by {
            assert forall|k: int| 0 <= k < r.len() implies tc.drop_first()[k] == t * tr[k] by {
                lemma_pow_adds(t, 1, k as nat);
                lemma_pow1(t);
                lemma_mul_is_associative(t, pow(t, k as nat), r[k]);
            }
        }
        lemma_eval_scale(tr, t, z);
        let x = poly_eval(tr, z);
        assert(z * (t * x) == (t * z) * x) by (nonlinear_arith);
    }
}

/// Congruent coefficients at congruent points give congruent values.
pub proof fn lemma_eval_congruent(a: Seq<int>, b: Seq<int>, y: int, z: int, m: int)
    requires
        m > 0,
        a.len() == b.len(),
        forall|i: int| 0 <= i < a.len() ==> modular::congruent(#[trigger] a[i], b[i], m),
        modular::congruent(y, z, m),
    ensures
        modular::congruent(poly_eval(a, y), poly_eval(b, z), m),
    decreases a.len(),
{
    if a.len() > 0 {
        let ra = a.drop_first();
        let rb = b.drop_first();
        assert forall|i: int| 0 <= i < ra.len() implies modular::congruent(#[trigger] ra[i], rb[i], m) by {
            assert(modular::congruent(a[i + 1], b[i + 1], m));
        }
        lemma_eval_congruent(ra, rb, y, z, m);
        assert(modular::congruent(a[0], b[0], m));
        modular::lemma_congruent_ops(y, z, poly_eval(ra, y), poly_eval(rb, z), m);
        modular::lemma_congruent_ops(a[0], b[0], y * poly_eval(ra, y), z * poly_eval(rb, z), m);
    }
}

/// Digits below the base stay below the next power of the base.
pub proof fn lemma_eval_digits_bound(c: Seq<int>, z: int)
    requires
        z > 0,
        forall|i: int| 0 <= i < c.len() ==> 0 <= #[trigger] c[i] < z,
    ensures
        0 <= poly_eval(c, z) < pow(z, c.len()),
    decreases c.len(),
{
    lemma_pow0(z);
    if c.len() > 0 {
        let r = c.drop_first();
        assert forall|i: int| 0 <= i < r.len() implies 0 <= #[trigger] r[i] < z by {
            assert(r[i] == c[i + 1]);
        }
        lemma_eval_digits_bound(r, z);
        lemma_pow_adds(z, 1, r.len());
        lemma_pow1(z);
        let x = poly_eval(r, z);
        let q = pow(z, r.len());
        assert(0 <= c[0] < z);
        let c0 = c[0];
        assert(0 <= c0 + z * x < z * q) by (nonlinear_arith)
            requires
                0 <= c0 < z,
                0 <= x < q,
        ;
    }
}

} // verus!
