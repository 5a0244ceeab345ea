//! What the transforms of the three primes are good for: transforming forth
//! and back loses nothing, and products of transforms are transforms of
//! products.
use crate::field;
use crate::modular;
use crate::ntt;
use crate::poly;
use crate::transform;
use vstd::arithmetic::div_mod::*;
use vstd::arithmetic::mul::*;
use vstd::arithmetic::power::*;
use vstd::arithmetic::power2::*;
use vstd::prelude::*;

verus! {

/// Both generators serve every size that the prime supports, and the factors
/// of the inverse transform are the inverses that they should be.
pub proof fn lemma_generators(pi: int, l: nat)
    requires
        0 <= pi < 3,
        l <= field::max_log(pi),
    ensures
        transform::generates(ntt::G as int, field::prime(pi), l),
        transform::generates(ntt::inverse_generator(pi), field::prime(pi), l),
        modular::congruent(
            transform::unity_root(ntt::G as int, field::prime(pi), l) * transform::unity_root(
                ntt::inverse_generator(pi),
                field::prime(pi),
                l,
            ),
            1,
            field::prime(pi),
        ),
        modular::congruent(pow2(l) * ntt::inverse_size(l, pi), 1, field::prime(pi)),
{
    let p = field::prime(pi);
    let g = ntt::G as int;
    let v = ntt::inverse_generator(pi);
    let top = field::max_log(pi);
    field::lemma_prime_shape(pi);
    field::lemma_half_power(pi);
    field::lemma_transform_primes(pi);
    // 2^l divides p - 1.
    let c = pow2(l) as int;
    let k = field::cofactor(pi) as int;
    let rest = pow2((top - l) as nat) as int;
    lemma_pow2_pos(l);
    lemma_pow2_pos((top - l) as nat);
    lemma_pow2_adds(l, (top - l) as nat);
    assert(p - 1 == 0 + (k * rest) * c) by (nonlinear_arith)
        requires
            p == k * (c * rest) + 1,
    ;
    modular::lemma_congruent_shift(0, k * rest, c);
    lemma_small_mod(0, c as nat);
    // 3 and its inverse.
    lemma_small_mod(3, p as nat);
    lemma_small_mod(1, p as nat);
    ntt::lemma_mod_inverse(g, p);
    let h = ((p - 1) / 2) as nat;
    lemma_pow_distributes(g, v, h);
    modular::lemma_congruent_pow(g * v, 1, h, p);
    lemma1_pow(h);
    modular::lemma_congruent_ops(pow(g, h), -1, pow(v, h), pow(v, h), p);
    modular::lemma_congruent_ops(0, 0, -1 * pow(v, h), 1, p);
    assert(modular::congruent(pow(v, h), -1, p));
    // The roots of order 2^l are inverse to each other.
    let q = ((p - 1) / c) as nat;
    lemma_pow_distributes(g, v, q);
    modular::lemma_congruent_pow(g * v, 1, q, p);
    lemma1_pow(q);
    // 2^l is smaller than p.
    assert(c < p) by (nonlinear_arith)
        requires
            p == k * (c * rest) + 1,
            k >= 1,
            c >= 1,
            rest >= 1,
    ;
    lemma_small_mod(c as nat, p as nat);
    ntt::lemma_mod_inverse(c, p);
}

/// What the root tables hold: entry `2^s + j` is the `j`-th power of the root
/// of order `2^(s+1)` in the forward table, and its inverse in the other.
pub proof fn lemma_table_entries(pi: int, s: nat, j: nat)
    requires
        0 <= pi < 3,
        s < field::max_log(pi),
        j < pow2(s),
    ensures
        ({
            let p = field::prime(pi);
            let w = transform::unity_root(ntt::G as int, p, s + 1);
            let x = transform::root_at(ntt::G as int, p, pow2(s) + j);
            let y = transform::root_at(ntt::inverse_generator(pi), p, pow2(s) + j);
            &&& modular::congruent(pow(w, pow2(s)), -1, p)
            &&& x == pow(w, j) % p
            &&& 0 <= y < p
            &&& (x * y) % p == 1
        }),
{
    let p = field::prime(pi);
    let g = ntt::G as int;
    let v = ntt::inverse_generator(pi);
    let w = transform::unity_root(g, p, s + 1);
    let u = transform::unity_root(v, p, s + 1);
    field::lemma_prime_shape(pi);
    lemma_generators(pi, s + 1);
    transform::lemma_unity_middle(g, p, s + 1);
    transform::lemma_root_value(g, p, s, j);
    transform::lemma_root_value(v, p, s, j);
    lemma_mod_bound(pow(u, j), p);
    lemma_pow_distributes(w, u, j);
    modular::lemma_congruent_pow(w * u, 1, j, p);
    lemma1_pow(j);
    lemma_small_mod(1, p as nat);
    lemma_mul_mod_noop(pow(w, j), pow(u, j), p);
}

/// The inverse transform recovers the coefficients of any polynomial from
/// numbers that are congruent to its values.
pub proof fn lemma_interpolation(x: Seq<int>, y: Seq<int>, l: nat, pi: int, m: int)
    requires
        0 <= pi < 3,
        0 < l <= field::max_log(pi),
        x.len() == pow2(l),
        y.len() == x.len(),
        forall|k: int|
            0 <= k < y.len() ==> modular::congruent(
                #[trigger] y[k],
                poly::poly_eval(
                    x,
                    pow(
                        transform::unity_root(ntt::G as int, field::prime(pi), l),
                        k as nat,
                    ),
                ),
                field::prime(pi),
            ),
        0 <= m < x.len(),
    ensures
        ntt::inverse_transform(y, l, pi)[m] == x[m] % field::prime(pi),
{
    let p = field::prime(pi);
    let g = ntt::G as int;
    let v = ntt::inverse_generator(pi);
    let ni = ntt::inverse_size(l, pi);
    let n = x.len() as int;
    lemma_generators(pi, l);
    transform::lemma_unity_middle(g, p, l);
    transform::lemma_inversion(
        x,
        y,
        l,
        transform::unity_root(g, p, l),
        transform::unity_root(v, p, l),
        p,
        m,
    );
    transform::lemma_transform_values(y, l, v, p, m);
    let t = transform::transform(y, v, p)[m];
    modular::lemma_congruent_ops(t, n * x[m], ni, ni, p);
    modular::lemma_congruent_ops(n * ni, 1, x[m], x[m], p);
    assert((n * x[m]) * ni == (n * ni) * x[m]) by (nonlinear_arith);
    lemma_mul_basics(x[m]);
}

/// Entry `k` of a forward transform is congruent to the value of the input
/// polynomial at the `k`-th power of the root of unity.
pub proof fn lemma_forward_values(x: Seq<int>, l: nat, pi: int, k: int)
    requires
        0 <= pi < 3,
        l <= field::max_log(pi),
        x.len() == pow2(l),
        0 <= k < x.len(),
    ensures
        modular::congruent(
            transform::transform(x, ntt::G as int, field::prime(pi))[k],
            poly::poly_eval(
                x,
                pow(transform::unity_root(ntt::G as int, field::prime(pi), l), k as nat),
            ),
            field::prime(pi),
        ),
{
    lemma_generators(pi, l);
    transform::lemma_transform_values(x, l, ntt::G as int, field::prime(pi), k);
}

/// How a transform follows from those of the even and the odd coefficients:
/// the two entries that a butterfly makes are the sum and the difference, each
/// with the modulus taken off or put on at most once.
pub proof fn lemma_decimation(x: Seq<int>, l: nat, pi: int, k: int)
    requires
        0 <= pi < 3,
        0 < l <= field::max_log(pi),
        x.len() == pow2(l),
        0 <= k < pow2((l - 1) as nat),
    ensures
        ({
            let p = field::prime(pi);
            let g = ntt::G as int;
            let w = transform::unity_root(g, p, l);
            let e = Seq::new(pow2((l - 1) as nat), |i: int| x[2 * i]);
            let o = Seq::new(pow2((l - 1) as nat), |i: int| x[2 * i + 1]);
            let u = transform::transform(e, g, p)[k];
            let v = (transform::transform(o, g, p)[k] * (pow(w, k as nat) % p)) % p;
            let y = transform::transform(x, g, p);
            &&& y[k] == if u + v < p {
                u + v
            } else {
                u + v - p
            }
            &&& y[k + pow2((l - 1) as nat)] == if v <= u {
                u - v
            } else {
                u - v + p
            }
        }),
{
    let p = field::prime(pi);
    let g = ntt::G as int;
    let m = (l - 1) as nat;
    let h = pow2(m) as int;
    lemma_generators(pi, l);
    lemma_pow2_unfold(l);
    lemma_pow2_pos(m);
    transform::lemma_root_value(g, p, m, k as nat);
    assert(poly::evens(x) =~= Seq::new(pow2(m), |i: int| x[2 * i]));
    assert(poly::odds(x) =~= Seq::new(pow2(m), |i: int| x[2 * i + 1]));
    transform::lemma_transform_len(poly::evens(x), m, g, p);
    transform::lemma_transform_len(poly::odds(x), m, g, p);
}

/// Transforming forth and back returns every coefficient, reduced; entries
/// that are reduced already come back as they were.
pub proof fn lemma_round_trip(x: Seq<int>, l: nat, pi: int)
    requires
        0 <= pi < 3,
        l <= field::max_log(pi),
        x.len() == pow2(l),
    ensures
        ({
            let p = field::prime(pi);
            let z = ntt::inverse_transform(transform::transform(x, ntt::G as int, p), l, pi);
            &&& z.len() == x.len()
            &&& l > 0 ==> forall|m: int| 0 <= m < x.len() ==> #[trigger] z[m] == x[m] % p
            &&& (forall|m: int| 0 <= m < x.len() ==> 0 <= #[trigger] x[m] < p) ==> z == x
        }),
{
    let p = field::prime(pi);
    let g = ntt::G as int;
    let y = transform::transform(x, g, p);
    let z = ntt::inverse_transform(y, l, pi);
    transform::lemma_transform_len(x, l, g, p);
    lemma2_to64();
    if l > 0 {
        assert forall|k: int| 0 <= k < y.len() implies modular::congruent(
            #[trigger] y[k],
            poly::poly_eval(x, pow(transform::unity_root(g, p, l), k as nat)),
            p,
        ) by {
            lemma_forward_values(x, l, pi, k);
        }
        assert forall|m: int| 0 <= m < x.len() implies #[trigger] z[m] == x[m] % p by {
            lemma_interpolation(x, y, l, pi, m);
        }
        if forall|m: int| 0 <= m < x.len() ==> 0 <= #[trigger] x[m] < p {
            assert forall|m: int| 0 <= m < x.len() implies z[m] == x[m] by {
                lemma_small_mod(x[m] as nat, p as nat);
            }
            assert(z =~= x);
        }
    }
}

/// The point-wise product of two transforms, reduced.
pub open spec fn pointwise(a: Seq<int>, b: Seq<int>, p: int) -> Seq<int> {
    Seq::new(a.len(), |k: int| (a[k] * b[k]) % p)
}

/// The convolution theorem: transforming two coefficient lists, multiplying
/// point by point and transforming back gives the coefficients of the
/// product, reduced.
pub proof fn lemma_convolution(a: Seq<int>, b: Seq<int>, l: nat, pi: int, m: int)
    requires
        0 <= pi < 3,
        l <= field::max_log(pi),
        a.len() <= pow2(l),
        b.len() <= pow2(l),
        a.len() + b.len() <= pow2(l) + 1,
        0 <= m < pow2(l),
    ensures
        ({
            let p = field::prime(pi);
            let n = pow2(l);
            let ta = transform::transform(poly::poly_pad(a, n), ntt::G as int, p);
            let tb = transform::transform(poly::poly_pad(b, n), ntt::G as int, p);
            ntt::inverse_transform(pointwise(ta, tb, p), l, pi)[m] == poly::poly_mul(a, b, n)[m] % p
        }),
{
    let p = field::prime(pi);
    let g = ntt::G as int;
    let n = pow2(l);
    let pa = poly::poly_pad(a, n);
    let pb = poly::poly_pad(b, n);
    let ta = transform::transform(pa, g, p);
    let tb = transform::transform(pb, g, p);
    let y = pointwise(ta, tb, p);
    let c = poly::poly_mul(a, b, n);
    let w = transform::unity_root(g, p, l);
    lemma_generators(pi, l);
    lemma2_to64();
    poly::lemma_mul_len(a, b, n);
    transform::lemma_transform_len(pa, l, g, p);
    assert forall|k: int| 0 <= k < y.len() implies modular::congruent(
        #[trigger] y[k],
        poly::poly_eval(c, pow(w, k as nat)),
        p,
    ) by {
        let z = pow(w, k as nat);
        transform::lemma_transform_values(pa, l, g, p, k);
        transform::lemma_transform_values(pb, l, g, p, k);
        poly::lemma_eval_pad(a, n, z);
        poly::lemma_eval_pad(b, n, z);
        poly::lemma_eval_mul(a, b, n, z);
        modular::lemma_congruent_ops(
            ta[k],
            poly::poly_eval(a, z),
            tb[k],
            poly::poly_eval(b, z),
            p,
        );
        modular::lemma_congruent_remainder(ta[k] * tb[k], p);
    }
    if l > 0 {
        lemma_interpolation(c, y, l, pi, m);
    } else {
        assert(c =~= seq![c[0]]);
        poly::lemma_eval_one(c[0], pow(w, 0));
        assert(modular::congruent(y[0], poly::poly_eval(c, pow(w, 0)), p));
        modular::lemma_congruent_remainder(ta[0] * tb[0], p);
    }
}

} // verus!
