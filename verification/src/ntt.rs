//! Three-prime number-theoretic transform (NTT) for exact convolution.
//!
//! Each prime is `< 2^30`, so products of two residues fit in a `u64`:
//!
//! | Prime | Value     | Factorisation  | Max transform |
//! |-------|-----------|----------------|---------------|
//! | P1    | 998244353 | 119 * 2^23 + 1 | 2^23          |
//! | P2    | 167772161 | 5 * 2^25 + 1   | 2^25          |
//! | P3    | 469762049 | 7 * 2^26 + 1   | 2^26          |
//!
//! All three have 3 as a generator. Reduction in the butterflies is lazy: one
//! conditional subtraction, and [`mulmod`] accepts every 32-bit operand.
use crate::field;
use crate::modular;
use crate::transform;
use std::sync::Arc;
use vstd::arithmetic::div_mod::*;
use vstd::arithmetic::mul::*;
use vstd::arithmetic::power::*;
use vstd::arithmetic::power2::*;
use vstd::bits::*;
use vstd::prelude::*;

pub use crate::tables::prewarm;

verus! {

/// The bottleneck prime supports transforms up to `2^23`.
pub const MAX_LOG_N: u32 = 23;

pub const P1: u64 = 998_244_353;

pub const P2: u64 = 167_772_161;

pub const P3: u64 = 469_762_049;

/// The generator that the three primes share.
pub const G: u64 = 3;

pub const PRIMES: [u64; 3] = [P1, P2, P3];

/// Barrett multipliers `ceil(2^64 / p)`, one per prime.
pub const MU_P1: u64 = 18_479_187_003;

pub const MU_P2: u64 = 109_951_162_123;

pub const MU_P3: u64 = 39_268_272_337;

pub const MU_PRIMES: [u64; 3] = [MU_P1, MU_P2, MU_P3];

/// `ceil(2^64 / p)`.
pub open spec fn barrett(p: int) -> int {
    (0x1_0000_0000_0000_0000 + p - 1) / p
}

/// The entries of `s` as mathematical integers.
pub open spec fn ints(s: Seq<u32>) -> Seq<int> {
    Seq::new(s.len(), |i: int| s[i] as int)
}

/// A Barrett multiplier is the least that takes the modulus to `2^64`.
pub proof fn lemma_barrett(p: int)
    requires
        p > 0,
    ensures
        (barrett(p) - 1) * p < 0x1_0000_0000_0000_0000 <= barrett(p) * p,
{
    let num = 0x1_0000_0000_0000_0000 + p - 1;
    lemma_fundamental_div_mod(num, p);
    lemma_mod_bound(num, p);
    lemma_mul_is_commutative(p, num / p);
    lemma_mul_is_distributive_sub_other_way(p, num / p, 1);
}

/// The Barrett multiplier of `p`.
pub fn barrett_mu(p: u64) -> (mu: u64)
    requires
        p >= 2,
    ensures
        mu == barrett(p as int),
        (mu - 1) * p < 0x1_0000_0000_0000_0000 <= mu * p,
{
    proof {
        lemma_barrett(p as int);
    }
    let num: u128 = 0x1_0000_0000_0000_0000u128 + (p as u128 - 1);
    proof {
        lemma_fundamental_div_mod(num as int, p as int);
        lemma_mod_bound(num as int, p as int);
        let q = num as int / p as int;
        let r = num as int % p as int;
        assert(q <= u64::MAX) by (nonlinear_arith)
            requires
                num == 0x1_0000_0000_0000_0000 + p - 1,
                num == p * q + r,
                0 <= r,
                2 <= p <= 0xffff_ffff_ffff_ffff,
        ;
        lemma_div_pos_is_pos(num as int, p as int);
    }
    (num / p as u128) as u64
}

/// The constants are the Barrett multipliers of their primes.
pub proof fn lemma_mu(pi: int)
    requires
        0 <= pi < 3,
    ensures
        MU_PRIMES[pi] == barrett(field::prime(pi)),
        pi == 0 ==> MU_PRIMES[pi] == MU_P1,
        pi == 1 ==> MU_PRIMES[pi] == MU_P2,
        pi == 2 ==> MU_PRIMES[pi] == MU_P3,
{
    if pi == 0 {
        assert(barrett(P1 as int) == MU_P1);
    } else if pi == 1 {
        assert(barrett(P2 as int) == MU_P2);
    } else {
        assert(barrett(P3 as int) == MU_P3);
    }
}

/// The Barrett quotient estimate is the true quotient or one more.
pub proof fn lemma_barrett_estimate(x: int, p: int, mu: int, q: int)
    requires
        0 <= x < 0x1_0000_0000_0000_0000,
        p >= 2,
        mu == barrett(p),
        q == (x * mu) / 0x1_0000_0000_0000_0000,
    ensures
        -p < x - q * p < p,
        0 <= q,
        q * p <= x ==> q == x / p && x - q * p == x % p,
        q * p > x ==> q - 1 == x / p && x - (q - 1) * p == x % p,
{
    let b = 0x1_0000_0000_0000_0000int;
    let num = b + p - 1;
    lemma_fundamental_div_mod(num, p);
    lemma_mod_bound(num, p);
    let slack = p - 1 - num % p;
    assert(p * mu == b + slack);
    lemma_fundamental_div_mod(x * mu, b);
    lemma_mod_bound(x * mu, b);
    let rem = (x * mu) % b;
    lemma_div_pos_is_pos(num, p);
    lemma_mul_nonnegative(x, mu);
    lemma_div_pos_is_pos(x * mu, b);
    // x * mu * p, once through the quotient and once through p * mu.
    assert((b * q + rem) * p == x * (b + slack)) by (nonlinear_arith)
        requires
            x * mu == b * q + rem,
            p * mu == b + slack,
    ;
    assert(b * (x - q * p) == rem * p - x * slack) by (nonlinear_arith)
        requires
            (b * q + rem) * p == x * (b + slack),
    ;
    assert(rem * p < b * p) by (nonlinear_arith)
        requires
            rem < b,
            p > 0,
    ;
    assert(0 <= rem * p) by (nonlinear_arith)
        requires
            rem >= 0,
            p > 0,
    ;
    assert(0 <= x * slack < b * p) by (nonlinear_arith)
        requires
            0 <= x < b,
            0 <= slack < p,
            p > 0,
            b > 0,
    ;
    let d = x - q * p;
    assert(-p < d < p) by (nonlinear_arith)
        requires
            b * d == rem * p - x * slack,
            0 <= rem * p < b * p,
            0 <= x * slack < b * p,
            b > 0,
    ;
    lemma_mul_is_commutative(q, p);
    if q * p <= x {
        lemma_fundamental_div_mod_converse(x, p, q, d);
    } else {
        assert((q - 1) * p == q * p - p) by (nonlinear_arith);
        lemma_mul_is_commutative(q - 1, p);
        lemma_fundamental_div_mod_converse(x, p, q - 1, d + p);
    }
}

/// `(a * b) mod p` by integer Barrett reduction: the quotient estimate
/// `(x * mu) >> 64` is exact or one too large, and one fix-up corrects it.
pub fn mulmod(a: u64, b: u64, p: u64, mu: u64) -> (r: u64)
    requires
        a <= 0xffff_ffff,
        b <= 0xffff_ffff,
        p >= 2,
        mu == barrett(p as int),
    ensures
        r == (a * b) % (p as int),
{
    assert(a * b <= 0xffff_ffff * 0xffff_ffff) by (nonlinear_arith)
        requires
            a <= 0xffff_ffff,
            b <= 0xffff_ffff,
    ;
    let x: u64 = a * b;
    assert(x * mu <= 0xffff_ffff_ffff_ffff * 0xffff_ffff_ffff_ffff) by (nonlinear_arith)
        requires
            0 <= x <= 0xffff_ffff_ffff_ffff,
            0 <= mu <= 0xffff_ffff_ffff_ffff,
    ;
    let wide: u128 = x as u128 * mu as u128;
    proof {
        lemma_barrett_estimate(
            x as int,
            p as int,
            mu as int,
            (x * mu) / 0x1_0000_0000_0000_0000,
        );
        assert(wide >> 64 == wide / 0x1_0000_0000_0000_0000) by (bit_vector);
        assert(wide / 0x1_0000_0000_0000_0000 <= 0xffff_ffff_ffff_ffff) by (bit_vector);
    }
    let q: u64 = (wide >> 64) as u64;
    assert(q * p <= 0xffff_ffff_ffff_ffff * 0xffff_ffff_ffff_ffff) by (nonlinear_arith)
        requires
            0 <= q <= 0xffff_ffff_ffff_ffff,
            0 <= p <= 0xffff_ffff_ffff_ffff,
    ;
    // `q * p` can exceed a `u64` near `x = 2^64`, so compare widened.
    let qp: u128 = q as u128 * p as u128;
    let x128: u128 = x as u128;
    if qp <= x128 {
        let r: u64 = (x128 - qp) as u64;
        if r >= p {
            r - p
        } else {
            r
        }
    } else {
        let d: u128 = qp - x128;
        assert((q - 1) * p == q * p - p) by (nonlinear_arith);
        (p as u128 - d) as u64
    }
}

/// Every product that square-and-multiply forms from here on fits in a `u64`.
pub open spec fn products_fit(res: int, base: int, exp: nat, m: int) -> bool
    decreases exp,
{
    exp == 0 || {
        &&& exp % 2 == 1 ==> res * base <= u64::MAX
        &&& base * base <= u64::MAX
        &&& products_fit(
            if exp % 2 == 1 {
                (res * base) % m
            } else {
                res
            },
            (base * base) % m,
            exp / 2,
            m,
        )
    }
}

/// Below `2^32` no product of two residues can overflow.
pub proof fn lemma_products_fit(res: int, base: int, exp: nat, m: int)
    requires
        0 < m <= 0x1_0000_0000,
        0 <= res <= m,
        0 <= base < m,
    ensures
        products_fit(res, base, exp, m),
    decreases exp,
{
    if exp > 0 {
        assert(res * base <= u64::MAX && base * base <= u64::MAX) by (nonlinear_arith)
            requires
                0 < m <= 0x1_0000_0000,
                0 <= res <= m,
                0 <= base < m,
        ;
        lemma_mod_bound(res * base, m);
        lemma_mod_bound(base * base, m);
        lemma_products_fit(
            if exp % 2 == 1 {
                (res * base) % m
            } else {
                res
            },
            (base * base) % m,
            exp / 2,
            m,
        );
    }
}

/// `base^exp mod modu` by repeated squaring (1 for a zero exponent).
pub fn powmod(base: u64, exp: u64, modu: u64) -> (res: u64)
    requires
        modu > 0,
        modu <= 0x1_0000_0000 || products_fit(
            1,
            base as int % modu as int,
            exp as nat,
            modu as int,
        ),
    ensures
        exp == 0 ==> res == 1,
        exp > 0 ==> res == pow(base as int, exp as nat) % (modu as int),
        modu > 1 ==> res == pow(base as int, exp as nat) % (modu as int),
{
    let ghost b0 = base as int;
    let ghost e0 = exp as nat;
    let ghost m = modu as int;
    let mut base: u64 = base;
    let mut exp: u64 = exp;
    let mut res: u64 = 1;
    base = base % modu;
    proof {
        if m <= 0x1_0000_0000 {
            lemma_products_fit(1, base as int, e0, m);
        }
        modular::lemma_congruent_remainder(b0, m);
        modular::lemma_congruent_pow(base as int, b0, e0, m);
        lemma_mul_basics(pow(base as int, e0));
    }
    while exp > 0
        invariant
            m == modu,
            m > 0,
            base < m,
            res < m || exp > 0 || e0 == 0,
            exp > 0 ==> res <= m,
            exp > 0 || e0 > 0 || res == 1,
            e0 == 0 ==> res == 1 && exp == 0,
            products_fit(res as int, base as int, exp as nat, m),
            modular::congruent(res * pow(base as int, exp as nat), pow(b0, e0), m),
        decreases exp,
    {
        let ghost res0 = res as int;
        let ghost base0 = base as int;
        let ghost n0 = exp as nat;
        let ghost half = n0 / 2;
        assert(exp & 1 == exp % 2) by (bit_vector);
        assert(exp >> 1 == exp / 2) by (bit_vector);
        proof {
            lemma_pow_distributes(base0, base0, half);
            lemma_pow_adds(base0, half, half);
            if n0 % 2 == 1 {
                lemma_pow_adds(base0, 1, (2 * half) as nat);
                lemma_pow1(base0);
            }
            lemma_mod_bound(base0 * base0, m);
            lemma_mod_bound(res0 * base0, m);
        }
        let ghost sq = base0 * base0;
        if exp & 1 == 1 {
            res = (res * base) % modu;
        }
        base = (base * base) % modu;
        exp = exp >> 1;
        proof {
            modular::lemma_congruent_remainder(sq, m);
            modular::lemma_congruent_pow(base as int, sq, half, m);
            let tail = pow(sq, half);
            if n0 % 2 == 1 {
                modular::lemma_congruent_remainder(res0 * base0, m);
                modular::lemma_congruent_ops(
                    res as int,
                    res0 * base0,
                    pow(base as int, half),
                    tail,
                    m,
                );
                lemma_mul_is_associative(res0, base0, tail);
            } else {
                modular::lemma_congruent_ops(res0, res0, pow(base as int, half), tail, m);
            }
        }
    }
    proof {
        lemma_pow0(base as int);
        lemma_pow0(b0);
        if e0 > 0 {
            lemma_small_mod(res as nat, m as nat);
        } else if m > 1 {
            lemma_small_mod(1, m as nat);
        }
    }
    res
}

/// `n^(modu-2) mod modu`: the inverse of `n` where `modu` is a prime that does
/// not divide `n`.
pub fn mod_inverse(n: u64, modu: u64) -> (r: u64)
    requires
        modu >= 2,
        modu <= 0x1_0000_0000 || products_fit(
            1,
            n as int % modu as int,
            (modu - 2) as nat,
            modu as int,
        ),
    ensures
        r == pow(n as int, (modu - 2) as nat) % (modu as int),
{
    powmod(n, modu - 2, modu)
}

/// Modulo a prime, [`mod_inverse`] really inverts.
pub proof fn lemma_mod_inverse(n: int, p: int)
    requires
        crate::primes::is_prime(p),
        n % p != 0,
    ensures
        (n * (pow(n, (p - 2) as nat) % p)) % p == 1,
{
    crate::primes::lemma_fermat(n, p);
    lemma_pow_adds(n, 1, (p - 2) as nat);
    lemma_pow1(n);
    lemma_mul_mod_noop_right(n, pow(n, (p - 2) as nat), p);
}

/// `2^l` as a `usize`.
pub(crate) fn power_of_two(l: u32) -> (n: usize)
    requires
        l < usize::BITS,
    ensures
        n == pow2(l as nat),
        n > 0,
{
    proof {
        lemma_usize_pow2_no_overflow(l as nat);
        lemma_usize_shl_is_mul(1, l as usize);
        lemma_mul_basics(pow2(l as nat) as int);
    }
    1usize << (l as usize)
}

/// `y` lies between the two powers of two that its leading zeros name.
pub proof fn lemma_leading_zeros(y: u64)
    ensures
        0 <= vstd::std_specs::bits::u64_leading_zeros(y) <= 64,
        y < pow2((64 - vstd::std_specs::bits::u64_leading_zeros(y)) as nat),
        y > 0 ==> vstd::std_specs::bits::u64_leading_zeros(y) < 64,
        y > 0 ==> pow2((63 - vstd::std_specs::bits::u64_leading_zeros(y)) as nat) <= y,
    decreases y,
{
    vstd::std_specs::bits::axiom_u64_leading_zeros(y);
    reveal(vstd::std_specs::bits::u64_leading_zeros);
    lemma2_to64();
    if y > 0 {
        let z = vstd::std_specs::bits::u64_leading_zeros(y / 2);
        lemma_leading_zeros(y / 2);
        assert(vstd::std_specs::bits::u64_leading_zeros(y) == z - 1);
        lemma_pow2_unfold((65 - z) as nat);
        if y > 1 {
            lemma_pow2_unfold((64 - z) as nat);
        }
    }
}

/// The smallest `l` with `2^l >= x`.
pub open spec fn ceil_log(x: nat) -> nat
    decreases x,
{
    if x <= 1 {
        0
    } else {
        1 + ceil_log((x + 1) / 2)
    }
}

/// [`ceil_log`] is the exponent of the first power of two that reaches `x`.
pub proof fn lemma_ceil_log(x: nat, l: nat)
    requires
        x >= 1,
    ensures
        l == ceil_log(x) <==> pow2(l) >= x && (l > 0 ==> pow2((l - 1) as nat) < x),
        l >= ceil_log(x) <==> pow2(l) >= x,
    decreases x,
{
    lemma2_to64();
    lemma_pow2_pos(l);
    if x == 1 {
        if l > 0 {
            lemma_pow2_pos((l - 1) as nat);
        }
    } else if l > 0 {
        lemma_pow2_unfold(l);
        if l > 1 {
            lemma_pow2_unfold((l - 1) as nat);
        }
        lemma_ceil_log((x + 1) / 2, (l - 1) as nat);
    }
}

/// Smallest `l` with `2^l >= x` (`x >= 1`).
pub fn ceil_log2(x: usize) -> (l: u32)
    requires
        x >= 1,
    ensures
        l == ceil_log(x as nat),
        l <= 64,
        pow2(l as nat) >= x,
        l > 0 ==> pow2((l - 1) as nat) < x,
{
    let y: u64 = (x - 1) as u64;
    let l: u32 = 64 - y.leading_zeros();
    proof {
        lemma_leading_zeros(y);
        lemma2_to64();
        lemma_ceil_log(x as nat, l as nat);
    }
    l
}

// ----------------------------------------------------------------------
// Root tables
// ----------------------------------------------------------------------

/// The generator of the inverse transform, `3^-1 mod p`.
pub open spec fn inverse_generator(pi: int) -> int {
    pow(G as int, (field::prime(pi) - 2) as nat) % field::prime(pi)
}

/// The scaling factor of the inverse transform, `n^-1 mod p` for `n = 2^l`.
pub open spec fn inverse_size(l: nat, pi: int) -> int {
    pow(pow2(l) as int, (field::prime(pi) - 2) as nat) % field::prime(pi)
}

/// `rt` is the root table for transforms of size `2^l` with generator `g`.
pub open spec fn is_root_table(rt: Seq<u32>, l: nat, g: int, p: int) -> bool {
    &&& rt.len() == if pow2(l) < 2 {
        2
    } else {
        pow2(l)
    }
    &&& forall|i: int| 0 <= i < rt.len() ==> #[trigger] rt[i] == transform::root_at(g, p, i as nat)
}

/// Layered root table for transforms of size `2^log_n`. Each butterfly stage
/// reads one layer front to back; inverse tables use `3^-1` as generator.
fn build_roots(log_n: u32, pi: usize, inverse: bool) -> (rt: Vec<u32>)
    requires
        log_n < usize::BITS,
        pi < 3,
    ensures
        is_root_table(
            rt@,
            log_n as nat,
            if inverse {
                inverse_generator(pi as int)
            } else {
                G as int
            },
            field::prime(pi as int),
        ),
{
    let n: usize = power_of_two(log_n);
    let p: u64 = PRIMES[pi];
    proof {
        field::lemma_prime_shape(pi as int);
        lemma_mu(pi as int);
    }
    let mut g: u64 = G;
    if inverse {
        g = powmod(g, p - 2, p);
    }
    let mu: u64 = MU_PRIMES[pi];
    let size: usize = if n < 2 {
        2
    } else {
        n
    };
    let mut rt: Vec<u32> = vec![0u32; size];
    rt[1] = 1;
    let mut k: usize = 2;
    let ghost mut s: nat = 1;
    proof {
        lemma2_to64();
        assert(forall|i: int| 0 <= i < 2 ==> rt@[i] == transform::root_at(g as int, p as int, i as nat));
    }
    while k < n
        invariant
            log_n < usize::BITS,
            n == pow2(log_n as nat),
            size == if n < 2 {
                2usize
            } else {
                n
            },
            rt@.len() == size,
            2 <= k <= size,
            k == pow2(s),
            p == field::prime(pi as int),
            2 < p < 0x4000_0000,
            mu == barrett(p as int),
            g < p,
            forall|i: int|
                0 <= i < k ==> #[trigger] rt@[i] == transform::root_at(g as int, p as int, i as nat),
        decreases size - k,
    {
        proof {
            if s >= log_n {
                if s > log_n {
                    lemma_pow2_strictly_increases(log_n as nat, s);
                }
            }
            assert(s < log_n);
            if s + 1 < log_n {
                lemma_pow2_strictly_increases(s + 1, log_n as nat);
            }
            lemma_pow2_unfold(s + 1);
            assert(2 * k <= n);
        }
        let e: u64 = powmod(g, (p - 1) / (2 * k as u64), p);
        let ghost exponent = ((p - 1) / (2 * k as int)) as nat;
        proof {
            lemma_mod_bound(pow(g as int, exponent), p as int);
        }
        let mut i: usize = k;
        while i < 2 * k
            invariant
                2 <= k,
                k == pow2(s),
                2 * k <= rt@.len(),
                k <= i <= 2 * k,
                2 < p < 0x4000_0000,
                mu == barrett(p as int),
                e == pow(g as int, exponent) % (p as int),
                exponent == ((p - 1) / (2 * k as int)) as nat,
                e < p,
                forall|t: int|
                    0 <= t < i ==> #[trigger] rt@[t] == transform::root_at(
                        g as int,
                        p as int,
                        t as nat,
                    ),
                rt@.len() == size,
            decreases 2 * k - i,
        {
            proof {
                transform::lemma_top_bit(s, (i - k) as nat);
                assert(i & 1 == i % 2) by (bit_vector);
                assert(i >> 1 == i / 2) by (bit_vector);
            }
            if i & 1 == 0 {
                let v: u32 = rt[i >> 1];
                rt[i] = v;
            } else {
                let v: u64 = mulmod(rt[i - 1] as u64, e, p, mu);
                rt[i] = v as u32;
            }
            i = i + 1;
        }
        k = 2 * k;
        proof {
            s = s + 1;
        }
    }
    rt
}

proof fn lemma_table_ends(l: nat)
    ensures
        l == 0 ==> pow2(l) == 1,
        l > 0 ==> pow2(l) >= 2,
{
    lemma2_to64();
    if l > 0 {
        lemma_pow2_unfold(l);
        lemma_pow2_pos((l - 1) as nat);
    }
}

/// Forward root table for size `2^log_n`, prime `pi`.
pub fn fwd_roots(log_n: u32, pi: usize) -> (rt: Arc<Vec<u32>>)
    requires
        log_n < usize::BITS,
        pi < 3,
    ensures
        is_root_table(rt@, log_n as nat, G as int, field::prime(pi as int)),
        rt@.len() == if log_n == 0 {
            2
        } else {
            pow2(log_n as nat)
        },
        rt@[0] == 0 && rt@[1] == 1,
{
    proof {
        lemma_table_ends(log_n as nat);
    }
    Arc::new(build_roots(log_n, pi, false))
}

/// Inverse root table for size `2^log_n`, prime `pi`.
pub fn inv_roots(log_n: u32, pi: usize) -> (rt: Arc<Vec<u32>>)
    requires
        log_n < usize::BITS,
        pi < 3,
    ensures
        is_root_table(
            rt@,
            log_n as nat,
            inverse_generator(pi as int),
            field::prime(pi as int),
        ),
        rt@.len() == if log_n == 0 {
            2
        } else {
            pow2(log_n as nat)
        },
        rt@[0] == 0 && rt@[1] == 1,
{
    proof {
        lemma_table_ends(log_n as nat);
    }
    Arc::new(build_roots(log_n, pi, true))
}

/// No transform prime divides a power of two.
proof fn lemma_power_of_two_unit(l: nat, pi: int)
    requires
        0 <= pi < 3,
    ensures
        pow2(l) as int % field::prime(pi) != 0,
    decreases l,
{
    let p = field::prime(pi);
    field::lemma_prime_shape(pi);
    lemma2_to64();
    if l == 0 {
        lemma_small_mod(1, p as nat);
    } else {
        let m = (l - 1) as nat;
        lemma_pow2_unfold(l);
        lemma_power_of_two_unit(m, pi);
        lemma_small_mod(2, p as nat);
        field::lemma_transform_primes(pi);
        if pow2(l) as int % p == 0 {
            crate::primes::lemma_euclid(2, pow2(m) as int, p);
        }
    }
}

/// The scaling factor of every size inverts the size, and the generator of
/// the inverse transform inverts 3.
pub proof fn lemma_inverse_size(l: nat, pi: int)
    requires
        0 <= pi < 3,
    ensures
        0 <= inverse_size(l, pi) < field::prime(pi),
        (pow2(l) * inverse_size(l, pi)) % field::prime(pi) == 1,
        0 <= inverse_generator(pi) < field::prime(pi),
        (G * inverse_generator(pi)) % field::prime(pi) == 1,
{
    let p = field::prime(pi);
    field::lemma_prime_shape(pi);
    field::lemma_transform_primes(pi);
    lemma_power_of_two_unit(l, pi);
    lemma_mod_inverse(pow2(l) as int, p);
    lemma_mod_bound(pow(pow2(l) as int, (p - 2) as nat), p);
    lemma_small_mod(3, p as nat);
    lemma_mod_inverse(G as int, p);
    lemma_mod_bound(pow(G as int, (p - 2) as nat), p);
}

/// `n^-1 mod p` for `n = 2^log_n`.
pub fn n_inv(log_n: u32, pi: usize) -> (r: u64)
    requires
        log_n < 64,
        pi < 3,
    ensures
        r == inverse_size(log_n as nat, pi as int),
        r < field::prime(pi as int),
        (pow2(log_n as nat) * r) % field::prime(pi as int) == 1,
{
    proof {
        lemma_inverse_size(log_n as nat, pi as int);
        field::lemma_prime_shape(pi as int);
        lemma_u64_pow2_no_overflow(log_n as nat);
        lemma_u64_shl_is_mul(1, log_n as u64);
        lemma_mul_basics(pow2(log_n as nat) as int);
    }
    powmod(1u64 << (log_n as u64), PRIMES[pi] - 2, PRIMES[pi])
}

// ----------------------------------------------------------------------
// Transforms
// ----------------------------------------------------------------------

proof fn lemma_bit_test(j: usize, bit: usize, s: usize)
    by (bit_vector)
    requires
        s < usize::BITS,
        bit == 1usize << s,
        j < 2 * bit,
    ensures
        (j & bit != 0) == (j >= bit),
        j >= bit ==> (j ^ bit) == j - bit,
        j < bit ==> (j ^ bit) == j + bit,
{
}

/// Bit-reversal permutation of `2^l` elements, by counting upwards in
/// reversed binary.
pub fn bit_rev<T: Copy>(a: &mut [T])
    requires
        exists|l: nat| old(a)@.len() == #[trigger] pow2(l),
    ensures
        forall|l: nat|
            old(a)@.len() == #[trigger] pow2(l) ==> final(a)@ == transform::bit_reversed(
                old(a)@,
                l,
            ),
{
    let ghost x = a@;
    let ghost l = choose|l: nat| x.len() == #[trigger] pow2(l);
    let n: usize = a.len();
    let mut j: usize = 0;
    let mut i: usize = 1;
    proof {
        lemma_pow2_pos(l);
        lemma_reverse_zero(l);
        assert forall|k: int|
            0 <= k < n && #[trigger] transform::reverse_bits(l, k as nat) < 1 implies k == 0 by {
            transform::lemma_reverse_bits_involution(l, k as nat);
        }
    }
    while i < n
        invariant
            n == pow2(l),
            x.len() == n,
            a@.len() == n,
            1 <= i <= n,
            j == transform::reverse_bits(l, (i - 1) as nat),
            forall|k: int|
                0 <= k < n ==> #[trigger] a@[k] == if k < i || transform::reverse_bits(l, k as nat)
                    < i {
                    x[transform::reverse_bits(l, k as nat) as int]
                } else {
                    x[k]
                },
        decreases n - i,
    {
        let mut bit: usize = n >> 1;
        let ghost mut t = l;
        let ghost mut c = (i - 1) as nat;
        proof {
            assert(n >> 1 == n / 2) by (bit_vector);
            lemma2_to64();
            assert(l > 0);
            lemma_pow2_unfold(l);
            lemma_pow2_fits(l, n);
        }
        while j & bit != 0
            invariant
                0 < t <= l,
                l <= usize::BITS,
                bit == pow2((t - 1) as nat),
                c + 1 < pow2(t),
                j == transform::reverse_bits(t, c),
                transform::reverse_bits(l, i as nat) == transform::reverse_bits(t, c + 1),
            decreases bit,
        {
            proof {
                lemma_bit_of_reversal(t, c, j, bit);
                assert(bit >> 1 == bit / 2) by (bit_vector);
                transform::lemma_reverse_bits_step(t, c);
                lemma_pow2_unfold((t - 1) as nat);
                lemma_pow2_pos((t - 2) as nat);
            }
            j = j ^ bit;
            bit = bit >> 1;
            proof {
                t = (t - 1) as nat;
                c = c / 2;
            }
        }
        proof {
            lemma_bit_of_reversal(t, c, j, bit);
            transform::lemma_reverse_bits_step(t, c);
        }
        j = j ^ bit;
        let ghost before = a@;
        proof {
            transform::lemma_reverse_bits_involution(l, i as nat);
            transform::lemma_reverse_bits_bound(l, i as nat);
            assert forall|k: int|
                0 <= k < n && #[trigger] transform::reverse_bits(l, k as nat) == i implies k
                    == j by {
                transform::lemma_reverse_bits_involution(l, k as nat);
            }
        }
        if i < j {
            let low: T = a[i];
            a[i] = a[j];
            a[j] = low;
        }
        i = i + 1;
    }
    proof {
        assert(a@ =~= transform::bit_reversed(x, l));
        assert forall|m: nat| x.len() == #[trigger] pow2(m) implies m == l by {
            if m < l {
                lemma_pow2_strictly_increases(m, l);
            } else if l < m {
                lemma_pow2_strictly_increases(l, m);
            }
        }
    }
}

/// Bit reversal of the data is the reordering of its entries.
proof fn lemma_bit_rev(x: Seq<u32>, l: nat)
    requires
        x.len() == pow2(l),
    ensures
        ints(transform::bit_reversed(x, l)) == transform::reorder(ints(x)),
{
    transform::lemma_reorder(ints(x), l);
    assert forall|i: int| 0 <= i < x.len() implies ints(transform::bit_reversed(x, l))[i]
        == transform::bit_reversed(ints(x), l)[i] by {
        transform::lemma_reverse_bits_bound(l, i as nat);
    }
    assert(ints(transform::bit_reversed(x, l)) =~= transform::bit_reversed(ints(x), l));
}

proof fn lemma_reverse_zero(l: nat)
    ensures
        transform::reverse_bits(l, 0) == 0,
    decreases l,
{
    if l > 0 {
        lemma_reverse_zero((l - 1) as nat);
        lemma_mul_basics(pow2((l - 1) as nat) as int);
    }
}

proof fn lemma_pow2_fits(l: nat, n: usize)
    requires
        n == pow2(l),
    ensures
        l < usize::BITS,
{
    if l >= usize::BITS {
        lemma2_to64();
        lemma2_to64_rest();
        lemma_pow2_unfold(usize::BITS as nat);
        if l > usize::BITS {
            lemma_pow2_strictly_increases(usize::BITS as nat, l);
        }
    }
}

proof fn lemma_bit_of_reversal(t: nat, c: nat, j: usize, bit: usize)
    requires
        0 < t <= usize::BITS,
        bit == pow2((t - 1) as nat),
        c + 1 < pow2(t),
        j == transform::reverse_bits(t, c),
    ensures
        (j & bit != 0) == (c % 2 == 1),
        c % 2 == 1 ==> j >= bit && (j ^ bit) == j - bit,
        c % 2 == 0 ==> j < bit && (j ^ bit) == j + bit,
{
    let s = (t - 1) as usize;
    lemma_usize_pow2_no_overflow((t - 1) as nat);
    lemma_usize_shl_is_mul(1, s);
    lemma_mul_basics(bit as int);
    lemma_pow2_unfold(t);
    transform::lemma_reverse_bits_bound(t, c);
    transform::lemma_reverse_bits_step(t, c);
    lemma_bit_test(j, bit, s);
}

/// The butterflies that join two neighbouring blocks of `len` entries.
fn butterfly_block(
    data: &mut [u32],
    i: usize,
    len: usize,
    rt: &[u32],
    p: u64,
    mu: u64,
    Ghost(g): Ghost<int>,
)
    requires
        0 < len,
        i + 2 * len <= old(data)@.len(),
        2 * len <= rt@.len(),
        forall|t: int|
            0 <= t < rt@.len() ==> #[trigger] rt@[t] == transform::root_at(g, p as int, t as nat),
        2 < p < 0x4000_0000,
        mu == barrett(p as int),
    ensures
        final(data)@.len() == old(data)@.len(),
        forall|k: int|
            0 <= k < old(data)@.len() && !(i <= k < i + 2 * len) ==> #[trigger] final(data)@[k]
                == old(data)@[k],
        ints(final(data)@).subrange(i as int, i + 2 * len) == transform::combine(
            ints(old(data)@).subrange(i as int, i + len),
            ints(old(data)@).subrange(i + len, i + 2 * len),
            g,
            p as int,
        ),
{
    let ghost x = data@;
    let total: usize = data.len();
    let ghost joined = transform::combine(
        ints(x).subrange(i as int, i + len),
        ints(x).subrange(i + len, i + 2 * len),
        g,
        p as int,
    );
    let mut j: usize = 0;
    while j < len
        invariant
            0 <= j <= len,
            data@.len() == x.len(),
            x.len() == total,
            i + 2 * len <= x.len(),
            2 * len <= rt@.len(),
            forall|t: int|
                0 <= t < rt@.len() ==> #[trigger] rt@[t] == transform::root_at(
                    g,
                    p as int,
                    t as nat,
                ),
            2 < p < 0x4000_0000,
            mu == barrett(p as int),
            joined == transform::combine(
                ints(x).subrange(i as int, i + len),
                ints(x).subrange(i + len, i + 2 * len),
                g,
                p as int,
            ),
            forall|k: int|
                0 <= k < x.len() ==> #[trigger] data@[k] == if i <= k < i + j || i + len <= k < i
                    + len + j {
                    joined[k - i]
                } else {
                    x[k] as int
                },
        decreases len - j,
    {
        let u: u64 = data[i + j] as u64;
        let v: u64 = mulmod(data[i + j + len] as u64, rt[len + j] as u64, p, mu);
        proof {
            assert(data@[i + j] == x[i + j]);
            assert(data@[i + j + len] == x[i + j + len]);
            assert(rt@[len + j] == transform::root_at(g, p as int, (len + j) as nat));
            lemma_mod_bound(
                x[i + j + len] * transform::root_at(g, p as int, (len + j) as nat),
                p as int,
            );
            let e = ints(x).subrange(i as int, i + len);
            let o = ints(x).subrange(i + len, i + 2 * len);
            assert(e[j as int] == x[i + j] as int);
            assert(o[j as int] == x[i + j + len] as int);
        }
        let sum: u64 = u + v;
        let low: u32 = (if sum >= p {
            sum - p
        } else {
            sum
        }) as u32;
        let high: u32 = (if u < v {
            u + p - v
        } else {
            u - v
        }) as u32;
        proof {
            assert(joined[j as int] == low);
            assert(joined[len + j] == high);
        }
        data[i + j] = low;
        data[i + j + len] = high;
        j = j + 1;
    }
    assert(ints(data@).subrange(i as int, i + 2 * len) =~= joined);
}

proof fn lemma_aligned(i: int, n: int, t: int)
    requires
        t > 0,
        i % t == 0,
        n % t == 0,
    ensures
        i < n ==> i + t <= n,
        (i + t) % t == 0,
{
    lemma_fundamental_div_mod(i, t);
    lemma_fundamental_div_mod(n, t);
    modular::lemma_congruent_shift(i, 1, t);
    let a = i / t;
    let b = n / t;
    if i < n {
        assert(i + t <= n) by (nonlinear_arith)
            requires
                i == t * a,
                n == t * b,
                i < n,
                t > 0,
        ;
    }
}

proof fn lemma_aligned_double(i: int, t: int)
    requires
        t > 0,
        i % (2 * t) == 0,
    ensures
        i % t == 0,
        (i + t) % t == 0,
{
    lemma_fundamental_div_mod(i, 2 * t);
    let q = i / (2 * t);
    assert(i == 0 + (2 * q) * t) by (nonlinear_arith)
        requires
            i == (2 * t) * q,
    ;
    modular::lemma_congruent_shift(0, 2 * q, t);
    lemma_small_mod(0, t as nat);
    modular::lemma_congruent_shift(i, 1, t);
}

/// The block of `len` entries at `i` holds its own butterflies.
spec fn block_done(data: Seq<u32>, y: Seq<int>, i: int, len: int, g: int, p: int) -> bool {
    ints(data).subrange(i, i + len) == transform::butterflies(y.subrange(i, i + len), g, p)
}

proof fn lemma_block_frame(
    a: Seq<u32>,
    b: Seq<u32>,
    y: Seq<int>,
    i: int,
    len: int,
    g: int,
    p: int,
)
    requires
        0 <= i,
        0 <= len,
        i + len <= a.len(),
        a.len() == b.len(),
        block_done(a, y, i, len, g, p),
        forall|k: int| i <= k < i + len ==> a[k] == b[k],
    ensures
        block_done(b, y, i, len, g, p),
{
    assert(ints(a).subrange(i, i + len) =~= ints(b).subrange(i, i + len));
}

/// All butterfly stages over data in bit-reversed order.
fn butterfly_stages(
    data: &mut [u32],
    log_n: u32,
    rt: &[u32],
    p: u64,
    mu: u64,
    Ghost(g): Ghost<int>,
)
    requires
        log_n < usize::BITS,
        old(data)@.len() == pow2(log_n as nat),
        is_root_table(rt@, log_n as nat, g, p as int),
        2 < p < 0x4000_0000,
        mu == barrett(p as int),
    ensures
        final(data)@.len() == old(data)@.len(),
        ints(final(data)@) == transform::butterflies(ints(old(data)@), g, p as int),
{
    let ghost y = ints(data@);
    let n: usize = power_of_two(log_n);
    let mut len: usize = 1;
    let ghost mut s: nat = 0;
    proof {
        lemma2_to64();
        assert forall|b: int| 0 <= b < n && b % 1 == 0 implies #[trigger] block_done(
            data@,
            y,
            b,
            1,
            g,
            p as int,
        ) by {
            assert(ints(data@).subrange(b, b + 1) =~= y.subrange(b, b + 1));
        }
    }
    while len < n
        invariant
            n == pow2(log_n as nat),
            log_n < usize::BITS,
            data@.len() == n,
            y.len() == n,
            len == pow2(s),
            s <= log_n,
            is_root_table(rt@, log_n as nat, g, p as int),
            2 < p < 0x4000_0000,
            mu == barrett(p as int),
            forall|b: int|
                0 <= b < n && b % (len as int) == 0 ==> #[trigger] block_done(
                    data@,
                    y,
                    b,
                    len as int,
                    g,
                    p as int,
                ),
        decreases log_n - s,
    {
        proof {
            assert(s < log_n);
            lemma_pow2_pos(s);
            lemma_pow2_unfold(s + 1);
            lemma_pow2_adds(s + 1, (log_n - s - 1) as nat);
            lemma_pow2_pos((log_n - s - 1) as nat);
            let c = pow2((log_n - s - 1) as nat) as int;
            assert(n == 0 + c * (2 * len)) by (nonlinear_arith)
                requires
                    n == (2 * len) * c,
            ;
            assert(2 * len <= n) by (nonlinear_arith)
                requires
                    n == (2 * len) * c,
                    c >= 1,
                    len >= 0,
            ;
            modular::lemma_congruent_shift(0, c, 2 * len as int);
            lemma_small_mod(0, (2 * len) as nat);
            assert(n as int % (2 * len as int) == 0);
        }
        let two: usize = 2 * len;
        let mut i: usize = 0;
        while i < n
            invariant
                0 < len,
                two == 2 * len,
                two <= n,
                n as int % two as int == 0,
                i as int % two as int == 0,
                i <= n,
                data@.len() == n,
                y.len() == n,
                len == pow2(s),
                is_root_table(rt@, log_n as nat, g, p as int),
                n == pow2(log_n as nat),
                2 < p < 0x4000_0000,
                mu == barrett(p as int),
                forall|b: int|
                    0 <= b < i && b % (two as int) == 0 ==> #[trigger] block_done(
                        data@,
                        y,
                        b,
                        two as int,
                        g,
                        p as int,
                    ),
                forall|b: int|
                    i <= b < n && b % (len as int) == 0 ==> #[trigger] block_done(
                        data@,
                        y,
                        b,
                        len as int,
                        g,
                        p as int,
                    ),
            decreases n - i,
        {
            let ghost before = data@;
            proof {
                lemma_aligned(i as int, n as int, two as int);
                lemma_aligned_double(i as int, len as int);
                assert(block_done(data@, y, i as int, len as int, g, p as int));
                assert(block_done(data@, y, i + len, len as int, g, p as int));
            }
            butterfly_block(data, i, len, rt, p, mu, Ghost(g));
            proof {
                let block = y.subrange(i as int, i + two);
                assert(block.subrange(0, len as int) =~= y.subrange(i as int, i + len));
                assert(block.subrange(len as int, two as int) =~= y.subrange(i + len, i + len + len));
                assert(block_done(data@, y, i as int, two as int, g, p as int));
                assert forall|b: int|
                    0 <= b < i + two && b % (two as int) == 0 implies #[trigger] block_done(
                    data@,
                    y,
                    b,
                    two as int,
                    g,
                    p as int,
                ) by {
                    if b < i {
                        lemma_aligned(b, i as int, two as int);
                        assert(block_done(before, y, b, two as int, g, p as int));
                        lemma_block_frame(before, data@, y, b, two as int, g, p as int);
                    } else if b > i {
                        lemma_aligned(i as int, b, two as int);
                    }
                }
                assert forall|b: int|
                    i + two <= b < n && b % (len as int) == 0 implies #[trigger] block_done(
                    data@,
                    y,
                    b,
                    len as int,
                    g,
                    p as int,
                ) by {
                    lemma_aligned_double(n as int, len as int);
                    lemma_aligned(b, n as int, len as int);
                    assert(block_done(before, y, b, len as int, g, p as int));
                    lemma_block_frame(before, data@, y, b, len as int, g, p as int);
                }
            }
            i = i + two;
        }
        len = two;
        proof {
            s = s + 1;
        }
    }
    proof {
        if s < log_n {
            lemma_pow2_strictly_increases(s, log_n as nat);
        }
        lemma_small_mod(0, n as nat);
        assert(block_done(data@, y, 0, n as int, g, p as int));
        assert(ints(data@).subrange(0, n as int) =~= ints(data@));
        assert(y.subrange(0, n as int) =~= y);
    }
}

/// The numbers that the inverse transform of size `2^l` leaves behind: the
/// transform with the inverse generator, scaled by `1/n` and fully reduced.
pub open spec fn inverse_transform(y: Seq<int>, l: nat, pi: int) -> Seq<int> {
    if l == 0 {
        y
    } else {
        Seq::new(
            y.len(),
            |k: int|
                (transform::transform(y, inverse_generator(pi), field::prime(pi))[k]
                    * inverse_size(l, pi)) % field::prime(pi),
        )
    }
}

/// Forward in-place transform with a table that was built before.
pub fn ntt_forward_with(data: &mut [u32], log_n: u32, pi: usize, rt: &[u32])
    requires
        pi < 3,
        log_n < usize::BITS,
        old(data)@.len() == pow2(log_n as nat),
        is_root_table(rt@, log_n as nat, G as int, field::prime(pi as int)),
    ensures
        final(data)@.len() == old(data)@.len(),
        ints(final(data)@) == transform::transform(
            ints(old(data)@),
            G as int,
            field::prime(pi as int),
        ),
{
    let ghost x = ints(data@);
    let p: u64 = PRIMES[pi];
    let mu: u64 = MU_PRIMES[pi];
    proof {
        field::lemma_prime_shape(pi as int);
        lemma_mu(pi as int);
        lemma_bit_rev(data@, log_n as nat);
    }
    bit_rev(data);
    butterfly_stages(data, log_n, rt, p, mu, Ghost(G as int));
    proof {
        transform::lemma_butterflies_reorder(x, log_n as nat, G as int, p as int);
    }
}

/// Inverse in-place transform with a table and a scaling factor that were
/// computed before.
pub fn ntt_inverse_with(data: &mut [u32], log_n: u32, pi: usize, rt: &[u32], ni: u64)
    requires
        pi < 3,
        0 < log_n < usize::BITS,
        old(data)@.len() == pow2(log_n as nat),
        is_root_table(
            rt@,
            log_n as nat,
            inverse_generator(pi as int),
            field::prime(pi as int),
        ),
        ni == inverse_size(log_n as nat, pi as int),
    ensures
        final(data)@.len() == old(data)@.len(),
        ints(final(data)@) == inverse_transform(ints(old(data)@), log_n as nat, pi as int),
{
    let ghost x = ints(data@);
    let ghost g = inverse_generator(pi as int);
    let p: u64 = PRIMES[pi];
    let mu: u64 = MU_PRIMES[pi];
    proof {
        field::lemma_prime_shape(pi as int);
        lemma_mu(pi as int);
        lemma_mod_bound(
            pow(pow2(log_n as nat) as int, (p - 2) as nat),
            p as int,
        );
        lemma_bit_rev(data@, log_n as nat);
    }
    bit_rev(data);
    butterfly_stages(data, log_n, rt, p, mu, Ghost(g));
    proof {
        transform::lemma_butterflies_reorder(x, log_n as nat, g, p as int);
    }
    let ghost t = data@;
    let n: usize = data.len();
    let mut k: usize = 0;
    while k < n
        invariant
            n == t.len(),
            data@.len() == n,
            k <= n,
            2 < p < 0x4000_0000,
            mu == barrett(p as int),
            ni < p,
            forall|i: int|
                0 <= i < n ==> #[trigger] data@[i] == if i < k {
                    (t[i] * ni) % (p as int)
                } else {
                    t[i] as int
                },
        decreases n - k,
    {
        assert(data@[k as int] == t[k as int]);
        let v: u64 = mulmod(data[k] as u64, ni, p, mu);
        proof {
            lemma_mod_bound(t[k as int] * ni, p as int);
        }
        data[k] = v as u32;
        k = k + 1;
    }
    proof {
        assert forall|i: int| 0 <= i < n implies t[i] == #[trigger] transform::transform(
            x,
            g,
            p as int,
        )[i] by {
            assert(ints(t)[i] == t[i]);
        }
        assert(ints(data@) =~= inverse_transform(x, log_n as nat, pi as int));
    }
}

/// Forward in-place NTT over exactly `2^log_n` elements.
pub fn ntt_forward(data: &mut [u32], log_n: u32, pi: usize)
    requires
        log_n == 0 || (pi < 3 && log_n < usize::BITS && old(data)@.len() == pow2(log_n as nat)),
    ensures
        final(data)@.len() == old(data)@.len(),
        log_n == 0 ==> final(data)@ == old(data)@,
        log_n > 0 ==> ints(final(data)@) == transform::transform(
            ints(old(data)@),
            G as int,
            field::prime(pi as int),
        ),
{
    if log_n == 0 {
        return ;
    }
    let rt: Arc<Vec<u32>> = fwd_roots(log_n, pi);
    ntt_forward_with(data, log_n, pi, rt.as_slice());
}

/// Inverse in-place NTT over exactly `2^log_n` elements (includes the `1/n`
/// scaling).
pub fn ntt_inverse(data: &mut [u32], log_n: u32, pi: usize)
    requires
        log_n == 0 || (pi < 3 && log_n < usize::BITS && old(data)@.len() == pow2(log_n as nat)),
    ensures
        final(data)@.len() == old(data)@.len(),
        log_n == 0 ==> final(data)@ == old(data)@,
        log_n > 0 ==> ints(final(data)@) == inverse_transform(
            ints(old(data)@),
            log_n as nat,
            pi as int,
        ),
{
    if log_n == 0 {
        return ;
    }
    let rt: Arc<Vec<u32>> = inv_roots(log_n, pi);
    let ni: u64 = n_inv(log_n, pi);
    ntt_inverse_with(data, log_n, pi, rt.as_slice(), ni);
}

} // verus!
