//! Products of big integers by transforms, and the doubling step of the
//! Fibonacci recurrence built on them.
use crate::bigint::BigInt;
use crate::bigint::FibError;
use crate::bigint::LIMB_BASE;
use crate::bigint::PARALLEL_NTT_MIN_N;
use crate::bigint;
use crate::convolution;
use crate::crt;
use crate::field;
use crate::limbs;
use crate::ntt;
use crate::poly;
use crate::tables;
use crate::transform;
use vstd::arithmetic::div_mod::*;
use vstd::arithmetic::mul::*;
use vstd::arithmetic::power2::*;
use vstd::prelude::*;

verus! {

/// A buffer of `len` entries can be transformed with the tables `t`.
spec fn ready(len: nat, log_n: u32, pi: usize, t: tables::TransformTables) -> bool {
    &&& pi < 3
    &&& 0 < log_n < usize::BITS
    &&& len == pow2(log_n as nat)
    &&& t.serve(log_n as nat, pi as int)
}

/// `r` lists the coefficients `c`, reduced modulo prime `pi`.
pub open spec fn residues_of(r: Seq<u32>, c: Seq<int>, pi: int) -> bool {
    &&& r.len() == c.len()
    &&& forall|m: int| 0 <= m < c.len() ==> #[trigger] r[m] == c[m] % field::prime(pi)
}

/// The coefficients of a product never outgrow what three residues can tell
/// apart: at most `2^23` products of two limbs stay below `P1 * P2 * P3`.
pub proof fn lemma_coefficient_range(a: Seq<u32>, b: Seq<u32>, n: nat, m: int)
    requires
        limbs::digits(a),
        limbs::digits(b),
        a.len() <= 0x80_0000,
        0 <= m < n,
    ensures
        0 <= poly::poly_mul(ntt::ints(a), ntt::ints(b), n)[m] < crt::three_primes(),
{
    let ia = ntt::ints(a);
    let ib = ntt::ints(b);
    let top = 999_999_999int;
    poly::lemma_mul_len(ia, ib, n);
    assert forall|i: int| 0 <= i < ia.len() implies 0 <= #[trigger] ia[i] <= top by {
        assert(a[i] < LIMB_BASE);
    }
    assert forall|i: int| 0 <= i < ib.len() implies 0 <= #[trigger] ib[i] <= top by {
        assert(b[i] < LIMB_BASE);
    }
    poly::lemma_mul_bound(ia, ib, n, top);
    assert(a.len() * (top * top) <= 0x80_0000 * (top * top)) by (nonlinear_arith)
        requires
            0 <= a.len() <= 0x80_0000,
    ;
    assert(0 <= poly::poly_mul(ia, ib, n)[m] <= a.len() * (top * top));
}

/// The residues of the coefficients of a product determine the product.
proof fn lemma_product_from_residues(
    a: Seq<u32>,
    b: Seq<u32>,
    r1: Seq<u32>,
    r2: Seq<u32>,
    r3: Seq<u32>,
    n: nat,
)
    requires
        limbs::digits(a),
        limbs::digits(b),
        a.len() + b.len() <= n,
        n <= 0x80_0000,
        residues_of(r1, poly::poly_mul(ntt::ints(a), ntt::ints(b), n), 0),
        residues_of(r2, poly::poly_mul(ntt::ints(a), ntt::ints(b), n), 1),
        residues_of(r3, poly::poly_mul(ntt::ints(a), ntt::ints(b), n), 2),
    ensures
        bigint::reduced(r1, n, 0),
        bigint::reduced(r2, n, 1),
        bigint::reduced(r3, n, 2),
        poly::poly_eval(bigint::coefficients(r1, r2, r3, n), limbs::base()) == limbs::value(a)
            * limbs::value(b),
{
    let ia = ntt::ints(a);
    let ib = ntt::ints(b);
    let c = poly::poly_mul(ia, ib, n);
    field::lemma_prime_shape(0);
    field::lemma_prime_shape(1);
    field::lemma_prime_shape(2);
    poly::lemma_mul_len(ia, ib, n);
    poly::lemma_eval_mul(ia, ib, n, limbs::base());
    assert forall|m: int| 0 <= m < n implies #[trigger] bigint::coefficients(r1, r2, r3, n)[m] == c[m] by {
        assert(r1[m] == c[m] % field::prime(0));
        assert(r2[m] == c[m] % field::prime(1));
        assert(r3[m] == c[m] % field::prime(2));
        lemma_coefficient_range(a, b, n, m);
        crt::lemma_combined_unique(c[m]);
    }
    assert(bigint::coefficients(r1, r2, r3, n) =~= c);
    assert forall|i: int| 0 <= i < r1.len() implies #[trigger] r1[i] < field::prime(0) by {
        lemma_mod_bound(c[i], field::prime(0));
    }
    assert forall|i: int| 0 <= i < r2.len() implies #[trigger] r2[i] < field::prime(1) by {
        lemma_mod_bound(c[i], field::prime(1));
    }
    assert forall|i: int| 0 <= i < r3.len() implies #[trigger] r3[i] < field::prime(2) by {
        lemma_mod_bound(c[i], field::prime(2));
    }
}

/// Point-wise product of two transforms.
fn multiply_points(fa: &[u32], fb: &[u32], pi: usize) -> (r: Vec<u32>)
    requires
        pi < 3,
        fa@.len() == fb@.len(),
    ensures
        ntt::ints(r@) == convolution::pointwise(
            ntt::ints(fa@),
            ntt::ints(fb@),
            field::prime(pi as int),
        ),
{
    let n: usize = fa.len();
    let p: u64 = ntt::PRIMES[pi];
    let mu: u64 = ntt::MU_PRIMES[pi];
    proof {
        field::lemma_prime_shape(pi as int);
        ntt::lemma_mu(pi as int);
    }
    let mut r: Vec<u32> = vec![0u32; n];
    let mut i: usize = 0;
    while i < n
        invariant
            i <= n,
            fa@.len() == n,
            fb@.len() == n,
            r@.len() == n,
            p == field::prime(pi as int),
            2 < p < 0x4000_0000,
            mu == ntt::barrett(p as int),
            forall|k: int| 0 <= k < i ==> #[trigger] r@[k] == (fa@[k] * fb@[k]) % (p as int),
        decreases n - i,
    {
        let v: u64 = ntt::mulmod(fa[i] as u64, fb[i] as u64, p, mu);
        proof {
            lemma_mod_bound(fa@[i as int] * fb@[i as int], p as int);
        }
        r[i] = v as u32;
        i = i + 1;
    }
    assert(ntt::ints(r@) =~= convolution::pointwise(
        ntt::ints(fa@),
        ntt::ints(fb@),
        field::prime(pi as int),
    ));
    r
}

/// The forward transform of an owned buffer.
fn forward(data: Vec<u32>, log_n: u32, pi: usize, t: &tables::TransformTables) -> (r: Vec<u32>)
    requires
        ready(data@.len(), log_n, pi, *t),
    ensures
        r@.len() == data@.len(),
        ntt::ints(r@) == transform::transform(
            ntt::ints(data@),
            ntt::G as int,
            field::prime(pi as int),
        ),
{
    let mut data = data;
    ntt::ntt_forward_with(&mut data, log_n, pi, t.fwd.as_slice());
    data
}

/// The inverse transform of an owned buffer.
fn inverse(data: Vec<u32>, log_n: u32, pi: usize, t: &tables::TransformTables) -> (r: Vec<u32>)
    requires
        ready(data@.len(), log_n, pi, *t),
    ensures
        r@.len() == data@.len(),
        ntt::ints(r@) == ntt::inverse_transform(ntt::ints(data@), log_n as nat, pi as int),
{
    let mut data = data;
    ntt::ntt_inverse_with(&mut data, log_n, pi, t.inv.as_slice(), t.n_inv);
    data
}

/// What one prime contributes to a product of `a` and `b`.
pub open spec fn product_residues(a: Seq<int>, b: Seq<int>, l: nat, pi: int) -> Seq<int> {
    let p = field::prime(pi);
    let ta = transform::transform(a, ntt::G as int, p);
    let tb = transform::transform(b, ntt::G as int, p);
    ntt::inverse_transform(convolution::pointwise(ta, tb, p), l, pi)
}

/// `ra`, `rb` and `rab` are what prime `pi` contributes to `a^2`, `b^2` and
/// `a * b`.
spec fn doubled(
    fa: Seq<u32>,
    fb: Seq<u32>,
    log_n: u32,
    pi: int,
    ra: Seq<u32>,
    rb: Seq<u32>,
    rab: Seq<u32>,
) -> bool {
    let a = ntt::ints(fa);
    let b = ntt::ints(fb);
    &&& ntt::ints(ra) == product_residues(a, a, log_n as nat, pi)
    &&& ntt::ints(rb) == product_residues(b, b, log_n as nat, pi)
    &&& ntt::ints(rab) == product_residues(a, b, log_n as nat, pi)
}

impl BigInt {
    /// One prime track of the doubling step: the residues of `a^2`, `b^2` and
    /// `a * b` from a single pair of forward transforms.
    fn double_track(
        fa: Vec<u32>,
        fb: Vec<u32>,
        log_n: u32,
        pi: usize,
        t: &tables::TransformTables,
    ) -> (r: (Vec<u32>, Vec<u32>, Vec<u32>))
        requires
            ready(fa@.len(), log_n, pi, *t),
            fb@.len() == fa@.len(),
        ensures
            doubled(fa@, fb@, log_n, pi as int, r.0@, r.1@, r.2@),
    {
        let n: usize = fa.len();
        let (ta, tb) = if n >= PARALLEL_NTT_MIN_N {
            rayon::join(
                move || -> (r: Vec<u32>)
                    requires
                        ready(fa@.len(), log_n, pi, *t),
                    ensures
                        r@.len() == fa@.len(),
                        ntt::ints(r@) == transform::transform(
                            ntt::ints(fa@),
                            ntt::G as int,
                            field::prime(pi as int),
                        )
                    { forward(fa, log_n, pi, t) },
                move || -> (r: Vec<u32>)
                    requires
                        ready(fb@.len(), log_n, pi, *t),
                    ensures
                        r@.len() == fb@.len(),
                        ntt::ints(r@) == transform::transform(
                            ntt::ints(fb@),
                            ntt::G as int,
                            field::prime(pi as int),
                        )
                    { forward(fb, log_n, pi, t) },
            )
        } else {
            (forward(fa, log_n, pi, t), forward(fb, log_n, pi, t))
        };
        let ra = multiply_points(ta.as_slice(), ta.as_slice(), pi);
        let rb = multiply_points(tb.as_slice(), tb.as_slice(), pi);
        let rab = multiply_points(ta.as_slice(), tb.as_slice(), pi);
        proof {
            assert(ntt::ints(ra@).len() == n);
            assert(ntt::ints(rb@).len() == n);
            assert(ntt::ints(rab@).len() == n);
        }
        if n >= PARALLEL_NTT_MIN_N {
            let (ia, (ib, iab)) = rayon::join(
                move || -> (r: Vec<u32>)
                    requires
                        ready(ra@.len(), log_n, pi, *t),
                    ensures
                        ntt::ints(r@) == ntt::inverse_transform(
                            ntt::ints(ra@),
                            log_n as nat,
                            pi as int,
                        )
                    { inverse(ra, log_n, pi, t) },
                move || -> (r: (Vec<u32>, Vec<u32>))
                    requires
                        ready(rb@.len(), log_n, pi, *t),
                        rab@.len() == rb@.len(),
                    ensures
                        ntt::ints(r.0@) == ntt::inverse_transform(
                            ntt::ints(rb@),
                            log_n as nat,
                            pi as int,
                        ),
                        ntt::ints(r.1@) == ntt::inverse_transform(
                            ntt::ints(rab@),
                            log_n as nat,
                            pi as int,
                        )
                    { inverse_pair(rb, rab, log_n, pi, t) },
            );
            (ia, ib, iab)
        } else {
            (inverse(ra, log_n, pi, t), inverse(rb, log_n, pi, t), inverse(rab, log_n, pi, t))
        }
    }
}

/// Two inverse transforms, forked.
fn inverse_pair(
    x: Vec<u32>,
    y: Vec<u32>,
    log_n: u32,
    pi: usize,
    t: &tables::TransformTables,
) -> (r: (Vec<u32>, Vec<u32>))
    requires
        ready(x@.len(), log_n, pi, *t),
        y@.len() == x@.len(),
    ensures
        ntt::ints(r.0@) == ntt::inverse_transform(ntt::ints(x@), log_n as nat, pi as int),
        ntt::ints(r.1@) == ntt::inverse_transform(ntt::ints(y@), log_n as nat, pi as int),
{
    rayon::join(
        move || -> (r: Vec<u32>)
            requires
                ready(x@.len(), log_n, pi, *t),
            ensures
                ntt::ints(r@) == ntt::inverse_transform(ntt::ints(x@), log_n as nat, pi as int)
            { inverse(x, log_n, pi, t) },
        move || -> (r: Vec<u32>)
            requires
                ready(y@.len(), log_n, pi, *t),
            ensures
                ntt::ints(r@) == ntt::inverse_transform(ntt::ints(y@), log_n as nat, pi as int)
            { inverse(y, log_n, pi, t) },
    )
}

/// A track computes the coefficients of the product, reduced.
proof fn lemma_track(a: Seq<u32>, b: Seq<u32>, r: Seq<u32>, l: nat, pi: int)
    requires
        0 <= pi < 3,
        l <= field::max_log(pi),
        a.len() + b.len() <= pow2(l),
        ntt::ints(r) == product_residues(
            poly::poly_pad(ntt::ints(a), pow2(l)),
            poly::poly_pad(ntt::ints(b), pow2(l)),
            l,
            pi,
        ),
    ensures
        residues_of(r, poly::poly_mul(ntt::ints(a), ntt::ints(b), pow2(l)), pi),
{
    let n = pow2(l);
    let ia = ntt::ints(a);
    let ib = ntt::ints(b);
    let c = poly::poly_mul(ia, ib, n);
    let p = field::prime(pi);
    poly::lemma_mul_len(ia, ib, n);
    transform::lemma_transform_len(poly::poly_pad(ia, n), l, ntt::G as int, p);
    assert(ntt::ints(r).len() == n);
    assert forall|m: int| 0 <= m < n implies #[trigger] r[m] == c[m] % p by {
        convolution::lemma_convolution(ia, ib, l, pi, m);
        assert(ntt::ints(r)[m] == r[m]);
    }
}

/// Both operands of a doubling step fit into this many limbs (at least one).
pub open spec fn operand_limbs(a: nat, b: nat) -> nat {
    let la = limbs::limb_count(a);
    let lb = limbs::limb_count(b);
    let m = if la < lb {
        lb
    } else {
        la
    };
    if m < 1 {
        1
    } else {
        m
    }
}

/// The base-2 logarithm of the transform size that a doubling step needs.
pub open spec fn transform_log(a: nat, b: nat) -> nat {
    ntt::ceil_log(2 * operand_limbs(a, b))
}

/// `2^l` is the smallest power of two that holds each operand of a doubling
/// step twice over, and at least two entries.
pub open spec fn is_step_log(a: nat, b: nat, l: nat) -> bool {
    let la = limbs::limb_count(a);
    let lb = limbs::limb_count(b);
    &&& l >= 1
    &&& 2 * la <= pow2(l)
    &&& 2 * lb <= pow2(l)
    &&& l == 1 || pow2((l - 1) as nat) < 2 * la || pow2((l - 1) as nat) < 2 * lb
}

/// The transform size of a doubling step is the least that will do, and it is
/// within the limit exactly when neither operand has more than `2^22` limbs.
pub proof fn lemma_transform_log(a: nat, b: nat)
    ensures
        is_step_log(a, b, transform_log(a, b)),
        transform_log(a, b) <= ntt::MAX_LOG_N <==> limbs::limb_count(a) <= 0x40_0000
            && limbs::limb_count(b) <= 0x40_0000,
{
    let m = operand_limbs(a, b);
    lemma2_to64();
    ntt::lemma_ceil_log(2 * m, transform_log(a, b));
    ntt::lemma_ceil_log(2 * m, 23);
}

impl BigInt {
    /// One prime track of a single product.
    fn product_track(a: &Self, b: &Self, log_n: u32, n: usize, pi: usize) -> (r: Vec<u32>)
        requires
            a.wf(),
            b.wf(),
            pi < 3,
            log_n < usize::BITS,
            n == pow2(log_n as nat),
            a.limb_seq().len() <= n,
            b.limb_seq().len() <= n,
        ensures
            ntt::ints(r@) == product_residues(
                poly::poly_pad(ntt::ints(a.limb_seq()), n as nat),
                poly::poly_pad(ntt::ints(b.limb_seq()), n as nat),
                log_n as nat,
                pi as int,
            ),
    {
        let mut fa: Vec<u32> = vec![0u32; n];
        let mut fb: Vec<u32> = vec![0u32; n];
        Self::fill_u32(a, &mut fa);
        Self::fill_u32(b, &mut fb);
        proof {
            assert(ntt::ints(fa@).len() == n);
            assert(ntt::ints(fb@).len() == n);
            lemma2_to64();
        }
        ntt::ntt_forward(&mut fa, log_n, pi);
        ntt::ntt_forward(&mut fb, log_n, pi);
        let mut r: Vec<u32> = multiply_points(fa.as_slice(), fb.as_slice(), pi);
        assert(ntt::ints(r@).len() == n);
        ntt::ntt_inverse(&mut r, log_n, pi);
        r
    }

    /// Single product by transforms of size `n = 2^log_n`.
    pub fn mul_ntt(a: &Self, b: &Self, log_n: u32, n: usize) -> (r: Self)
        requires
            a.wf(),
            b.wf(),
            log_n <= ntt::MAX_LOG_N,
            n == pow2(log_n as nat),
            a.limb_seq().len() + b.limb_seq().len() <= n,
        ensures
            r.wf(),
            r@ == a@ * b@,
            r.capacity() == n + 4,
    {
        let (r1, (r2, r3)) = if n < PARALLEL_NTT_MIN_N {
            (
                Self::product_track(a, b, log_n, n, 0),
                (
                    Self::product_track(a, b, log_n, n, 1),
                    Self::product_track(a, b, log_n, n, 2),
                ),
            )
        } else {
            rayon::join(
                move || -> (r: Vec<u32>)
                    requires
                        Self::track_ready(a, b, log_n, n)
                    ensures
                        Self::track_done(a, b, log_n, n, 0, r@)
                    { Self::product_track(a, b, log_n, n, 0) },
                move || -> (r: (Vec<u32>, Vec<u32>))
                    requires
                        Self::track_ready(a, b, log_n, n)
                    ensures
                        Self::track_done(a, b, log_n, n, 1, r.0@),
                        Self::track_done(a, b, log_n, n, 2, r.1@)
                    { Self::product_track_pair(a, b, log_n, n) },
            )
        };
        proof {
            let l = log_n as nat;
            lemma_size_limit(l);
            a.lemma_wf();
            b.lemma_wf();
            let sa = a.limb_seq();
            let sb = b.limb_seq();
            lemma_three_tracks(sa, sb, r1@, r2@, r3@, l);
        }
        Self::garner(r1.as_slice(), r2.as_slice(), r3.as_slice(), n)
    }

    spec fn track_ready(a: &Self, b: &Self, log_n: u32, n: usize) -> bool {
        &&& a.wf()
        &&& b.wf()
        &&& log_n < usize::BITS
        &&& n == pow2(log_n as nat)
        &&& a.limb_seq().len() <= n
        &&& b.limb_seq().len() <= n
    }

    spec fn track_done(a: &Self, b: &Self, log_n: u32, n: usize, pi: int, r: Seq<u32>) -> bool {
        ntt::ints(r) == product_residues(
            poly::poly_pad(ntt::ints(a.limb_seq()), n as nat),
            poly::poly_pad(ntt::ints(b.limb_seq()), n as nat),
            log_n as nat,
            pi,
        )
    }

    /// The second and the third track of a single product, forked.
    fn product_track_pair(a: &Self, b: &Self, log_n: u32, n: usize) -> (r: (Vec<u32>, Vec<u32>))
        requires
            Self::track_ready(a, b, log_n, n),
        ensures
            Self::track_done(a, b, log_n, n, 1, r.0@),
            Self::track_done(a, b, log_n, n, 2, r.1@),
    {
        rayon::join(
            move || -> (r: Vec<u32>)
                requires
                    Self::track_ready(a, b, log_n, n)
                ensures
                    Self::track_done(a, b, log_n, n, 1, r@)
                { Self::product_track(a, b, log_n, n, 1) },
            move || -> (r: Vec<u32>)
                requires
                    Self::track_ready(a, b, log_n, n)
                ensures
                    Self::track_done(a, b, log_n, n, 2, r@)
                { Self::product_track(a, b, log_n, n, 2) },
        )
    }
}

/// A size within the limit is one that every prime supports.
pub proof fn lemma_size_limit(l: nat)
    requires
        l <= ntt::MAX_LOG_N,
    ensures
        pow2(l) <= 0x80_0000,
        l <= field::max_log(0),
        l <= field::max_log(1),
        l <= field::max_log(2),
{
    lemma2_to64();
    if l < 23 {
        lemma_pow2_strictly_increases(l, 23);
    }
}

/// The residues of the three products of a doubling step, modulo one prime.
type Track = (Vec<u32>, Vec<u32>, Vec<u32>);

/// Two tracks of a doubling step, forked.
fn double_track_pair(
    a1: Vec<u32>,
    b1: Vec<u32>,
    a2: Vec<u32>,
    b2: Vec<u32>,
    log_n: u32,
    t1: &tables::TransformTables,
    t2: &tables::TransformTables,
) -> (r: (Track, Track))
    requires
        ready(a1@.len(), log_n, 1, *t1),
        b1@.len() == a1@.len(),
        ready(a2@.len(), log_n, 2, *t2),
        b2@.len() == a2@.len(),
    ensures
        doubled(a1@, b1@, log_n, 1, r.0.0@, r.0.1@, r.0.2@),
        doubled(a2@, b2@, log_n, 2, r.1.0@, r.1.1@, r.1.2@),
{
    rayon::join(
        move || -> (r: Track)
            requires
                ready(a1@.len(), log_n, 1, *t1),
                b1@.len() == a1@.len()
            ensures
                doubled(a1@, b1@, log_n, 1, r.0@, r.1@, r.2@)
            { BigInt::double_track(a1, b1, log_n, 1, t1) },
        move || -> (r: Track)
            requires
                ready(a2@.len(), log_n, 2, *t2),
                b2@.len() == a2@.len()
            ensures
                doubled(a2@, b2@, log_n, 2, r.0@, r.1@, r.2@)
            { BigInt::double_track(a2, b2, log_n, 2, t2) },
    )
}

/// What a doubling step returns for operands `a` and `b`.
pub open spec fn is_doubling(
    r: Result<(BigInt, BigInt), FibError>,
    a: nat,
    b: nat,
) -> bool {
    let l = transform_log(a, b);
    match r {
        Ok((x, y)) => {
            &&& l <= ntt::MAX_LOG_N
            &&& x.wf()
            &&& y.wf()
            &&& x@ == 2 * (a * b) - a * a
            &&& y@ == a * a + b * b
            &&& x.capacity() == pow2(l) + 4
            &&& y.capacity() == pow2(l) + 4
        },
        Err(FibError::TooLarge(n, log_n)) => {
            &&& l > ntt::MAX_LOG_N
            &&& n == u64::MAX
            &&& log_n == l
        },
    }
}

impl BigInt {
    /// Doubling step by transforms, with root tables from `cache`.
    ///
    /// One pair of forward transforms per prime yields all three products:
    /// for `(a, b) = (F(k), F(k+1))` the results are `F(2k) = 2ab - a^2` and
    /// `F(2k+1) = a^2 + b^2`.
    pub fn fib_double_with(cache: &mut tables::RootCache, a: &Self, b: &Self) -> (r: Result<
        (Self, Self),
        FibError,
    >)
        requires
            old(cache).wf(),
            a.wf(),
            b.wf(),
            2 * operand_limbs(a@, b@) <= usize::MAX,
            transform_log(a@, b@) <= ntt::MAX_LOG_N ==> a@ * a@ <= 2 * (a@ * b@),
        ensures
            final(cache).wf(),
            final(cache).extends(*old(cache)),
            is_doubling(r, a@, b@),
            r is Ok <==> limbs::limb_count(a@) <= 0x40_0000 && limbs::limb_count(b@) <= 0x40_0000,
            r matches Ok((x, y)) ==> x.wf() && y.wf() && x@ == 2 * (a@ * b@) - a@ * a@ && y@ == a@
                * a@ + b@ * b@,
            r matches Ok((x, y)) ==> exists|l: nat| #[trigger]
                is_step_log(a@, b@, l) && x.capacity() == pow2(l) + 4 && y.capacity() == pow2(l) + 4,
            r matches Err(FibError::TooLarge(n, l)) ==> n == u64::MAX && l > ntt::MAX_LOG_N
                && is_step_log(a@, b@, l as nat),
    {
        proof {
            lemma_transform_log(a@, b@);
        }
        let la: usize = a.len();
        let lb: usize = b.len();
        let longer: usize = if la < lb {
            lb
        } else {
            la
        };
        let max_len: usize = if longer < 1 {
            1
        } else {
            longer
        };
        let raw: usize = 2 * max_len;
        let log_n: u32 = ntt::ceil_log2(raw);
        if log_n > ntt::MAX_LOG_N {
            proof {
                cache.lemma_extends_reflexive();
            }
            return Err(FibError::TooLarge(u64::MAX, log_n));
        }
        let n: usize = ntt::power_of_two(log_n);
        proof {
            a.lemma_wf();
            b.lemma_wf();
            lemma2_to64();
            lemma_size_limit(log_n as nat);
            ntt::lemma_ceil_log(raw as nat, log_n as nat);
            ntt::lemma_ceil_log(raw as nat, 0);
        }
        let mut fa0: Vec<u32> = vec![0u32; n];
        let mut fb0: Vec<u32> = vec![0u32; n];
        Self::fill_u32(a, &mut fa0);
        Self::fill_u32(b, &mut fb0);
        proof {
            assert(ntt::ints(fa0@).len() == n);
            assert(ntt::ints(fb0@).len() == n);
        }
        // One buffer pair per prime.
        let fa1: Vec<u32> = fa0.clone();
        let fa2: Vec<u32> = fa0.clone();
        let fb1: Vec<u32> = fb0.clone();
        let fb2: Vec<u32> = fb0.clone();
        proof {
            assert(fa1@ =~= fa0@ && fa2@ =~= fa0@);
            assert(fb1@ =~= fb0@ && fb2@ =~= fb0@);
        }
        let ghost cache0 = *cache;
        let t0 = cache.tables(log_n, 0);
        let ghost cache1 = *cache;
        let t1 = cache.tables(log_n, 1);
        let ghost cache2 = *cache;
        let t2 = cache.tables(log_n, 2);
        proof {
            cache2.lemma_extends_transitive(cache1, cache0);
            cache.lemma_extends_transitive(cache2, cache0);
        }
        let (track0, (track1, track2)) = if n < PARALLEL_NTT_MIN_N {
            (
                Self::double_track(fa0, fb0, log_n, 0, &t0),
                (
                    Self::double_track(fa1, fb1, log_n, 1, &t1),
                    Self::double_track(fa2, fb2, log_n, 2, &t2),
                ),
            )
        } else {
            let s0 = &t0;
            let s1 = &t1;
            let s2 = &t2;
            rayon::join(
                move || -> (r: Track)
                    requires
                        ready(fa0@.len(), log_n, 0, *s0),
                        fb0@.len() == fa0@.len()
                    ensures
                        doubled(fa0@, fb0@, log_n, 0, r.0@, r.1@, r.2@)
                    { BigInt::double_track(fa0, fb0, log_n, 0, s0) },
                move || -> (r: (Track, Track))
                    requires
                        ready(fa1@.len(), log_n, 1, *s1),
                        fb1@.len() == fa1@.len(),
                        ready(fa2@.len(), log_n, 2, *s2),
                        fb2@.len() == fa2@.len()
                    ensures
                        doubled(fa1@, fb1@, log_n, 1, r.0.0@, r.0.1@, r.0.2@),
                        doubled(fa2@, fb2@, log_n, 2, r.1.0@, r.1.1@, r.1.2@)
                    { double_track_pair(fa1, fb1, fa2, fb2, log_n, s1, s2) },
            )
        };
        let (a2_0, b2_0, ab_0) = track0;
        let (a2_1, b2_1, ab_1) = track1;
        let (a2_2, b2_2, ab_2) = track2;
        proof {
            let l = log_n as nat;
            let sa = a.limb_seq();
            let sb = b.limb_seq();
            lemma_three_tracks(sa, sa, a2_0@, a2_1@, a2_2@, l);
            lemma_three_tracks(sb, sb, b2_0@, b2_1@, b2_2@, l);
            lemma_three_tracks(sa, sb, ab_0@, ab_1@, ab_2@, l);
        }
        let a2 = Self::garner(a2_0.as_slice(), a2_1.as_slice(), a2_2.as_slice(), n);
        let b2 = Self::garner(b2_0.as_slice(), b2_1.as_slice(), b2_2.as_slice(), n);
        let ab = Self::garner(ab_0.as_slice(), ab_1.as_slice(), ab_2.as_slice(), n);
        proof {
            limbs::lemma_base_pow_monotone(a.limb_seq().len(), max_len as nat);
            limbs::lemma_base_pow_monotone(b.limb_seq().len(), max_len as nat);
            lemma_product_bound(a@ as int, a@ as int, max_len as nat, n as nat);
            lemma_product_bound(b@ as int, b@ as int, max_len as nat, n as nat);
            lemma_product_bound(a@ as int, b@ as int, max_len as nat, n as nat);
            ab.lemma_wf();
            limbs::lemma_limb_count(ab@, n as nat);
            limbs::lemma_base_pow_positive(n as nat);
            limbs::lemma_base_pow_step(n as nat);
            limbs::lemma_base_pow_monotone((n + 1) as nat, (n + 4) as nat);
        }
        let mut out_a = ab;
        out_a.mul2();
        out_a.sub_assign(&a2);
        let mut out_b = a2;
        out_b.add_assign(&b2);
        Ok((out_a, out_b))
    }

    /// Doubling step by transforms.
    pub fn fib_double(a: &Self, b: &Self) -> (r: Result<(Self, Self), FibError>)
        requires
            a.wf(),
            b.wf(),
            2 * operand_limbs(a@, b@) <= usize::MAX,
            transform_log(a@, b@) <= ntt::MAX_LOG_N ==> a@ * a@ <= 2 * (a@ * b@),
        ensures
            is_doubling(r, a@, b@),
            r is Ok <==> limbs::limb_count(a@) <= 0x40_0000 && limbs::limb_count(b@) <= 0x40_0000,
            r matches Ok((x, y)) ==> x.wf() && y.wf() && x@ == 2 * (a@ * b@) - a@ * a@ && y@ == a@
                * a@ + b@ * b@,
            r matches Ok((x, y)) ==> exists|l: nat| #[trigger]
                is_step_log(a@, b@, l) && x.capacity() == pow2(l) + 4 && y.capacity() == pow2(l) + 4,
            r matches Err(FibError::TooLarge(n, l)) ==> n == u64::MAX && l > ntt::MAX_LOG_N
                && is_step_log(a@, b@, l as nat),
    {
        let mut cache = tables::RootCache::new();
        Self::fib_double_with(&mut cache, a, b)
    }

    /// Schoolbook doubling step for small operands.
    pub fn fib_double_small(a: &Self, b: &Self) -> (r: (Self, Self))
        requires
            a.wf(),
            b.wf(),
            2 * operand_limbs(a@, b@) + 2 <= usize::MAX,
            a@ * a@ <= 2 * (a@ * b@),
            a@ * a@ + b@ * b@ < limbs::base_pow(square_capacity(a@)),
        ensures
            r.0.wf(),
            r.1.wf(),
            r.0@ == 2 * (a@ * b@) - a@ * a@,
            r.1@ == a@ * a@ + b@ * b@,
            r.0.capacity() == if a@ == 0 || b@ == 0 {
                2
            } else {
                limbs::limb_count(a@) + limbs::limb_count(b@) + 2
            },
            r.1.capacity() == square_capacity(a@),
    {
        proof {
            a.lemma_wf();
            b.lemma_wf();
        }
        let a2 = Self::mul_schoolbook(a, a);
        let b2 = Self::mul_schoolbook(b, b);
        let mut out_b = a2.clone();
        out_b.add_assign(&b2);
        let mut ab = Self::mul_schoolbook(a, b);
        proof {
            ab.lemma_wf();
            if a@ > 0 && b@ > 0 {
                let la = a.limb_seq().len();
                let lb = b.limb_seq().len();
                let qa = limbs::base_pow(la);
                let qb = limbs::base_pow(lb);
                vstd::arithmetic::power::lemma_pow_adds(limbs::base(), la, lb);
                assert(a@ * b@ < qa * qb) by (nonlinear_arith)
                    requires
                        0 <= a@ < qa,
                        0 <= b@ < qb,
                ;
                limbs::lemma_limb_count(ab@, la + lb);
            } else {
                lemma_mul_basics(a@ as int);
                lemma_mul_basics(b@ as int);
            }
        }
        ab.mul2();
        let mut out_a = ab;
        out_a.sub_assign(&a2);
        (out_a, out_b)
    }
}

/// The capacity of a schoolbook square of `a`.
pub open spec fn square_capacity(a: nat) -> nat {
    if a == 0 {
        2
    } else {
        2 * limbs::limb_count(a) + 2
    }
}

proof fn lemma_product_bound(a: int, b: int, m: nat, n: nat)
    requires
        0 <= a < limbs::base_pow(m),
        0 <= b < limbs::base_pow(m),
        2 * m <= n,
    ensures
        0 <= a * b < limbs::base_pow(n),
{
    let q = limbs::base_pow(m);
    vstd::arithmetic::power::lemma_pow_adds(limbs::base(), m, m);
    limbs::lemma_base_pow_monotone(m + m, n);
    assert(0 <= a * b < q * q) by (nonlinear_arith)
        requires
            0 <= a < q,
            0 <= b < q,
    ;
}

/// Three tracks together determine a product.
proof fn lemma_three_tracks(
    a: Seq<u32>,
    b: Seq<u32>,
    r0: Seq<u32>,
    r1: Seq<u32>,
    r2: Seq<u32>,
    l: nat,
)
    requires
        limbs::digits(a),
        limbs::digits(b),
        l <= ntt::MAX_LOG_N,
        a.len() + b.len() <= pow2(l),
        ({
            let pa = poly::poly_pad(ntt::ints(a), pow2(l));
            let pb = poly::poly_pad(ntt::ints(b), pow2(l));
            &&& ntt::ints(r0) == product_residues(pa, pb, l, 0)
            &&& ntt::ints(r1) == product_residues(pa, pb, l, 1)
            &&& ntt::ints(r2) == product_residues(pa, pb, l, 2)
        }),
    ensures
        r0.len() == pow2(l),
        r1.len() == pow2(l),
        r2.len() == pow2(l),
        bigint::reduced(r0, pow2(l), 0),
        bigint::reduced(r1, pow2(l), 1),
        bigint::reduced(r2, pow2(l), 2),
        poly::poly_eval(bigint::coefficients(r0, r1, r2, pow2(l)), limbs::base()) == limbs::value(a)
            * limbs::value(b),
{
    lemma_size_limit(l);
    lemma_track(a, b, r0, l, 0);
    lemma_track(a, b, r1, l, 1);
    lemma_track(a, b, r2, l, 2);
    lemma_product_from_residues(a, b, r0, r1, r2, pow2(l));
    poly::lemma_mul_len(ntt::ints(a), ntt::ints(b), pow2(l));
}

} // verus!
