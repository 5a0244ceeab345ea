//! Fast-doubling Fibonacci driver.
//!
//! Identities (`O(log n)` doublings):
//! * `F(2k)   = F(k) * (2*F(k+1) - F(k))`
//! * `F(2k+1) = F(k)^2 + F(k+1)^2`
//!
//! The loop walks the bits of the index from the top, seeded from a table for
//! the leading four.
use crate::bigint::BigInt;
use crate::bigint::FibError;
use crate::bigint::NTT_THRESHOLD;
use crate::fibonacci;
use crate::limbs;
use crate::limit;
use crate::ntt;
use crate::product;
use crate::tables;
use vstd::arithmetic::div_mod::*;
use vstd::arithmetic::mul::*;
use vstd::arithmetic::power::*;
use vstd::arithmetic::power2::*;
use vstd::bits::*;
use vstd::prelude::*;

verus! {

/// `FIB_BASE[i] = F(i)`: every 4-bit seed and its successor.
const FIB_BASE: [u64; 17] = [0, 1, 1, 2, 3, 5, 8, 13, 21, 34, 55, 89, 144, 233, 377, 610, 987];

/// The table holds the first numbers of the sequence.
proof fn lemma_fib_base(i: int)
    requires
        0 <= i < 17,
    ensures
        FIB_BASE[i] == fibonacci::fibonacci(i as nat),
        i > 0 ==> FIB_BASE[i - 1] == fibonacci::fibonacci((i - 1) as nat),
    decreases i,
{
    if i > 0 {
        lemma_fib_base(i - 1);
        if i > 1 {
            assert(FIB_BASE[i] == FIB_BASE[i - 1] + FIB_BASE[i - 2]);
        }
    }
}

/// The capacity that the last doubling step gives `F(n)`.
pub open spec fn step_room(n: nat) -> nat {
    let a = fibonacci::fibonacci(n / 2);
    let b = fibonacci::fibonacci(n / 2 + 1);
    let la = limbs::limb_count(a);
    let lb = limbs::limb_count(b);
    if la < NTT_THRESHOLD && lb < NTT_THRESHOLD {
        if n % 2 == 1 {
            2 * la + 2
        } else {
            la + lb + 2
        }
    } else {
        pow2(product::transform_log(a, b)) + 4
    }
}

/// The capacity of a computed `F(n)`: three limbs for the numbers of the
/// table, then what the last doubling step leaves.
pub open spec fn room(n: nat) -> nat {
    if n < 17 {
        3
    } else {
        step_room(n)
    }
}

/// A computed number has a limb to spare.
pub proof fn lemma_room(n: nat)
    ensures
        limbs::limb_count(fibonacci::fibonacci(n)) < room(n),
{
    if n < 17 {
        lemma_fib_base(n as int);
        limbs::lemma_base_pow_step(0);
        limbs::lemma_limb_count(fibonacci::fibonacci(n), 1);
    } else {
        let k = n / 2;
        let a = fibonacci::fibonacci(k);
        let b = fibonacci::fibonacci(k + 1);
        fibonacci::lemma_growth(k);
        fibonacci::lemma_doubling(k);
        lemma_operands(a, b);
        let la = limbs::limb_count(a);
        let lb = limbs::limb_count(b);
        let f = fibonacci::fibonacci(n);
        limbs::lemma_limb_count(f, 2 * la + 1);
        limbs::lemma_limb_count(f, la + lb + 1);
        limbs::lemma_limb_count(f, 2 * lb + 1);
        ntt::lemma_ceil_log(2 * product::operand_limbs(a, b), product::transform_log(a, b));
    }
}

/// What the computation of `F(target)` returns.
pub open spec fn is_fibonacci(r: Result<BigInt, FibError>, target: u64) -> bool {
    match fibonacci::refusal(target as nat) {
        None => {
            &&& r matches Ok(v)
            &&& v.wf()
            &&& v@ == fibonacci::fibonacci(target as nat)
            &&& v.capacity() == room(target as nat)
            &&& v.limb_seq().len() < v.capacity()
        },
        Some(l) => {
            &&& r matches Err(FibError::TooLarge(n, log_n))
            &&& n == target
            &&& log_n == l
        },
    }
}

/// Operands of a doubling step: consecutive numbers fit, doubled or added.
proof fn lemma_operands(a: nat, b: nat)
    requires
        0 < a <= b <= 2 * a,
    ensures
        a * a <= 2 * (a * b),
        a * a + b * b < limbs::base_pow(2 * limbs::limb_count(a) + 1),
        a * a + b * b < limbs::base_pow(product::square_capacity(a)),
        2 * (a * b) - a * a < limbs::base_pow(limbs::limb_count(a) + limbs::limb_count(b) + 1),
        limbs::limb_count(a) <= limbs::limb_count(b) <= limbs::limb_count(a) + 1,
        2 * (a * b) - a * a + (a * a + b * b) < limbs::base_pow(
            limbs::limb_count(a) + limbs::limb_count(b) + 2,
        ),
        2 * (a * b) - a * a + (a * a + b * b) < limbs::base_pow(2 * limbs::limb_count(b) + 1),
{
    let la = limbs::limb_count(a);
    let lb = limbs::limb_count(b);
    let qa = limbs::base_pow(la);
    let qb = limbs::base_pow(lb);
    limbs::lemma_limbs_of(a);
    limbs::lemma_limbs_of(b);
    limbs::lemma_limb_count_monotone(a, b);
    limbs::lemma_base_pow_step(la);
    limbs::lemma_limb_count(b, la + 1);
    assert(a * a <= 2 * (a * b)) by (nonlinear_arith)
        requires
            0 < a <= b,
    ;
    lemma_pow_adds(limbs::base(), la, la);
    lemma_pow_adds(limbs::base(), lb, lb);
    lemma_pow_adds(limbs::base(), la, lb);
    limbs::lemma_base_pow_step(la + lb);
    limbs::lemma_base_pow_positive(la + lb);
    assert(2 * (a * b) - a * a <= 2 * (qa * qb)) by (nonlinear_arith)
        requires
            0 < a < qa,
            0 < b < qb,
    ;
    limbs::lemma_base_pow_step(2 * la);
    limbs::lemma_base_pow_step(2 * la + 1);
    limbs::lemma_base_pow_step(2 * lb);
    assert(a * a + b * b <= 5 * (qa * qa)) by (nonlinear_arith)
        requires
            0 < a < qa,
            0 <= b <= 2 * a,
    ;
    assert(2 * (a * b) + b * b <= 3 * (qb * qb)) by (nonlinear_arith)
        requires
            0 < a <= b,
            b < qb,
    ;
    limbs::lemma_base_pow_positive(2 * la);
    limbs::lemma_base_pow_positive(2 * lb);
    limbs::lemma_base_pow_monotone(2 * lb + 1, la + lb + 2);
}

/// Compute `F(target)`, building root tables in `cache` where they are
/// missing.
///
/// Small operands use the schoolbook doubling step, large ones the transform
/// step. Past the exact transform limit the result is
/// [`FibError::TooLarge`].
pub fn compute_fib_with(cache: &mut tables::RootCache, target: u64) -> (r: Result<BigInt, FibError>)
    requires
        old(cache).wf(),
    ensures
        final(cache).wf(),
        final(cache).extends(*old(cache)),
        is_fibonacci(r, target),
        r is Ok <==> target < 361_253_290,
        r matches Ok(v) ==> v.wf() && v@ == fibonacci::fibonacci(target as nat)
            && v.limb_seq().len() < v.capacity(),
        r matches Err(FibError::TooLarge(n, l)) ==> n == target && (l == 24 || l == 25)
            && fibonacci::stops_with(target as nat, l as nat),
{
    proof {
        cache.lemma_extends_reflexive();
        limit::lemma_reach(target as nat);
    }
    if target < 17 {
        proof {
            lemma_fib_base(target as int);
        }
        let v = BigInt::from_u64(FIB_BASE[target as usize], 2);
        proof {
            lemma_room(target as nat);
            v.lemma_wf();
        }
        return Ok(v);
    }
    let ghost t = target as nat;
    proof {
        ntt::lemma_leading_zeros(target);
        lemma2_to64();
        let z = vstd::std_specs::bits::u64_leading_zeros(target);
        if 64 - z <= 4 {
            if 64 - z < 4 {
                lemma_pow2_strictly_increases((64 - z) as nat, 4);
            }
        }
    }
    let msb: u32 = 63 - target.leading_zeros();
    let prefix_bits: u32 = if msb + 1 < 4 {
        msb + 1
    } else {
        4
    };
    let mut i: u32 = msb + 1 - prefix_bits;
    let ghost k0 = t / pow2(i as nat);
    proof {
        lemma_u64_shr_is_div(target, i as u64);
        lemma_pow2_pos(i as nat);
        lemma_pow2_adds(i as nat, 3);
        lemma_pow2_adds(i as nat, 4);
        let q = pow2(i as nat) as int;
        lemma_fundamental_div_mod(t as int, q);
        lemma_mod_bound(t as int, q);
        assert(8 <= k0 <= 15) by (nonlinear_arith)
            requires
                8 * q <= t < 16 * q,
                t == q * k0 + t as int % q,
                0 <= t as int % q < q,
        ;
        lemma_fib_base(k0 as int);
        lemma_fib_base((k0 + 1) as int);
    }
    let prefix_val: usize = (target >> (i as u64)) as usize;
    let mut a = BigInt::from_u64(FIB_BASE[prefix_val], 2);
    let mut b = BigInt::from_u64(FIB_BASE[prefix_val + 1], 2);
    while i > 0
        invariant
            t == target,
            t >= 17,
            i <= 60,
            cache.wf(),
            cache.extends(*old(cache)),
            t / pow2(i as nat) >= 8,
            fibonacci::refusal(t / pow2(i as nat)) is None,
            a.wf(),
            b.wf(),
            a@ == fibonacci::fibonacci(t / pow2(i as nat)),
            b@ == fibonacci::fibonacci(t / pow2(i as nat) + 1),
            a.capacity() == if t / pow2(i as nat) < 16 {
                3
            } else {
                step_room(t / pow2(i as nat))
            },
            a.capacity() <= 0x80_0004,
            b.capacity() <= 0x80_0004,
        decreases i,
    {
        i = i - 1;
        let ghost k = t / pow2((i + 1) as nat);
        let ghost k2 = t / pow2(i as nat);
        proof {
            lemma_pow2_unfold((i + 1) as nat);
            lemma_pow2_pos(i as nat);
            lemma_div_denominator(t as int, pow2(i as nat) as int, 2);
            lemma_mul_is_commutative(pow2(i as nat) as int, 2);
            assert(k2 / 2 == k);
            lemma_u64_shr_is_div(target, i as u64);
            fibonacci::lemma_growth(k);
            fibonacci::lemma_doubling(k);
            lemma_operands(a@, b@);
            a.lemma_wf();
            b.lemma_wf();
            let shifted = target >> (i as u64);
            assert(shifted & 1 == shifted % 2) by (bit_vector);
        }
        let ghost cache0 = *cache;
        let small: bool = a.len() < NTT_THRESHOLD && b.len() < NTT_THRESHOLD;
        let (na, nb) = if small {
            proof {
                lemma_small_operands(a@, b@);
                cache.lemma_extends_reflexive();
            }
            BigInt::fib_double_small(&a, &b)
        } else {
            match BigInt::fib_double_with(cache, &a, &b) {
                Ok(pair) => {
                    proof {
                        ntt::lemma_ceil_log(
                            2 * product::operand_limbs(a@, b@),
                            product::transform_log(a@, b@),
                        );
                        product::lemma_size_limit(product::transform_log(a@, b@));
                        limbs::lemma_base_pow_monotone(
                            2 * limbs::limb_count(b@) + 1,
                            pow2(product::transform_log(a@, b@)) + 4,
                        );
                    }
                    pair
                },
                Err(FibError::TooLarge(_, log_n)) => {
                    proof {
                        cache.lemma_extends_transitive(cache0, *old(cache));
                        lemma_seed_operands(k);
                        assert(k2 >= 17);
                        fibonacci::lemma_refusal_prefix(t, i as nat);
                        limit::lemma_reach(t);
                        fibonacci::lemma_refusal_stops(t);
                        let stop = choose|j: nat| fibonacci::stops_at(t, j);
                        limit::lemma_refusal_log(t, stop);
                    }
                    return Err(FibError::TooLarge(target, log_n));
                },
            }
        };
        proof {
            cache.lemma_extends_transitive(cache0, *old(cache));
            assert(fibonacci::refusal(k2) is None) by {
                if k2 >= 17 {
                    assert(product::transform_log(a@, b@) <= ntt::MAX_LOG_N);
                }
            }
            assert(fibonacci::fibonacci(2 * k + 2) == fibonacci::fibonacci(2 * k + 1)
                + fibonacci::fibonacci(2 * k));
        }
        // Bit set: advance (F(2k), F(2k+1)) to (F(2k+1), F(2k+2)).
        if (target >> (i as u64)) & 1 == 1 {
            let mut next_b = na;
            next_b.add_assign(&nb);
            a = nb;
            b = next_b;
            assert(k2 == 2 * k + 1);
        } else {
            a = na;
            b = nb;
            assert(k2 == 2 * k);
        }
    }
    proof {
        lemma2_to64();
        assert(t / pow2(0) == t);
        lemma_room(t);
        a.lemma_wf();
    }
    Ok(a)
}

proof fn lemma_small_operands(a: nat, b: nat)
    requires
        limbs::limb_count(a) < NTT_THRESHOLD,
        limbs::limb_count(b) < NTT_THRESHOLD,
    ensures
        product::transform_log(a, b) <= ntt::MAX_LOG_N,
{
    lemma2_to64();
    ntt::lemma_ceil_log(2 * product::operand_limbs(a, b), 23);
}

/// The first doubling of a seed never needs a transform.
proof fn lemma_seed_operands(k: nat)
    requires
        k >= 8,
        product::transform_log(
            fibonacci::fibonacci(k),
            fibonacci::fibonacci(k + 1),
        ) > ntt::MAX_LOG_N,
    ensures
        k > 8,
{
    if k == 8 {
        lemma_fib_base(8);
        lemma_fib_base(9);
        limbs::lemma_base_pow_step(0);
        limbs::lemma_limb_count(21, 1);
        limbs::lemma_limb_count(34, 1);
        lemma_small_operands(21, 34);
    }
}

/// Compute `F(target)`.
pub fn compute_fib(target: u64) -> (r: Result<BigInt, FibError>)
    ensures
        is_fibonacci(r, target),
        r is Ok <==> target < 361_253_290,
        r matches Ok(v) ==> v.wf() && v@ == fibonacci::fibonacci(target as nat)
            && v.limb_seq().len() < v.capacity(),
        r matches Err(FibError::TooLarge(n, l)) ==> n == target && (l == 24 || l == 25)
            && fibonacci::stops_with(target as nat, l as nat),
{
    let mut cache = tables::RootCache::new();
    compute_fib_with(&mut cache, target)
}

} // verus!
