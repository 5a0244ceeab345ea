use fibonacci_rust::ntt::{
    barrett_mu, bit_rev, ceil_log2, fwd_roots, inv_roots, mod_inverse, mulmod, n_inv, ntt_forward,
    ntt_inverse, powmod, prewarm, MAX_LOG_N, MU_PRIMES, P1, P2, P3, PRIMES,
};
use fibonacci_rust::tables::RootCache;

#[test]
fn mulmod_matches_remainder() {
    // Full contract range `a, b < 2^32` against exact u128 arithmetic
    // (butterflies legitimately hold values that big).
    for (pi, &p) in PRIMES.iter().enumerate() {
        let mu = MU_PRIMES[pi];
        let mut x = 1u64;
        for _ in 0..20000 {
            // Wrapping LCG on purpose.
            x = x
                .wrapping_mul(6364136223846793005)
                .wrapping_add(1442695040888963407);
            let a = x & 0xFFFF_FFFF;
            let b = (x >> 11) & 0xFFFF_FFFF;
            let want = ((a as u128 * b as u128) % p as u128) as u64;
            assert_eq!(mulmod(a, b, p, mu), want, "p={p} a={a} b={b}");
        }
        // Edges around the signed 64-bit overflow boundary.
        for (a, b) in [
            (0xFFFF_FFFF, 0xFFFF_FFFF),
            (p - 1, p - 1),
            (0xFFFF_FFFF, p - 1),
            (0, p - 1),
            (1, 1),
            (3_037_000_499, 3_037_000_499), // just under sqrt(2^63)
            (3_037_000_500, 3_037_000_500), // just over sqrt(2^63)
        ] {
            let want = ((a as u128 * b as u128) % p as u128) as u64;
            assert_eq!(mulmod(a, b, p, mu), want, "p={p} a={a} b={b}");
        }
    }
}

#[test]
fn table_forward_then_inverse_is_identity() {
    for log_n in [1u32, 2, 4, 8, 12] {
        for (pi, &p) in PRIMES.iter().enumerate() {
            let n = 1usize << log_n;
            let mut v: Vec<u32> = (0..n as u64).map(|i| ((i * 7 + 1) % p) as u32).collect();
            let orig = v.clone();
            ntt_forward(&mut v, log_n, pi);
            assert_ne!(v, orig, "forward should change data");
            ntt_inverse(&mut v, log_n, pi);
            assert_eq!(v, orig, "log_n={log_n} pi={pi}");
        }
    }
}

#[test]
fn ceil_log2_cases() {
    let cases = [
        (1usize, 0u32),
        (2, 1),
        (3, 2),
        (4, 2),
        (5, 3),
        (1024, 10),
        (1025, 11),
    ];
    for (input, expected) in cases {
        assert_eq!(ceil_log2(input), expected, "input={input}");
    }
}

#[test]
fn ceil_log2_at_the_top() {
    assert_eq!(ceil_log2(usize::MAX), usize::BITS);
    assert_eq!(ceil_log2(usize::MAX / 2 + 1), usize::BITS - 1);
    assert_eq!(ceil_log2((1 << 22) * 2), MAX_LOG_N);
}

#[test]
fn barrett_multipliers_are_ceilings() {
    for (pi, &p) in PRIMES.iter().enumerate() {
        assert_eq!(barrett_mu(p), MU_PRIMES[pi]);
        assert_eq!(MU_PRIMES[pi] as u128, (1u128 << 64).div_ceil(p as u128));
    }
    assert_eq!(barrett_mu(2), 1 << 63);
    assert_eq!(barrett_mu(3), 6_148_914_691_236_517_206);
    assert_eq!(mulmod(0xFFFF_FFFF, 0xFFFF_FFFF, 7, barrett_mu(7)), 2);
}

#[test]
fn powers_and_inverses() {
    assert_eq!(powmod(3, 0, 7), 1);
    assert_eq!(powmod(3, 5, 7), 5);
    assert_eq!(powmod(10, 9, 1_000_000_007), 1_000_000_000);
    assert_eq!(powmod(0, 0, 1), 1);
    assert_eq!(powmod(5, 3, 1), 0);
    assert_eq!(mod_inverse(P1, P2), 47_450_712);
    assert_eq!(mod_inverse(P1 * P2 % P3, P3), 115_990_628);
    assert_eq!(mod_inverse(3, 7), 5);
    for &p in &PRIMES {
        // 3 generates: its half power is -1.
        assert_eq!(powmod(3, (p - 1) / 2, p), p - 1);
        assert_eq!(powmod(3, p - 1, p), 1);
        assert_eq!(mod_inverse(3, p) * 3 % p, 1);
    }
}

#[test]
fn root_tables_hold_powers() {
    assert_eq!(
        *fwd_roots(3, 0),
        vec![0, 1, 1, 911_660_635, 1, 372_528_824, 911_660_635, 488_723_995]
    );
    assert_eq!(inv_roots(2, 0)[3], 86_583_718);
    assert_eq!(fwd_roots(0, 1).len(), 2);
    for (pi, &p) in PRIMES.iter().enumerate() {
        for log_n in 2..=10u32 {
            let f = fwd_roots(log_n, pi);
            let i = inv_roots(log_n, pi);
            assert_eq!(f.len(), 1 << log_n);
            for k in 2..f.len() {
                // Forward and inverse entries are inverse to each other.
                assert_eq!(f[k] as u64 * i[k] as u64 % p, 1);
            }
        }
    }
}

#[test]
fn n_inv_inverts_the_size() {
    assert_eq!(n_inv(2, 0), 748_683_265);
    assert_eq!(n_inv(0, 2), 1);
    for (pi, &p) in PRIMES.iter().enumerate() {
        for log_n in 0..=23u32 {
            assert_eq!(n_inv(log_n, pi) * ((1u64 << log_n) % p) % p, 1);
        }
    }
}

#[test]
fn transform_values_are_polynomial_values() {
    let want: [[u64; 4]; 3] = [
        [10, 173_167_434, 998_244_351, 825_076_915],
        [10, 37_272_223, 167_772_159, 130_499_934],
        [10, 39_220_180, 469_762_047, 430_541_865],
    ];
    for pi in 0..3 {
        let mut v = [1u32, 2, 3, 4];
        ntt_forward(&mut v, 2, pi);
        for k in 0..4 {
            assert_eq!(v[k] as u64, want[pi][k]);
        }
    }
}

#[test]
fn transform_of_oversized_entries_stays_congruent() {
    // Entries up to 2^32 - 1 are accepted and reduced by the way back.
    for (pi, &p) in PRIMES.iter().enumerate() {
        let mut v = [u32::MAX; 8];
        ntt_forward(&mut v, 3, pi);
        ntt_inverse(&mut v, 3, pi);
        for x in v {
            assert_eq!(x as u64, u32::MAX as u64 % p);
        }
    }
}

#[test]
fn size_one_transform_does_nothing() {
    let mut v = [u32::MAX];
    ntt_forward(&mut v, 0, 0);
    assert_eq!(v, [u32::MAX]);
    ntt_inverse(&mut v, 0, 0);
    assert_eq!(v, [u32::MAX]);
    // The prime plays no part in it.
    ntt_forward(&mut v, 0, 3);
    ntt_inverse(&mut v, 0, 3);
    assert_eq!(v, [u32::MAX]);
}

#[test]
fn bit_reversal_permutes_and_undoes_itself() {
    let mut v = [0u32, 1, 2, 3, 4, 5, 6, 7];
    bit_rev(&mut v);
    assert_eq!(v, [0, 4, 2, 6, 1, 5, 3, 7]);
    bit_rev(&mut v);
    assert_eq!(v, [0, 1, 2, 3, 4, 5, 6, 7]);
    for l in 0..=10u32 {
        let n = 1usize << l;
        let orig: Vec<u64> = (0..n as u64).map(|i| i * i).collect();
        let mut v = orig.clone();
        bit_rev(&mut v);
        for i in 0..n {
            let r = if l == 0 { 0 } else { i.reverse_bits() >> (usize::BITS - l) };
            assert_eq!(v[i], orig[r]);
        }
        bit_rev(&mut v);
        assert_eq!(v, orig);
    }
}

#[test]
fn cached_tables_equal_fresh_ones() {
    let mut cache = RootCache::new();
    for log_n in [1u32, 5, 9] {
        for pi in 0..3 {
            let first = cache.fwd_roots(log_n, pi);
            let again = cache.fwd_roots(log_n, pi);
            assert_eq!(first, again);
            assert_eq!(first, fwd_roots(log_n, pi));
            assert_eq!(cache.inv_roots(log_n, pi), inv_roots(log_n, pi));
            assert_eq!(cache.n_inv(log_n, pi), n_inv(log_n, pi));
            let t = cache.tables(log_n, pi);
            assert_eq!(t.fwd, first);
        }
    }
}

#[test]
fn prewarmed_tables_are_served() {
    let mut cache = prewarm();
    let t = cache.tables(4, 1);
    assert_eq!(t.fwd, fwd_roots(4, 1));
    assert_eq!(t.inv, inv_roots(4, 1));
    assert_eq!(t.n_inv, n_inv(4, 1));
}

#[test]
fn the_moduli_are_prime() {
    for &p in &PRIMES {
        let mut d = 2;
        while d * d <= p {
            assert_ne!(p % d, 0, "{d} divides {p}");
            d += 1;
        }
    }
}

#[test]
fn reduced_entries_stay_reduced() {
    for (pi, &p) in PRIMES.iter().enumerate() {
        let mut v: Vec<u32> = (0..256u64).map(|i| (p - 1 - i * i) as u32).collect();
        ntt_forward(&mut v, 8, pi);
        assert!(v.iter().all(|&x| (x as u64) < p));
    }
}
