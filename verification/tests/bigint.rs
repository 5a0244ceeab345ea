use fibonacci_rust::bigint::{divmod_1e9, divmod_1e9_u64, BigInt, FibError};
use fibonacci_rust::ntt::ceil_log2;

fn small(v: u64) -> BigInt {
    BigInt::from_u64(v, 4)
}

#[test]
fn divmod_1e9_matches_operators() {
    // Full u64 range edges plus pseudo-random u128 values < 2^87.
    let mut cases = vec![
        0u128,
        1,
        999_999_999,
        1_000_000_000,
        1_000_000_001,
        u64::MAX as u128,
        (1u128 << 87) - 1,
        (1u128 << 86) + 12345,
    ];
    let mut x = 0x1234_5678_9ABCu64;
    for _ in 0..2000 {
        x = x
            .wrapping_mul(6364136223846793005)
            .wrapping_add(1442695040888963407);
        cases.push(((x as u128) << 23) ^ (x as u128).wrapping_mul(0x9E3779B9));
    }
    for &v in &cases {
        let v = v % (1u128 << 87);
        let (q, r) = divmod_1e9(v);
        assert_eq!(q as u128, v / 1_000_000_000, "quo of {v}");
        assert_eq!(r as u128, v % 1_000_000_000, "rem of {v}");
    }
}

#[test]
fn divmod_1e9_u64_at_multiples() {
    for k in [1u64, 2, 1_000_000_000, 18_446_744_072, 18_446_744_073] {
        let m = k * 1_000_000_000;
        assert_eq!(divmod_1e9_u64(m), (k, 0));
        assert_eq!(divmod_1e9_u64(m - 1), (k - 1, 999_999_999));
    }
    assert_eq!(divmod_1e9_u64(u64::MAX), (18_446_744_073, 709_551_615));
}

#[test]
fn add_carry_chain() {
    let mut a = small(999_999_999);
    a.add_assign(&small(1));
    assert_eq!(a.limbs(), &[0, 1]);
}

#[test]
fn sub_borrow_chain() {
    let mut a = BigInt::from_u64(1_000_000_000, 4);
    a.sub_assign(&small(1));
    assert_eq!(a.limbs(), &[999_999_999]);
}

#[test]
fn mul2_carries_out() {
    let mut a = small(600_000_000);
    a.mul2();
    assert_eq!(a.limbs(), &[200_000_000, 1]);
}

#[test]
fn schoolbook_matches_u128() {
    // Deterministic pseudo-random pairs verified against native u128 math
    // (expected value folded back into base-10^9 limbs).
    let mut x = 0x1234_5678_9ABCu64;
    for _ in 0..300 {
        x = x
            .wrapping_mul(6364136223846793005)
            .wrapping_add(1442695040888963407);
        let y = x ^ 0x9E3779B97F4A7C15;
        let (a, b) = (small(x), small(y));
        let got = BigInt::mul_schoolbook(&a, &b);
        let mut want = (x as u128) * (y as u128);
        let mut limbs = Vec::new();
        while want > 0 {
            limbs.push((want % 1_000_000_000) as u32);
            want /= 1_000_000_000;
        }
        assert_eq!(got.limbs(), &limbs, "x={x} y={y}");
    }
}

/// Two operands of `limbs` normalized limbs.
fn operands(limbs: usize) -> (BigInt, BigInt) {
    let mut a = vec![0u32; limbs];
    let mut b = vec![0u32; limbs];
    for i in 0..limbs {
        a[i] = (i as u32).wrapping_mul(2654435761).wrapping_add(1) % 1_000_000_000;
        b[i] = (i as u32).wrapping_mul(40503).wrapping_add(7) % 1_000_000_000;
    }
    if a[limbs - 1] == 0 {
        a[limbs - 1] = 1;
    }
    if b[limbs - 1] == 0 {
        b[limbs - 1] = 1;
    }
    (
        BigInt::from_limbs(&a, limbs + 2),
        BigInt::from_limbs(&b, limbs + 2),
    )
}

#[test]
fn ntt_multiply_matches_schoolbook() {
    // Sizes straddling the NTT threshold, NTT forced via mul_ntt.
    // Inputs are normalized (< 10^9 per limb) like all production values.
    for limbs in [64usize, 100, 300] {
        let (a, b) = operands(limbs);
        let want = BigInt::mul_schoolbook(&a, &b);
        let raw = a.len() + b.len();
        let log_n = ceil_log2(raw);
        let got = BigInt::mul_ntt(&a, &b, log_n, 1 << log_n);
        assert_eq!(got.limbs(), want.limbs(), "limbs={limbs}");
    }
}

#[test]
fn forked_ntt_multiply_matches_schoolbook() {
    // 2 * 2100 limbs need size 8192: the three tracks run forked.
    let (a, b) = operands(2100);
    let log_n = ceil_log2(a.len() + b.len());
    assert_eq!(log_n, 13);
    let got = BigInt::mul_ntt(&a, &b, log_n, 1 << log_n);
    assert_eq!(got.limbs(), BigInt::mul_schoolbook(&a, &b).limbs());
}

#[test]
fn largest_limbs_multiply_exactly() {
    // (10^(9k) - 1)^2 = 10^(18k) - 2 * 10^(9k) + 1: every coefficient is as
    // large as it can be.
    let k = 2048usize;
    let a = BigInt::from_limbs(&vec![999_999_999u32; k], k);
    let got = BigInt::mul_ntt(&a, &a, 12, 4096);
    let mut want = vec![0u32; k];
    want[0] = 1;
    want.push(999_999_998);
    want.resize(2 * k, 999_999_999);
    assert_eq!(got.limbs(), &want);
}

#[test]
fn fib_double_matches_identity() {
    // Doubling identity: F(2k)=F(k)(2F(k+1)-F(k)), F(2k+1)=F(k)^2+F(k+1)^2.
    // F(10)=55, F(11)=89 -> F(20)=6765, F(21)=10946.
    let (a, b) = BigInt::fib_double_small(&small(55), &small(89));
    assert_eq!(a.limbs(), small(6765).limbs());
    assert_eq!(b.limbs(), small(10946).limbs());

    // Same via the NTT path.
    let (a, b) = BigInt::fib_double(&small(55), &small(89)).unwrap();
    assert_eq!(a.limbs(), small(6765).limbs());
    assert_eq!(b.limbs(), small(10946).limbs());
}

#[test]
fn fib_double_paths_agree_when_forked() {
    let (a, mut b) = operands(2100);
    b.add_assign(&a);
    let (x, y) = BigInt::fib_double(&a, &b).unwrap();
    let (u, v) = BigInt::fib_double_small(&a, &b);
    assert_eq!(x.limbs(), u.limbs());
    assert_eq!(y.limbs(), v.limbs());
}

#[test]
fn fib_double_of_zero() {
    // F(0)=0, F(1)=1 -> F(0)=0, F(1)=1.
    let (a, b) = BigInt::fib_double(&small(0), &small(1)).unwrap();
    assert!(a.is_zero());
    assert_eq!(b.limbs(), &[1]);
    let (a, b) = BigInt::fib_double_small(&small(0), &small(1));
    assert!(a.is_zero());
    assert_eq!(b.limbs(), &[1]);
}

#[test]
fn oversize_doubling_is_refused() {
    // One limb more than 2^22 needs a transform of size 2^24.
    let n = (1usize << 22) + 1;
    let a = BigInt::from_limbs(&vec![1u32; n], n);
    let r = BigInt::fib_double(&a, &a);
    assert!(matches!(r, Err(FibError::TooLarge(u64::MAX, 24))));
    // So does one small operand beside it.
    let r = BigInt::fib_double(&small(1), &a);
    assert!(matches!(r, Err(FibError::TooLarge(u64::MAX, 24))));
}

#[test]
fn zero_and_empty_limbs() {
    let z = BigInt::zeros(0);
    assert!(z.is_zero());
    assert_eq!(z.len(), 0);
    assert!(z.limbs().is_empty());
    assert_eq!(z.decimal_digits(), 1);
    assert!(small(0).is_zero());
    assert!(BigInt::from_limbs(&[0, 0, 0], 1).is_zero());
    assert!(BigInt::mul_schoolbook(&z, &small(7)).is_zero());
    let mut z2 = z.clone();
    z2.mul2();
    assert!(z2.is_zero());
}

#[test]
fn zero_products_keep_two_spare_limbs() {
    let big = BigInt::from_u64(999_999_999_999_999_999, 0);
    for (x, y) in [(0u64, 0u64), (0, 7), (7, 0)] {
        let mut p = BigInt::mul_schoolbook(&small(x), &small(y));
        assert!(p.is_zero());
        p.add_assign(&big);
        assert_eq!(p.limbs(), &[999_999_999, 999_999_999]);
    }
}

#[test]
fn full_products_keep_two_spare_limbs() {
    // (10^18 - 1)^2 fills all four limbs; the sum reaches up to 10^54 - 1.
    let a = BigInt::from_limbs(&[999_999_999; 2], 2);
    let mut p = BigInt::mul_schoolbook(&a, &a);
    assert_eq!(p.len(), 4);
    let mut t = BigInt::from_limbs(&[999_999_999; 6], 6);
    t.sub_assign(&p);
    p.add_assign(&t);
    assert_eq!(p.limbs(), &[999_999_999; 6]);
}

#[test]
fn doubling_step_of_zero_and_a_full_limb() {
    let (a, b) = BigInt::fib_double_small(&small(0), &small(999_999_999));
    assert!(a.is_zero());
    assert_eq!(b.limbs(), &[1, 999_999_998]);
}

#[test]
fn from_u64_splits_into_limbs() {
    assert_eq!(small(5).limbs(), &[5]);
    assert_eq!(small(1_000_000_000).limbs(), &[0, 1]);
    assert_eq!(
        BigInt::from_u64(u64::MAX, 0).limbs(),
        &[709_551_615, 446_744_073, 18]
    );
}

#[test]
fn add_then_subtract_is_identity() {
    let (a, b) = operands(100);
    let mut sum = a.clone();
    sum.add_assign(&b);
    assert!(sum.ge_mag(&a));
    sum.sub_assign(&b);
    assert_eq!(sum.limbs(), a.limbs());
    sum.sub_assign(&a);
    assert!(sum.is_zero());
}

#[test]
fn doubling_is_adding_to_itself() {
    let (a, _) = operands(100);
    let mut twice = a.clone();
    twice.mul2();
    let mut sum = a.clone();
    sum.add_assign(&a);
    assert_eq!(twice.limbs(), sum.limbs());
}

#[test]
fn ge_mag_compares_from_the_top() {
    assert!(small(1_000_000_000).ge_mag(&small(999_999_999)));
    assert!(!small(999_999_999).ge_mag(&small(1_000_000_000)));
    assert!(small(2_000_000_000).ge_mag(&small(1_999_999_999)));
    assert!(!small(1_999_999_999).ge_mag(&small(2_000_000_000)));
    assert!(small(7).ge_mag(&small(7)));
    assert!(small(0).ge_mag(&small(0)));
}

#[test]
fn decimal_digits_counts_the_top_limb() {
    for (v, want) in [
        (9u64, 1usize),
        (10, 2),
        (99_999_999, 8),
        (100_000_000, 9),
        (999_999_999, 9),
        (1_000_000_000, 10),
        (u64::MAX, 20),
    ] {
        assert_eq!(small(v).decimal_digits(), want, "v={v}");
    }
}
