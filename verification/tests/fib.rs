use fibonacci_rust::bigint::{BigInt, NTT_THRESHOLD};
use fibonacci_rust::decimal::to_decimal_string;
use fibonacci_rust::fib::{compute_fib, compute_fib_with};
use fibonacci_rust::tables::RootCache;
use num_bigint::BigUint;

// First 31 Fibonacci numbers — table-driven, one test, failure names the case.
const SMALL: [u64; 31] = [
    0, 1, 1, 2, 3, 5, 8, 13, 21, 34, 55, 89, 144, 233, 377, 610, 987, 1597, 2584, 4181, 6765,
    10946, 17711, 28657, 46368, 75025, 121393, 196418, 317811, 514229, 832040,
];

#[test]
fn first_31_match_table() {
    for (n, &want) in SMALL.iter().enumerate() {
        let got = compute_fib(n as u64).unwrap();
        let mut limbs = Vec::new();
        let mut w = want;
        while w > 0 {
            limbs.push(w as u32);
            w >>= 32;
        }
        assert_eq!(got.limbs(), &limbs, "F({n})");
    }
}

/// The number that base-10^9 limbs stand for.
fn fold(limbs: &[u32]) -> BigUint {
    let mut v = BigUint::from(0u32);
    for &w in limbs.iter().rev() {
        v = v * 1_000_000_000u32 + w;
    }
    v
}

#[test]
fn f100_matches_known_value() {
    let got = compute_fib(100).unwrap();
    let want: Vec<u32> = BigUint::parse_bytes(b"354224848179261915075", 10)
        .unwrap()
        .to_u32_digits();
    assert_eq!(fold(got.limbs()).to_u32_digits(), want);
    assert_eq!(got.limbs(), &[261_915_075, 224_848_179, 354]);
}

#[test]
fn f1000_has_209_digits() {
    let got = compute_fib(1000).unwrap();
    let s = to_decimal_string(&got);
    assert_eq!(s.len(), 209, "F(1000) digit count");
    assert_eq!(
        s,
        "43466557686937456435688527675040625802564660517371780402481729089536555417949051890403879840079255169295922593080322634775209689623239873322471161642996440906533187938298969649928516003704476137795166849228875"
    );
}

#[test]
fn doubling_identity_holds() {
    // For several k: fib_double(F(k),F(k+1)) == (F(2k),F(2k+1)).
    for k in [2u64, 3, 5, 50, 500, 5000] {
        let (fk, fk1) = (compute_fib(k).unwrap(), compute_fib(k + 1).unwrap());
        let (f2k, f2k1) = if fk.len() < NTT_THRESHOLD && fk1.len() < NTT_THRESHOLD {
            BigInt::fib_double_small(&fk, &fk1)
        } else {
            BigInt::fib_double(&fk, &fk1).unwrap()
        };
        assert_eq!(f2k.limbs(), compute_fib(2 * k).unwrap().limbs(), "F(2*{k})");
        assert_eq!(
            f2k1.limbs(),
            compute_fib(2 * k + 1).unwrap().limbs(),
            "F(2*{k}+1)"
        );
    }
}

#[test]
fn every_index_matches_the_recurrence() {
    let mut a = BigUint::from(0u32);
    let mut b = BigUint::from(1u32);
    for n in 0..700u64 {
        assert_eq!(fold(compute_fib(n).unwrap().limbs()), a, "F({n})");
        let next = &a + &b;
        a = b;
        b = next;
    }
}

#[test]
fn transform_sized_numbers_match_the_recurrence() {
    // From about F(2700) on the last doubling uses transforms.
    let mut a = BigUint::from(0u32);
    let mut b = BigUint::from(1u32);
    for n in 0..12_001u64 {
        if n % 1000 == 0 || n % 1511 == 7 {
            assert_eq!(fold(compute_fib(n).unwrap().limbs()), a, "F({n})");
        }
        let next = &a + &b;
        a = b;
        b = next;
    }
}

#[test]
fn large_numbers_match_known_ends() {
    let mut cache = RootCache::new();
    for (n, digits, head, tail) in [
        (
            100_000u64,
            20_899usize,
            "25974069347221724166",
            "49895374653428746875",
        ),
        (
            1_000_000,
            208_988,
            "19532821287077577316",
            "68996526838242546875",
        ),
        (
            10_000_000,
            2_089_877,
            "11298343782253997603",
            "86998673686380546875",
        ),
    ] {
        let s = to_decimal_string(&compute_fib_with(&mut cache, n).unwrap());
        assert_eq!(s.len(), digits);
        assert!(s.starts_with(head));
        assert!(s.ends_with(tail));
    }
}

#[test]
fn a_used_cache_changes_nothing() {
    let mut cache = RootCache::new();
    for n in [30_000u64, 30_001, 9_999] {
        let got = compute_fib_with(&mut cache, n).unwrap();
        assert_eq!(got.limbs(), compute_fib(n).unwrap().limbs());
    }
}

#[test]
fn addition_law_holds() {
    // F(m + n + 1) = F(m + 1) F(n + 1) + F(m) F(n).
    for (m, n) in [(0u64, 0u64), (7, 12), (40, 333), (1000, 1)] {
        let f = |k: u64| fold(compute_fib(k).unwrap().limbs());
        assert_eq!(f(m + n + 1), f(m + 1) * f(n + 1) + f(m) * f(n));
    }
}

#[test]
fn the_sequence_never_falls() {
    for k in [0u64, 1, 2, 16, 17, 100, 4000] {
        let (a, b) = (compute_fib(k).unwrap(), compute_fib(k + 1).unwrap());
        assert!(b.ge_mag(&a));
    }
}

#[test]
fn computed_numbers_have_a_limb_to_spare() {
    // Table, schoolbook steps (even and odd) and transform steps.
    for n in [0u64, 5, 16, 17, 100, 101, 2000, 2001, 9000, 9001] {
        let v = compute_fib(n).unwrap();
        let mut twice = v.clone();
        twice.mul2();
        assert_eq!(fold(twice.limbs()), fold(v.limbs()) * 2u32, "n={n}");
        let mut sum = v.clone();
        sum.add_assign(&v);
        assert_eq!(sum.limbs(), twice.limbs(), "n={n}");
    }
}
