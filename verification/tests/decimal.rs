use fibonacci_rust::bigint::BigInt;
use fibonacci_rust::decimal::{digit_count, to_decimal_string};
use fibonacci_rust::fib::compute_fib;
use num_bigint::BigUint;

#[test]
fn small_values_match_known_strings() {
    for (n, want) in [
        (0u64, "0"),
        (1, "1"),
        (2, "1"),
        (10, "55"),
        (100, "354224848179261915075"),
    ] {
        let v = compute_fib(n).unwrap();
        assert_eq!(to_decimal_string(&v), want, "n={n}");
    }
}

#[test]
fn padding_is_correct() {
    let v = compute_fib(100).unwrap();
    assert_eq!(to_decimal_string(&v), "354224848179261915075");
    assert_eq!(digit_count(&v), 21);
}

#[test]
fn parallel_chunks_reassemble() {
    // F(20000) has 465 limbs (parallel path): length matches the digit
    // count, every non-top 9-char group parses below 10^9, and the top
    // group has no leading zeros.
    let v = compute_fib(20_000).unwrap();
    let s = to_decimal_string(&v);
    assert_eq!(s.len(), digit_count(&v));
    let limbs = v.limbs();
    let top_len = limbs[limbs.len() - 1].to_string().len();
    assert_eq!(s.len(), top_len + 9 * (limbs.len() - 1));
    assert!(!s.starts_with('0'));
    for chunk in s.as_bytes()[top_len..].chunks(9) {
        assert_eq!(chunk.len(), 9);
        let g = std::str::from_utf8(chunk).unwrap().parse::<u32>().unwrap();
        assert!(g < 1_000_000_000);
    }
}

/// Plain formatting of the same limbs.
fn formatted(limbs: &[u32]) -> String {
    let mut s = String::new();
    for (i, w) in limbs.iter().rev().enumerate() {
        if i == 0 {
            s.push_str(&format!("{w}"));
        } else {
            s.push_str(&format!("{w:09}"));
        }
    }
    s
}

#[test]
fn every_length_formats_its_limbs_in_order() {
    // Serial below 257 limbs, chunked from there on.
    for n in [1usize, 2, 3, 255, 256, 257, 258, 511, 512, 1000, 1021, 4096] {
        let limbs: Vec<u32> = (0..n as u32)
            .map(|i| (i.wrapping_mul(2_654_435_761) % 999_999_999) + 1)
            .collect();
        let v = BigInt::from_limbs(&limbs, n);
        let s = to_decimal_string(&v);
        assert_eq!(s, formatted(&limbs), "n={n}");
        assert_eq!(s.len(), digit_count(&v), "n={n}");
    }
}

#[test]
fn inner_zero_limbs_are_padded() {
    let mut limbs = vec![0u32; 300];
    limbs[0] = 7;
    limbs[299] = 42;
    let v = BigInt::from_limbs(&limbs, 300);
    let s = to_decimal_string(&v);
    assert_eq!(s.len(), 2 + 9 * 299);
    assert!(s.starts_with("420000"));
    assert!(s.ends_with("0007"));
    assert_eq!(to_decimal_string(&BigInt::from_u64(1_000_000_000, 0)), "1000000000");
    assert_eq!(to_decimal_string(&BigInt::from_u64(u64::MAX, 0)), "18446744073709551615");
}

#[test]
fn zero_is_one_digit() {
    let z = BigInt::zeros(5);
    assert_eq!(to_decimal_string(&z), "0");
    assert_eq!(digit_count(&z), 1);
}

#[test]
fn text_reads_back_as_the_number() {
    for n in [0u64, 1, 45, 300, 20_000] {
        let v = compute_fib(n).unwrap();
        let mut want = BigUint::from(0u32);
        for &w in v.limbs().iter().rev() {
            want = want * 1_000_000_000u32 + w;
        }
        assert_eq!(to_decimal_string(&v).parse::<BigUint>().unwrap(), want);
    }
}
