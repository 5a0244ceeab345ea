//! Exact, huge Fibonacci numbers.
//!
//! [`fib::compute_fib`] doubles its way along the bits of the index. Its
//! numbers are lists of base-`10^9` limbs ([`bigint`]); small ones are
//! multiplied limb by limb, large ones by number-theoretic transforms over
//! three primes ([`ntt`], [`product`]). [`decimal`] writes them out.
//!
//! [`fibonacci`] holds the sequence itself and [`limit`] the index from which
//! it is refused. [`parallel`] holds what is trusted and not proved: the
//! contracts of the functions taken from `rayon`.
pub mod bigint;
pub mod convolution;
pub mod crt;
pub mod decimal;
pub mod digits;
pub mod fib;
pub mod fibonacci;
pub mod field;
pub mod limbs;
pub mod limit;
pub mod modular;
pub mod ntt;
pub mod parallel;
pub mod poly;
pub mod primes;
pub mod product;
pub mod tables;
pub mod transform;
