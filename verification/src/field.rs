//! The three transform primes: they are prime, and 3 generates roots of unity
//! of every order that a transform needs.
use crate::modular;
use crate::ntt;
use crate::primes;
use vstd::arithmetic::div_mod::*;
use vstd::arithmetic::power::*;
use vstd::arithmetic::power2::*;
use vstd::prelude::*;

verus! {

/// `3^((p-1)/2)` is -1 modulo `p = 998244353`, by repeated squaring.
proof fn lemma_half_power_p1()
    ensures
        pow(3, 499122176) % 998244353 == 998244352,
{
    let p = 998244353int;
    lemma_pow1(3);
    lemma_small_mod(3, 998244353);
    primes::lemma_power_double_add(3, 1, 3, 27, p);
    primes::lemma_power_double_add(3, 3, 27, 2187, p);
    primes::lemma_power_double(3, 7, 2187, 4782969, p);
    primes::lemma_power_double_add(3, 14, 4782969, 79851780, p);
    primes::lemma_power_double_add(3, 29, 79851780, 3748461, p);
    primes::lemma_power_double_add(3, 59, 3748461, 15311432, p);
    primes::lemma_power_double(3, 119, 15311432, 267099868, p);
    primes::lemma_power_double(3, 238, 267099868, 733596141, p);
    primes::lemma_power_double(3, 476, 733596141, 565042129, p);
    primes::lemma_power_double(3, 952, 565042129, 363395222, p);
    primes::lemma_power_double(3, 1904, 363395222, 996173970, p);
    primes::lemma_power_double(3, 3808, 996173970, 24514907, p);
    primes::lemma_power_double(3, 7616, 24514907, 629671588, p);
    primes::lemma_power_double(3, 15232, 629671588, 968855178, p);
    primes::lemma_power_double(3, 30464, 968855178, 666702199, p);
    primes::lemma_power_double(3, 60928, 666702199, 350007156, p);
    primes::lemma_power_double(3, 121856, 350007156, 63912897, p);
    primes::lemma_power_double(3, 243712, 63912897, 584193783, p);
    primes::lemma_power_double(3, 487424, 584193783, 258648936, p);
    primes::lemma_power_double(3, 974848, 258648936, 166035806, p);
    primes::lemma_power_double(3, 1949696, 166035806, 476477967, p);
    primes::lemma_power_double(3, 3899392, 476477967, 781712469, p);
    primes::lemma_power_double(3, 7798784, 781712469, 922799308, p);
    primes::lemma_power_double(3, 15597568, 922799308, 452798380, p);
    primes::lemma_power_double(3, 31195136, 452798380, 929031873, p);
    primes::lemma_power_double(3, 62390272, 929031873, 372528824, p);
    primes::lemma_power_double(3, 124780544, 372528824, 911660635, p);
    primes::lemma_power_double(3, 249561088, 911660635, 998244352, p);
}

/// `3^((p-1)/2)` is -1 modulo `p = 167772161`, by repeated squaring.
proof fn lemma_half_power_p2()
    ensures
        pow(3, 83886080) % 167772161 == 167772160,
{
    let p = 167772161int;
    lemma_pow1(3);
    lemma_small_mod(3, 167772161);
    primes::lemma_power_double(3, 1, 3, 9, p);
    primes::lemma_power_double_add(3, 2, 9, 243, p);
    primes::lemma_power_double(3, 5, 243, 59049, p);
    primes::lemma_power_double(3, 10, 59049, 131341181, p);
    primes::lemma_power_double(3, 20, 131341181, 98217575, p);
    primes::lemma_power_double(3, 40, 98217575, 147771621, p);
    primes::lemma_power_double(3, 80, 147771621, 88009046, p);
    primes::lemma_power_double(3, 160, 88009046, 127218630, p);
    primes::lemma_power_double(3, 320, 127218630, 87327368, p);
    primes::lemma_power_double(3, 640, 87327368, 51958270, p);
    primes::lemma_power_double(3, 1280, 51958270, 48967582, p);
    primes::lemma_power_double(3, 2560, 48967582, 34951379, p);
    primes::lemma_power_double(3, 5120, 34951379, 129200985, p);
    primes::lemma_power_double(3, 10240, 129200985, 42000181, p);
    primes::lemma_power_double(3, 20480, 42000181, 150794572, p);
    primes::lemma_power_double(3, 40960, 150794572, 83629286, p);
    primes::lemma_power_double(3, 81920, 83629286, 134785078, p);
    primes::lemma_power_double(3, 163840, 134785078, 57844624, p);
    primes::lemma_power_double(3, 327680, 57844624, 26238939, p);
    primes::lemma_power_double(3, 655360, 26238939, 370529, p);
    primes::lemma_power_double(3, 1310720, 370529, 54112143, p);
    primes::lemma_power_double(3, 2621440, 54112143, 17334830, p);
    primes::lemma_power_double(3, 5242880, 17334830, 116878283, p);
    primes::lemma_power_double(3, 10485760, 116878283, 71493608, p);
    primes::lemma_power_double(3, 20971520, 71493608, 65249968, p);
    primes::lemma_power_double(3, 41943040, 65249968, 167772160, p);
}

/// `3^((p-1)/2)` is -1 modulo `p = 469762049`, by repeated squaring.
proof fn lemma_half_power_p3()
    ensures
        pow(3, 234881024) % 469762049 == 469762048,
{
    let p = 469762049int;
    lemma_pow1(3);
    lemma_small_mod(3, 469762049);
    primes::lemma_power_double_add(3, 1, 3, 27, p);
    primes::lemma_power_double_add(3, 3, 27, 2187, p);
    primes::lemma_power_double(3, 7, 2187, 4782969, p);
    primes::lemma_power_double(3, 14, 4782969, 320192759, p);
    primes::lemma_power_double(3, 28, 320192759, 385303873, p);
    primes::lemma_power_double(3, 56, 385303873, 391371999, p);
    primes::lemma_power_double(3, 112, 391371999, 297449090, p);
    primes::lemma_power_double(3, 224, 297449090, 197868229, p);
    primes::lemma_power_double(3, 448, 197868229, 49553715, p);
    primes::lemma_power_double(3, 896, 49553715, 422997289, p);
    primes::lemma_power_double(3, 1792, 422997289, 321129726, p);
    primes::lemma_power_double(3, 3584, 321129726, 386080322, p);
    primes::lemma_power_double(3, 7168, 386080322, 372627191, p);
    primes::lemma_power_double(3, 14336, 372627191, 19512135, p);
    primes::lemma_power_double(3, 28672, 19512135, 62025685, p);
    primes::lemma_power_double(3, 57344, 62025685, 244412522, p);
    primes::lemma_power_double(3, 114688, 244412522, 165447688, p);
    primes::lemma_power_double(3, 229376, 165447688, 110059487, p);
    primes::lemma_power_double(3, 458752, 110059487, 25153357, p);
    primes::lemma_power_double(3, 917504, 25153357, 338628632, p);
    primes::lemma_power_double(3, 1835008, 338628632, 189158148, p);
    primes::lemma_power_double(3, 3670016, 189158148, 210853138, p);
    primes::lemma_power_double(3, 7340032, 210853138, 244709223, p);
    primes::lemma_power_double(3, 14680064, 244709223, 426037461, p);
    primes::lemma_power_double(3, 29360128, 426037461, 129701348, p);
    primes::lemma_power_double(3, 58720256, 129701348, 450151958, p);
    primes::lemma_power_double(3, 117440512, 450151958, 469762048, p);
}

/// The largest `l` such that the prime supports transforms of size `2^l`.
pub open spec fn max_log(pi: int) -> nat {
    if pi == 0 {
        23
    } else if pi == 1 {
        25
    } else {
        26
    }
}

/// The odd factor of `p - 1`.
pub open spec fn cofactor(pi: int) -> nat {
    if pi == 0 {
        119
    } else if pi == 1 {
        5
    } else {
        7
    }
}

/// Prime `pi` as a mathematical integer.
pub open spec fn prime(pi: int) -> int {
    ntt::PRIMES[pi] as int
}

/// Each transform prime is `k * 2^max_log + 1` for an odd `k`.
pub proof fn lemma_prime_shape(pi: int)
    requires
        0 <= pi < 3,
    ensures
        prime(pi) == cofactor(pi) * pow2(max_log(pi)) + 1,
        0 < cofactor(pi) < pow2(max_log(pi)),
        pi == 0 ==> prime(pi) == ntt::P1,
        pi == 1 ==> prime(pi) == ntt::P2,
        pi == 2 ==> prime(pi) == ntt::P3,
        2 < prime(pi) < 0x4000_0000,
{
    lemma2_to64();
    if pi == 0 {
        assert(119 * pow2(23) + 1 == ntt::P1);
    } else if pi == 1 {
        assert(5 * pow2(25) + 1 == ntt::P2);
    } else {
        assert(7 * pow2(26) + 1 == ntt::P3);
    }
}

/// 3 is no square modulo a transform prime: its half power is -1.
pub proof fn lemma_half_power(pi: int)
    requires
        0 <= pi < 3,
    ensures
        modular::congruent(pow(3, ((prime(pi) - 1) / 2) as nat), -1, prime(pi)),
{
    let p = prime(pi);
    lemma_prime_shape(pi);
    if pi == 0 {
        lemma_half_power_p1();
    } else if pi == 1 {
        lemma_half_power_p2();
    } else {
        lemma_half_power_p3();
    }
    lemma_small_mod((p - 1) as nat, p as nat);
    modular::lemma_congruent_shift(-1, 1, p);
}

/// The three moduli of the transform are prime numbers.
pub proof fn lemma_transform_primes(pi: int)
    requires
        0 <= pi < 3,
    ensures
        primes::is_prime(prime(pi)),
{
    lemma_prime_shape(pi);
    lemma_half_power(pi);
    primes::lemma_proth(prime(pi), cofactor(pi), max_log(pi), 3);
}

} // verus!
