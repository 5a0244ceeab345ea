//! Unsigned big integers in base `10^9`, little-endian.
//!
//! Limbs are decimal digit groups, so printing is zero-padded formatting. The
//! capacity of a value is fixed when it is made: an operation whose result
//! would not fit is ruled out by its precondition.
use crate::crt;
use crate::digits;
use crate::field;
use crate::limbs;
use crate::ntt;
use crate::poly;
use vstd::arithmetic::div_mod::*;
use vstd::arithmetic::mul::*;
use vstd::arithmetic::power::*;
use vstd::prelude::*;

pub use crate::limbs::LIMB_BASE;

verus! {

/// Below this many limbs schoolbook multiplication beats the transform.
pub const NTT_THRESHOLD: usize = 64;

/// Below this transform size, forking costs more than it gains.
pub const PARALLEL_NTT_MIN_N: usize = 4096;

/// Barrett multiplier for division by `10^9`: `ceil(2^64 / 10^9)`.
const MU_1E9: u64 = 18_446_744_074;

#[derive(Debug, Clone, Copy, PartialEq, Eq, Structural)]
pub enum FibError {
    /// Index (or `u64::MAX` where none is known) and the base-2 logarithm of
    /// the transform size that would be needed.
    TooLarge(u64, u32),
}

/// Exact `(quotient, remainder)` of `x / 10^9`: one multiply-high and a
/// fix-up instead of a hardware division.
pub fn divmod_1e9_u64(x: u64) -> (qr: (u64, u32))
    ensures
        qr.0 == x / 1_000_000_000,
        qr.1 == x % 1_000_000_000,
{
    assert(x * MU_1E9 <= 0xffff_ffff_ffff_ffff * 0xffff_ffff_ffff_ffff) by (nonlinear_arith)
        requires
            0 <= x <= 0xffff_ffff_ffff_ffff,
            MU_1E9 == 18_446_744_074,
    ;
    let wide: u128 = x as u128 * MU_1E9 as u128;
    proof {
        assert(ntt::barrett(1_000_000_000) == MU_1E9);
        ntt::lemma_barrett_estimate(
            x as int,
            1_000_000_000,
            MU_1E9 as int,
            (x * MU_1E9) / 0x1_0000_0000_0000_0000,
        );
        assert(wide >> 64 == wide / 0x1_0000_0000_0000_0000) by (bit_vector);
        assert(wide / 0x1_0000_0000_0000_0000 <= 0xffff_ffff_ffff_ffff) by (bit_vector);
    }
    let q: u64 = (wide >> 64) as u64;
    let qp: u128 = q as u128 * LIMB_BASE as u128;
    let x128: u128 = x as u128;
    if qp <= x128 {
        let r: u64 = (x128 - qp) as u64;
        if r >= LIMB_BASE {
            (q + 1, (r - LIMB_BASE) as u32)
        } else {
            (q, r as u32)
        }
    } else {
        let d: u128 = qp - x128;
        (q - 1, (LIMB_BASE as u128 - d) as u32)
    }
}

/// Long division of a three-digit number in base `2^32`.
proof fn lemma_long_division(
    x: int,
    d2: int,
    d1: int,
    d0: int,
    q1: int,
    r1: int,
    q0: int,
    r0: int,
)
    requires
        0 <= x < 0x80_0000_0000_0000_0000_0000,
        d2 == x / 0x1_0000_0000_0000_0000,
        d1 == (x / 0x1_0000_0000) % 0x1_0000_0000,
        d0 == x % 0x1_0000_0000,
        q1 == (d2 * 0x1_0000_0000 + d1) / 1_000_000_000,
        r1 == (d2 * 0x1_0000_0000 + d1) % 1_000_000_000,
        q0 == (r1 * 0x1_0000_0000 + d0) / 1_000_000_000,
        r0 == (r1 * 0x1_0000_0000 + d0) % 1_000_000_000,
    ensures
        0 <= q1 < 0x400_0000,
        0 <= q0 < 0x1_0000_0000,
        q1 * 0x1_0000_0000 + q0 == x / 1_000_000_000,
        r0 == x % 1_000_000_000,
{
    let y = x / 0x1_0000_0000;
    assert(d2 == y / 0x1_0000_0000);
    assert(y == d2 * 0x1_0000_0000 + d1);
    assert(y == 1_000_000_000 * q1 + r1);
    assert(y < 0x80_0000_0000_0000);
    assert(x == 1_000_000_000 * (q1 * 0x1_0000_0000 + q0) + r0);
}

/// Exact `(quotient, remainder)` of `x / 10^9` for `x < 2^87`, folding three
/// base-`2^32` digits through the step above.
pub fn divmod_1e9(x: u128) -> (qr: (u64, u32))
    requires
        x < 0x80_0000_0000_0000_0000_0000,
    ensures
        qr.0 == x / 1_000_000_000,
        qr.1 == x % 1_000_000_000,
{
    proof {
        assert(x >> 64 == x / 0x1_0000_0000_0000_0000) by (bit_vector);
        assert((x >> 32) & 0xffff_ffff == (x / 0x1_0000_0000) % 0x1_0000_0000) by (bit_vector);
        assert(x & 0xffff_ffff == x % 0x1_0000_0000) by (bit_vector);
    }
    let d2: u64 = (x >> 64) as u64;
    let d1: u64 = ((x >> 32) & 0xffff_ffff) as u64;
    let d0: u64 = (x & 0xffff_ffff) as u64;
    assert((d2 << 32) | d1 == d2 * 0x1_0000_0000 + d1) by (bit_vector)
        requires
            d2 < 0x80_0000,
            d1 < 0x1_0000_0000,
    ;
    let (q1, r1) = divmod_1e9_u64((d2 << 32) | d1);
    let r1: u64 = r1 as u64;
    assert((r1 << 32) | d0 == r1 * 0x1_0000_0000 + d0) by (bit_vector)
        requires
            r1 < 1_000_000_000,
            d0 < 0x1_0000_0000,
    ;
    let (q0, r0) = divmod_1e9_u64((r1 << 32) | d0);
    proof {
        lemma_long_division(
            x as int,
            d2 as int,
            d1 as int,
            d0 as int,
            q1 as int,
            r1 as int,
            q0 as int,
            r0 as int,
        );
    }
    assert((q1 << 32) | q0 == q1 * 0x1_0000_0000 + q0) by (bit_vector)
        requires
            q1 < 0x400_0000,
            q0 < 0x1_0000_0000,
    ;
    ((q1 << 32) | q0, r0)
}

/// Unsigned little-endian big integer: `mag[0]` holds the least-significant
/// 9 digits, `len` counts used limbs (`mag[len..]` is always zero).
#[derive(Debug)]
pub struct BigInt {
    mag: Vec<u32>,
    len: usize,
}

impl View for BigInt {
    type V = nat;

    /// The number that the limbs stand for.
    open spec fn view(&self) -> nat {
        limbs::value(self.limb_seq()) as nat
    }
}

impl BigInt {
    /// The used limbs.
    pub closed spec fn limb_seq(self) -> Seq<u32> {
        self.mag@.take(self.len as int)
    }

    /// How many limbs there is room for.
    pub closed spec fn capacity(self) -> nat {
        self.mag@.len()
    }

    /// Digits of the base, and zeros above the used limbs.
    spec fn well_placed(self) -> bool {
        &&& self.len <= self.mag@.len()
        &&& limbs::digits(self.mag@)
        &&& forall|i: int| self.len <= i < self.mag@.len() ==> #[trigger] self.mag@[i] == 0
    }

    /// The limbs are digits of the base, the top one is not zero, and the
    /// room above them is.
    pub closed spec fn wf(self) -> bool {
        &&& self.well_placed()
        &&& limbs::canonical(self.limb_seq())
    }

    /// What well-formedness says of the public view.
    pub proof fn lemma_wf(self)
        requires
            self.wf(),
        ensures
            self.limb_seq() == limbs::limbs_of(self@),
            limbs::canonical(self.limb_seq()),
            limbs::value(self.limb_seq()) == self@,
            self.limb_seq().len() <= self.capacity() <= usize::MAX,
            self@ < limbs::base_pow(self.limb_seq().len()),
            self@ > 0 ==> self@ >= limbs::base_pow((self.limb_seq().len() - 1) as nat),
            self@ == 0 <==> self.limb_seq().len() == 0,
    {
        limbs::lemma_canonical(self.limb_seq());
        limbs::lemma_limbs_of(self@);
        assert(self.mag@.len() == self.mag.len());
    }

    /// Every prefix of the digits stays below its power of the base.
    proof fn lemma_prefix(self, i: int)
        requires
            limbs::digits(self.mag@),
            0 <= i <= self.mag@.len(),
        ensures
            limbs::digits(self.mag@.take(i)),
            0 <= limbs::value(self.mag@.take(i)) < limbs::base_pow(i as nat),
    {
        assert forall|k: int| 0 <= k < i implies #[trigger] self.mag@.take(i)[k] < LIMB_BASE by {
            assert(self.mag@[k] < LIMB_BASE);
        }
        limbs::lemma_value_bound(self.mag@.take(i));
    }

    /// A number has one representation: equal values have equal limbs.
    pub proof fn lemma_same_limbs(self, other: Self)
        requires
            self.wf(),
            other.wf(),
        ensures
            self@ == other@ <==> self.limb_seq() == other.limb_seq(),
    {
        self.lemma_wf();
        other.lemma_wf();
    }

    /// Zero with room for `capacity` limbs (at least one).
    pub fn zeros(capacity: usize) -> (r: Self)
        ensures
            r.wf(),
            r@ == 0,
            r.capacity() == if capacity < 1 {
                1
            } else {
                capacity as nat
            },
    {
        let room: usize = if capacity < 1 {
            1
        } else {
            capacity
        };
        let r = BigInt { mag: vec![0u32; room], len: 0 };
        assert(r.limb_seq() =~= Seq::<u32>::empty());
        r
    }

    /// Number of used limbs.
    pub fn len(&self) -> (n: usize)
        requires
            self.wf(),
        ensures
            n == self.limb_seq().len(),
            n == limbs::limb_count(self@),
    {
        proof {
            self.lemma_wf();
        }
        self.len
    }

    pub fn is_zero(&self) -> (b: bool)
        requires
            self.wf(),
        ensures
            b == (self@ == 0),
    {
        proof {
            self.lemma_wf();
        }
        self.len == 0
    }

    /// A `u64` as base-`10^9` digits (at most 3 limbs).
    pub fn from_u64(value: u64, capacity: usize) -> (r: Self)
        ensures
            r.wf(),
            r@ == value,
            r.capacity() == if capacity < 3 {
                3
            } else {
                capacity as nat
            },
    {
        let ghost v0 = value as int;
        let mut out = Self::zeros(
            if capacity < 3 {
                3
            } else {
                capacity
            },
        );
        let mut value: u64 = value;
        let mut i: usize = 0;
        proof {
            out.lemma_wf();
            limbs::lemma_base_pow_step(0);
            assert(out.mag@.take(0) =~= Seq::<u32>::empty());
            lemma_mul_basics(v0);
        }
        while value > 0
            invariant
                0 <= i <= 3,
                out.mag@.len() == if capacity < 3 {
                    3
                } else {
                    capacity as nat
                },
                i == 1 ==> value <= 18_446_744_073,
                i == 2 ==> value <= 18,
                i == 3 ==> value == 0,
                i == 0 ==> value == v0,
                limbs::value(out.mag@.take(i as int)) + value * limbs::base_pow(i as nat) == v0,
                limbs::digits(out.mag@),
                value == 0 && i > 0 ==> out.mag@[i - 1] != 0,
                forall|k: int| i <= k < out.mag@.len() ==> #[trigger] out.mag@[k] == 0,
            decreases value,
        {
            let ghost before = out.mag@;
            let ghost old_value = value as int;
            out.mag[i] = (value % LIMB_BASE) as u32;
            value = value / LIMB_BASE;
            i = i + 1;
            proof {
                assert(out.mag@.take(i as int) =~= before.take(i - 1).push(
                    (old_value % 1_000_000_000) as u32,
                ));
                limbs::lemma_value_push(
                    before.take(i - 1),
                    (old_value % 1_000_000_000) as u32,
                );
                limbs::lemma_base_pow_step((i - 1) as nat);
                let q = limbs::base_pow((i - 1) as nat);
                let lo = old_value % 1_000_000_000;
                let hi = value as int;
                assert(old_value * q == lo * q + hi * (1_000_000_000 * q)) by (nonlinear_arith)
                    requires
                        old_value == lo + 1_000_000_000 * hi,
                ;
                assert forall|k: int| 0 <= k < out.mag@.len() implies #[trigger] out.mag@[k]
                    < LIMB_BASE by {
                    if k != i - 1 {
                        assert(out.mag@[k] == before[k]);
                    }
                }
            }
        }
        out.len = i;
        proof {
            lemma_mul_basics(limbs::base_pow(i as nat));
            out.lemma_prefix(i as int);
        }
        out
    }

    /// Drops leading zeros.
    fn trim(&mut self)
        requires
            old(self).well_placed(),
        ensures
            final(self).wf(),
            final(self)@ == old(self)@,
            final(self).capacity() == old(self).capacity(),
    {
        let ghost v = limbs::value(self.limb_seq());
        while self.len > 0 && self.mag[self.len - 1] == 0
            invariant
                self.well_placed(),
                self.mag@ == old(self).mag@,
                limbs::value(self.limb_seq()) == v,
            decreases self.len,
        {
            proof {
                limbs::lemma_value_take(self.mag@, self.len - 1);
                lemma_mul_basics(limbs::base_pow((self.len - 1) as nat));
            }
            self.len = self.len - 1;
        }
        proof {
            self.lemma_prefix(self.len as int);
        }
    }

    /// The number with the given base-`10^9` digits, least significant first;
    /// leading zeros are dropped.
    pub fn from_limbs(digits: &[u32], capacity: usize) -> (r: Self)
        requires
            limbs::digits(digits@),
        ensures
            r.wf(),
            r@ == limbs::value(digits@),
            r.capacity() == if capacity < 1 && digits@.len() < 1 {
                1
            } else if capacity < digits@.len() {
                digits@.len()
            } else {
                capacity as nat
            },
    {
        let n: usize = digits.len();
        let room: usize = if capacity < n {
            n
        } else {
            capacity
        };
        let mut r = Self::zeros(room);
        proof {
            r.lemma_wf();
            assert(r.limb_seq().len() == r.len);
        }
        let mut i: usize = 0;
        while i < n
            invariant
                n == digits@.len(),
                i <= n <= r.mag@.len(),
                r.mag@.len() == if room < 1 {
                    1
                } else {
                    room
                },
                limbs::digits(digits@),
                limbs::digits(r.mag@),
                forall|k: int|
                    0 <= k < r.mag@.len() ==> #[trigger] r.mag@[k] == if k < i {
                        digits@[k]
                    } else {
                        0
                    },
            decreases n - i,
        {
            r.mag[i] = digits[i];
            i = i + 1;
        }
        r.len = n;
        assert(r.limb_seq() =~= digits@);
        proof {
            limbs::lemma_value_bound(digits@);
        }
        r.trim();
        r
    }

    /// `self >= other`, limb by limb from the top.
    pub fn ge_mag(&self, other: &Self) -> (b: bool)
        requires
            self.wf(),
            other.wf(),
        ensures
            b == (self@ >= other@),
    {
        proof {
            self.lemma_wf();
            other.lemma_wf();
        }
        if self.len != other.len {
            proof {
                if self.len > other.len {
                    limbs::lemma_base_pow_monotone(other.len as nat, (self.len - 1) as nat);
                } else {
                    limbs::lemma_base_pow_monotone(self.len as nat, (other.len - 1) as nat);
                }
            }
            return self.len > other.len;
        }
        let mut i: usize = self.len;
        while i > 0
            invariant
                self.wf(),
                other.wf(),
                self.len == other.len,
                0 <= i <= self.len,
                self@ - other@ == limbs::value(self.mag@.take(i as int)) - limbs::value(
                    other.mag@.take(i as int),
                ),
            decreases i,
        {
            i = i - 1;
            proof {
                limbs::lemma_value_take(self.mag@, i as int);
                limbs::lemma_value_take(other.mag@, i as int);
                self.lemma_prefix(i as int);
                other.lemma_prefix(i as int);
            }
            if self.mag[i] != other.mag[i] {
                proof {
                    let q = limbs::base_pow(i as nat);
                    let x = self.mag@[i as int] as int;
                    let y = other.mag@[i as int] as int;
                    assert(x > y ==> x * q >= y * q + q) by (nonlinear_arith)
                        requires
                            q > 0,
                    ;
                    assert(x < y ==> y * q >= x * q + q) by (nonlinear_arith)
                        requires
                            q > 0,
                    ;
                }
                return self.mag[i] > other.mag[i];
            }
        }
        assert(self.mag@.take(0) =~= other.mag@.take(0));
        true
    }
}

impl BigInt {
    /// `self += other`. The sum must fit the capacity.
    pub fn add_assign(&mut self, other: &Self)
        requires
            old(self).wf(),
            other.wf(),
            old(self)@ + other@ < limbs::base_pow(old(self).capacity()),
        ensures
            final(self).wf(),
            final(self)@ == old(self)@ + other@,
            final(self).capacity() == old(self).capacity(),
    {
        let ghost a = self.mag@;
        let ghost la = self.len as int;
        let ghost lb = other.len as int;
        let ghost cap = self.mag@.len();
        let ghost sum_all = self@ + other@;
        let mut carry: u64 = 0;
        let max: usize = if self.len < other.len {
            other.len
        } else {
            self.len
        };
        let mut i: usize = 0;
        proof {
            self.lemma_wf();
            other.lemma_wf();
            limbs::lemma_limb_count(other@, cap);
            assert(lb <= cap);
            limbs::lemma_base_pow_step(0);
            assert(a.take(0) =~= Seq::<u32>::empty());
            assert(other.mag@.take(0) =~= Seq::<u32>::empty());
            assert(self.mag@.len() == self.mag.len());
        }
        while i < max || carry != 0
            invariant
                other.wf(),
                lb == other.len,
                la <= cap,
                lb <= cap,
                cap <= usize::MAX,
                max == if la < lb {
                    lb
                } else {
                    la
                },
                a.len() == cap,
                self.mag@.len() == cap,
                limbs::digits(a),
                limbs::digits(self.mag@),
                forall|k: int| la <= k < cap ==> #[trigger] a[k] == 0,
                carry <= 1,
                i <= cap,
                i <= max + 1,
                i > max ==> carry == 0 && self.mag@[max as int] == 1,
                self.len == if i < la {
                    la
                } else {
                    i as int
                },
                forall|k: int| i <= k < cap ==> #[trigger] self.mag@[k] == a[k],
                limbs::value(self.mag@.take(i as int)) + carry * limbs::base_pow(i as nat)
                    == limbs::value(
                    a.take(
                        if i < la {
                            i as int
                        } else {
                            la
                        },
                    ),
                ) + limbs::value(
                    other.mag@.take(
                        if i < lb {
                            i as int
                        } else {
                            lb
                        },
                    ),
                ),
                limbs::value(a.take(la)) + limbs::value(other.mag@.take(lb)) == sum_all,
                sum_all < limbs::base_pow(cap),
            decreases max + 2 - i,
        {
            proof {
                if i == cap {
                    self.lemma_prefix(i as int);
                    lemma_mul_basics(limbs::base_pow(i as nat));
                    assert(false);
                }
            }
            let ghost before = self.mag@;
            let ghost carry0 = carry as int;
            let mut sum: u64 = carry;
            if i < self.len {
                assert(before[i as int] == a[i as int]);
                assert(a[i as int] < LIMB_BASE);
                sum = sum + self.mag[i] as u64;
            }
            if i < other.len {
                assert(other.mag@[i as int] < LIMB_BASE);
                sum = sum + other.mag[i] as u64;
            }
            let ghost total = sum as int;
            if sum >= LIMB_BASE {
                sum = sum - LIMB_BASE;
                carry = 1;
            } else {
                carry = 0;
            }
            self.mag[i] = sum as u32;
            if i >= self.len {
                self.len = i + 1;
            }
            i = i + 1;
            proof {
                let j = i - 1;
                let q = limbs::base_pow(j as nat);
                assert(self.mag@.take(i as int) =~= before.take(j).push(sum as u32));
                limbs::lemma_value_push(before.take(j), sum as u32);
                limbs::lemma_base_pow_step(j as nat);
                let x = if j < la {
                    a[j] as int
                } else {
                    0
                };
                let y = if j < lb {
                    other.mag@[j] as int
                } else {
                    0
                };
                if j < la {
                    limbs::lemma_value_take(a, j);
                }
                if j < lb {
                    limbs::lemma_value_take(other.mag@, j);
                }
                assert(total == carry0 + x + y);
                let c1 = carry as int;
                let s1 = sum as int;
                assert(s1 * q + c1 * (1_000_000_000 * q) == carry0 * q + x * q + y * q)
                    by (nonlinear_arith)
                    requires
                        s1 + 1_000_000_000 * c1 == carry0 + x + y,
                ;
                lemma_mul_basics(q);
                assert forall|k: int| 0 <= k < cap implies #[trigger] self.mag@[k] < LIMB_BASE by {
                    if k != j {
                        assert(self.mag@[k] == before[k]);
                    }
                }
            }
        }
        proof {
            lemma_mul_basics(limbs::base_pow(i as nat));
            assert forall|k: int| i <= k < cap implies #[trigger] self.mag@[k] == 0 by {
                assert(self.mag@[k] == a[k]);
            }
            self.lemma_prefix(i as int);
            if i == max && max > 0 {
                limbs::lemma_value_top(self.mag@.take(i as int));
            }
        }
    }

    /// `self -= other`. Requires `self >= other`.
    pub fn sub_assign(&mut self, other: &Self)
        requires
            old(self).wf(),
            other.wf(),
            old(self)@ >= other@,
        ensures
            final(self).wf(),
            final(self)@ == old(self)@ - other@,
            final(self).capacity() == old(self).capacity(),
    {
        let ghost a = self.mag@;
        let ghost cap = self.mag@.len();
        let ghost difference = self@ - other@;
        let la: usize = self.len;
        let lb: usize = other.len;
        let mut borrow: i64 = 0;
        let mut i: usize = 0;
        proof {
            self.lemma_wf();
            other.lemma_wf();
            limbs::lemma_limb_count_monotone(other@, self@);
            limbs::lemma_base_pow_step(0);
            assert(a.take(0) =~= Seq::<u32>::empty());
            assert(other.mag@.take(0) =~= Seq::<u32>::empty());
        }
        while i < la
            invariant
                other.wf(),
                lb == other.len,
                lb <= la,
                la <= cap,
                self.len == la,
                a.len() == cap,
                self.mag@.len() == cap,
                limbs::digits(a),
                limbs::digits(self.mag@),
                0 <= borrow <= 1,
                i <= la,
                forall|k: int| i <= k < cap ==> #[trigger] self.mag@[k] == a[k],
                limbs::value(self.mag@.take(i as int)) == limbs::value(a.take(i as int))
                    - limbs::value(
                    other.mag@.take(
                        if i < lb {
                            i as int
                        } else {
                            lb as int
                        },
                    ),
                ) + borrow * limbs::base_pow(i as nat),
            decreases la - i,
        {
            let ghost before = self.mag@;
            let ghost borrow0 = borrow as int;
            assert(before[i as int] == a[i as int]);
            assert(a[i as int] < LIMB_BASE);
            let mut diff: i64 = self.mag[i] as i64 - borrow;
            if i < lb {
                assert(other.mag@[i as int] < LIMB_BASE);
                diff = diff - other.mag[i] as i64;
            }
            if diff < 0 {
                diff = diff + LIMB_BASE as i64;
                borrow = 1;
            } else {
                borrow = 0;
            }
            self.mag[i] = diff as u32;
            i = i + 1;
            proof {
                let j = i - 1;
                let q = limbs::base_pow(j as nat);
                assert(self.mag@.take(i as int) =~= before.take(j).push(diff as u32));
                limbs::lemma_value_push(before.take(j), diff as u32);
                limbs::lemma_base_pow_step(j as nat);
                limbs::lemma_value_take(a, j);
                let x = a[j] as int;
                let y = if j < lb {
                    other.mag@[j] as int
                } else {
                    0
                };
                if j < lb {
                    limbs::lemma_value_take(other.mag@, j);
                }
                let b1 = borrow as int;
                let d1 = diff as int;
                assert(d1 * q == x * q - y * q - borrow0 * q + b1 * (1_000_000_000 * q))
                    by (nonlinear_arith)
                    requires
                        d1 == x - y - borrow0 + 1_000_000_000 * b1,
                ;
                lemma_mul_basics(q);
                assert forall|k: int| 0 <= k < cap implies #[trigger] self.mag@[k] < LIMB_BASE by {
                    if k != j {
                        assert(self.mag@[k] == before[k]);
                    }
                }
            }
        }
        proof {
            self.lemma_prefix(la as int);
            lemma_mul_basics(limbs::base_pow(la as nat));
            assert(borrow == 0);
            assert forall|k: int| la <= k < cap implies #[trigger] self.mag@[k] == 0 by {
                assert(self.mag@[k] == a[k]);
            }
        }
        self.trim();
    }

    /// `self *= 2` (limbs are decimal, so this is doubling, not a shift).
    pub fn mul2(&mut self)
        requires
            old(self).wf(),
            old(self)@ == 0 || old(self).limb_seq().len() < old(self).capacity(),
        ensures
            final(self).wf(),
            final(self)@ == 2 * old(self)@,
            final(self).capacity() == old(self).capacity(),
    {
        proof {
            self.lemma_wf();
        }
        if self.len == 0 {
            return ;
        }
        let ghost a = self.mag@;
        let ghost cap = self.mag@.len();
        let ghost v = self@ as int;
        let la: usize = self.len;
        let mut carry: u64 = 0;
        let mut i: usize = 0;
        proof {
            limbs::lemma_base_pow_step(0);
            assert(a.take(0) =~= Seq::<u32>::empty());
        }
        while i < la
            invariant
                la < cap,
                self.len == la,
                a.len() == cap,
                self.mag@.len() == cap,
                limbs::digits(a),
                limbs::digits(self.mag@),
                0 <= carry <= 1,
                i <= la,
                forall|k: int| i <= k < cap ==> #[trigger] self.mag@[k] == a[k],
                limbs::value(self.mag@.take(i as int)) + carry * limbs::base_pow(i as nat) == 2
                    * limbs::value(a.take(i as int)),
            decreases la - i,
        {
            let ghost before = self.mag@;
            let ghost carry0 = carry as int;
            assert(before[i as int] == a[i as int]);
            assert(a[i as int] < LIMB_BASE);
            let d: u64 = self.mag[i] as u64 * 2 + carry;
            let low: u32;
            if d >= LIMB_BASE {
                low = (d - LIMB_BASE) as u32;
                carry = 1;
            } else {
                low = d as u32;
                carry = 0;
            }
            self.mag[i] = low;
            i = i + 1;
            proof {
                let j = i - 1;
                let q = limbs::base_pow(j as nat);
                assert(self.mag@.take(i as int) =~= before.take(j).push(low));
                limbs::lemma_value_push(before.take(j), low);
                limbs::lemma_base_pow_step(j as nat);
                limbs::lemma_value_take(a, j);
                let x = a[j] as int;
                let c1 = carry as int;
                let l1 = low as int;
                assert(l1 * q + c1 * (1_000_000_000 * q) == 2 * (x * q) + carry0 * q)
                    by (nonlinear_arith)
                    requires
                        l1 + 1_000_000_000 * c1 == 2 * x + carry0,
                ;
                assert forall|k: int| 0 <= k < cap implies #[trigger] self.mag@[k] < LIMB_BASE by {
                    if k != j {
                        assert(self.mag@[k] == before[k]);
                    }
                }
            }
        }
        let ghost done = self.mag@;
        proof {
            lemma_mul_basics(limbs::base_pow(la as nat));
        }
        if carry != 0 {
            self.mag[la] = carry as u32;
            self.len = la + 1;
            proof {
                assert(self.mag@.take(la + 1) =~= done.take(la as int).push(1));
                limbs::lemma_value_push(done.take(la as int), 1);
            }
        }
        proof {
            assert forall|k: int| self.len <= k < cap implies #[trigger] self.mag@[k] == 0 by {
                assert(done[k] == a[k]);
                assert(self.mag@[k] == done[k]);
            }
            assert forall|k: int| 0 <= k < cap implies #[trigger] self.mag@[k] < LIMB_BASE by {
                assert(done[k] < LIMB_BASE);
            }
            self.lemma_prefix(self.len as int);
            limbs::lemma_value_top(self.limb_seq());
        }
    }

    /// Read-only limb view (base-`10^9` digits, top nonzero).
    pub fn limbs(&self) -> (s: &[u32])
        requires
            self.wf(),
        ensures
            s@ == self.limb_seq(),
            s@ == limbs::limbs_of(self@),
    {
        proof {
            self.lemma_wf();
        }
        vstd::slice::slice_subrange(self.mag.as_slice(), 0, self.len)
    }

    /// Exact decimal digit count.
    pub fn decimal_digits(&self) -> (n: usize)
        requires
            self.wf(),
            9 * self.limb_seq().len() <= usize::MAX,
        ensures
            n == digits::decimal(self@).len(),
    {
        proof {
            self.lemma_wf();
        }
        if self.len == 0 {
            return 1;
        }
        let mut top: u32 = self.mag[self.len - 1];
        let ghost top0 = top as nat;
        let mut count: u32 = 0;
        proof {
            assert(self.limb_seq().last() == top0);
            assert(self.mag@[self.len - 1] < LIMB_BASE);
            digits::lemma_decimal_limbs(self.limb_seq());
            limbs::lemma_value_take(self.mag@, self.len - 1);
        }
        while top > 0
            invariant
                top0 > 0,
                top == 0 ==> digits::decimal(top0).len() == count,
                top > 0 ==> digits::decimal(top0).len() == count + digits::decimal(top as nat).len(),
                count == 0 ==> top <= 999_999_999,
                count == 1 ==> top <= 99_999_999,
                count == 2 ==> top <= 9_999_999,
                count == 3 ==> top <= 999_999,
                count == 4 ==> top <= 99_999,
                count == 5 ==> top <= 9_999,
                count == 6 ==> top <= 999,
                count == 7 ==> top <= 99,
                count == 8 ==> top <= 9,
                count == 9 ==> top == 0,
                count <= 9,
            decreases top,
        {
            count = count + 1;
            top = top / 10;
        }
        (self.len - 1) * 9 + count as usize
    }
}

/// The entries of `s` as mathematical integers.
spec fn wide_ints(s: Seq<u128>) -> Seq<int> {
    Seq::new(s.len(), |i: int| s[i] as int)
}

proof fn lemma_wide_take(s: Seq<u128>, i: int)
    requires
        0 <= i < s.len(),
    ensures
        poly::poly_eval(wide_ints(s.take(i + 1)), limbs::base()) == poly::poly_eval(
            wide_ints(s.take(i)),
            limbs::base(),
        ) + s[i] * limbs::base_pow(i as nat),
{
    assert(wide_ints(s.take(i + 1)) =~= wide_ints(s.take(i)).push(s[i] as int));
    poly::lemma_eval_push(wide_ints(s.take(i)), s[i] as int, limbs::base());
}

impl BigInt {
    /// Schoolbook multiplication with one wide accumulator per limb and a
    /// single carry pass, keeping 2 spare limbs for what follows.
    pub fn mul_schoolbook(a: &Self, b: &Self) -> (r: Self)
        requires
            a.wf(),
            b.wf(),
            a@ == 0 || b@ == 0 || a.limb_seq().len() + b.limb_seq().len() + 2 <= usize::MAX,
        ensures
            r.wf(),
            r@ == a@ * b@,
            r.capacity() == if a@ == 0 || b@ == 0 {
                2
            } else {
                a.limb_seq().len() + b.limb_seq().len() + 2
            },
            r.limb_seq().len() + 2 <= r.capacity(),
    {
        proof {
            a.lemma_wf();
            b.lemma_wf();
            lemma_mul_basics(a@ as int);
            lemma_mul_basics(b@ as int);
        }
        if a.len == 0 || b.len == 0 {
            let out = Self::zeros(2);
            proof {
                out.lemma_wf();
            }
            return out;
        }
        let la: usize = a.len;
        let lb: usize = b.len;
        let n: usize = la + lb;
        let ghost z = limbs::base();
        let ghost bv = b@ as int;
        // The largest product of two limbs.
        let ghost top = 999_999_999int * 999_999_999int;
        let mut acc: Vec<u128> = vec![0u128; n];
        let mut i: usize = 0;
        proof {
            poly::lemma_eval_zeros(wide_ints(acc@), z);
            assert(a.mag@.take(0) =~= Seq::<u32>::empty());
            lemma_mul_basics(bv);
        }
        while i < la
            invariant
                a.wf(),
                b.wf(),
                la == a.len,
                lb == b.len,
                n == la + lb,
                i <= la,
                acc@.len() == n,
                z == limbs::base(),
                bv == limbs::value(b.mag@.take(lb as int)),
                top == 999_999_999int * 999_999_999int,
                forall|k: int| 0 <= k < n ==> #[trigger] acc@[k] <= i * top,
                poly::poly_eval(wide_ints(acc@), z) == limbs::value(a.mag@.take(i as int)) * bv,
            decreases la - i,
        {
            let ai: u32 = a.mag[i];
            assert(a.mag@[i as int] < LIMB_BASE);
            let mut j: usize = 0;
            let ghost start = acc@;
            let ghost prev = limbs::value(a.mag@.take(i as int));
            proof {
                assert(b.mag@.take(0) =~= Seq::<u32>::empty());
                lemma_mul_basics(ai * limbs::base_pow(i as nat));
            }
            while j < lb
                invariant
                    a.wf(),
                    b.wf(),
                    la == a.len,
                    lb == b.len,
                    n == la + lb,
                    i < la,
                    j <= lb,
                    ai < LIMB_BASE,
                    start.len() == n,
                    acc@.len() == n,
                    z == limbs::base(),
                    top == 999_999_999int * 999_999_999int,
                    forall|k: int| 0 <= k < n ==> #[trigger] start[k] <= i * top,
                    forall|k: int|
                        0 <= k < n && !(i <= k < i + j) ==> #[trigger] acc@[k] == start[k],
                    forall|k: int| i <= k < i + j ==> #[trigger] acc@[k] <= i * top + top,
                    poly::poly_eval(wide_ints(acc@), z) == prev * bv + ai * limbs::base_pow(
                        i as nat,
                    ) * limbs::value(b.mag@.take(j as int)),
                decreases lb - j,
            {
                let bj: u32 = b.mag[j];
                assert(b.mag@[j as int] < LIMB_BASE);
                let ghost before = acc@;
                let ghost k = i + j;
                proof {
                    assert(before[k] == start[k]);
                    assert(0 <= ai * bj <= top) by (nonlinear_arith)
                        requires
                            0 <= ai <= 999_999_999,
                            0 <= bj <= 999_999_999,
                            top == 999_999_999int * 999_999_999int,
                    ;
                    assert(i * top <= 0xffff_ffff_ffff_ffff * top) by (nonlinear_arith)
                        requires
                            0 <= i <= 0xffff_ffff_ffff_ffff,
                            top >= 0,
                    ;
                }
                let prod: u128 = ai as u128 * bj as u128;
                acc[i + j] = acc[i + j] + prod;
                proof {
                    assert(wide_ints(acc@) =~= wide_ints(before).update(
                        k,
                        wide_ints(before)[k] + prod,
                    ));
                    poly::lemma_eval_update(wide_ints(before), k, prod as int, z);
                    limbs::lemma_value_take(b.mag@, j as int);
                    lemma_pow_adds(z, i as nat, j as nat);
                    let qi = limbs::base_pow(i as nat);
                    let qj = limbs::base_pow(j as nat);
                    let low = limbs::value(b.mag@.take(j as int));
                    let x = ai as int;
                    let y = bj as int;
                    assert(x * qi * (low + y * qj) == x * qi * low + (x * y) * (qi * qj))
                        by (nonlinear_arith);
                }
                j = j + 1;
            }
            proof {
                limbs::lemma_value_take(a.mag@, i as int);
                let q = limbs::base_pow(i as nat);
                let x = ai as int;
                assert((prev + x * q) * bv == prev * bv + x * q * bv) by (nonlinear_arith);
                assert((i + 1) * top == i * top + top) by (nonlinear_arith);
                assert forall|k: int| 0 <= k < n implies #[trigger] acc@[k] <= (i + 1) * top by {
                    if !(i <= k < i + lb) {
                        assert(acc@[k] == start[k]);
                    }
                }
            }
            i = i + 1;
        }
        // One carry pass over the accumulators.
        let ghost limit = 0xffff_ffff_ffff_ffff * top;
        let mut mag: Vec<u32> = vec![0u32; n + 2];
        let mut carry: u128 = 0;
        let mut t: usize = 0;
        proof {
            assert(mag@.take(0) =~= Seq::<u32>::empty());
            assert(wide_ints(acc@.take(0)) =~= Seq::<int>::empty());
            limbs::lemma_base_pow_step(0);
            assert(la * top <= limit) by (nonlinear_arith)
                requires
                    0 <= la <= 0xffff_ffff_ffff_ffff,
                    top >= 0,
                    limit == 0xffff_ffff_ffff_ffff * top,
            ;
        }
        while t < n
            invariant
                t <= n,
                n == acc@.len(),
                mag@.len() == n + 2,
                z == limbs::base(),
                top == 999_999_999int * 999_999_999int,
                limit == 0xffff_ffff_ffff_ffff * top,
                carry <= limit,
                la * top <= limit,
                forall|k: int| 0 <= k < n ==> #[trigger] acc@[k] <= la * top,
                limbs::digits(mag@),
                forall|k: int| t <= k < n + 2 ==> #[trigger] mag@[k] == 0,
                limbs::value(mag@.take(t as int)) + carry * limbs::base_pow(t as nat)
                    == poly::poly_eval(wide_ints(acc@.take(t as int)), z),
            decreases n - t,
        {
            let ghost before = mag@;
            let ghost carry0 = carry as int;
            assert(acc@[t as int] <= la * top);
            let cur: u128 = acc[t] + carry;
            let low: u32 = (cur % LIMB_BASE as u128) as u32;
            mag[t] = low;
            carry = cur / LIMB_BASE as u128;
            t = t + 1;
            proof {
                let j = t - 1;
                let q = limbs::base_pow(j as nat);
                assert(mag@.take(t as int) =~= before.take(j).push(low));
                limbs::lemma_value_push(before.take(j), low);
                lemma_wide_take(acc@, j);
                limbs::lemma_base_pow_step(j as nat);
                let x = acc@[j] as int;
                let l1 = low as int;
                let c1 = carry as int;
                assert(l1 * q + c1 * (1_000_000_000 * q) == x * q + carry0 * q)
                    by (nonlinear_arith)
                    requires
                        l1 + 1_000_000_000 * c1 == x + carry0,
                ;
                assert forall|k: int| 0 <= k < n + 2 implies #[trigger] mag@[k] < LIMB_BASE by {
                    if k != j {
                        assert(mag@[k] == before[k]);
                    }
                }
            }
        }
        let mut out = BigInt { mag, len: n };
        proof {
            assert(acc@.take(n as int) =~= acc@);
            // The product has no more limbs than its factors together.
            let q = limbs::base_pow(n as nat);
            lemma_pow_adds(z, la as nat, lb as nat);
            let av = a@ as int;
            let qa = limbs::base_pow(la as nat);
            let qb = limbs::base_pow(lb as nat);
            assert(av * bv < qa * qb) by (nonlinear_arith)
                requires
                    0 <= av < qa,
                    0 <= bv < qb,
            ;
            out.lemma_prefix(n as int);
            let c = carry as int;
            assert(c == 0) by (nonlinear_arith)
                requires
                    limbs::value(out.mag@.take(n as int)) + c * q == av * bv,
                    limbs::value(out.mag@.take(n as int)) >= 0,
                    av * bv < q,
                    q > 0,
                    c >= 0,
            ;
            lemma_mul_basics(q);
        }
        out.trim();
        proof {
            out.lemma_wf();
            limbs::lemma_limb_count(out@, n as nat);
        }
        out
    }

    /// Copies the used limbs into a zeroed `dst`.
    pub(crate) fn fill_u32(src: &Self, dst: &mut [u32])
        requires
            src.wf(),
            src.limb_seq().len() <= old(dst)@.len(),
            forall|k: int| 0 <= k < old(dst)@.len() ==> #[trigger] old(dst)@[k] == 0,
        ensures
            ntt::ints(final(dst)@) == poly::poly_pad(ntt::ints(src.limb_seq()), old(dst)@.len()),
    {
        let ghost n = dst@.len();
        let mut i: usize = 0;
        while i < src.len
            invariant
                src.wf(),
                i <= src.len <= n,
                dst@.len() == n,
                forall|k: int|
                    0 <= k < n ==> #[trigger] dst@[k] == if k < i {
                        src.mag@[k]
                    } else {
                        0
                    },
            decreases src.len - i,
        {
            dst[i] = src.mag[i];
            i = i + 1;
        }
        assert(ntt::ints(dst@) =~= poly::poly_pad(ntt::ints(src.limb_seq()), n));
    }
}

// ----------------------------------------------------------------------
// Multiplication by transforms
// ----------------------------------------------------------------------

/// `P1 * P2`.
fn p1p2() -> (r: u64)
    ensures
        r == crt::two_primes(),
{
    ntt::P1 * ntt::P2
}

/// `P1^-1 mod P2`.
fn p1_inv_p2() -> (r: u64)
    ensures
        r == crt::inverse_p1(),
{
    ntt::mod_inverse(ntt::P1, ntt::P2)
}

/// `(P1 * P2)^-1 mod P3`.
fn p12_inv_p3() -> (r: u64)
    ensures
        r == crt::inverse_p1p2(),
{
    ntt::mod_inverse(p1p2() % ntt::P3, ntt::P3)
}

/// The coefficients whose residues are given, one list per prime.
pub open spec fn coefficients(r1: Seq<u32>, r2: Seq<u32>, r3: Seq<u32>, n: nat) -> Seq<int> {
    Seq::new(n, |i: int| crt::combined(r1[i] as int, r2[i] as int, r3[i] as int))
}

/// The first `n` entries of `r` are there and reduced modulo prime `pi`.
pub open spec fn reduced(r: Seq<u32>, n: nat, pi: int) -> bool {
    &&& n <= r.len()
    &&& forall|i: int| 0 <= i < n ==> #[trigger] r[i] < field::prime(pi)
}

/// One coefficient from its three residues.
fn combine_residues(x1: u32, x2: u32, x3: u32, inv_12: u64, inv_123: u64) -> (c: u128)
    requires
        x1 < ntt::P1,
        x2 < ntt::P2,
        x3 < ntt::P3,
        inv_12 == crt::inverse_p1(),
        inv_123 == crt::inverse_p1p2(),
    ensures
        c == crt::combined(x1 as int, x2 as int, x3 as int),
        c < crt::three_primes(),
{
    let p1: u64 = ntt::P1;
    let p2: u64 = ntt::P2;
    let p3: u64 = ntt::P3;
    let v1: u64 = x1 as u64;
    proof {
        crt::lemma_inverses();
        crt::lemma_combined_range(x1 as int, x2 as int, x3 as int);
        ntt::lemma_mu(1);
        ntt::lemma_mu(2);
        field::lemma_prime_shape(1);
        field::lemma_prime_shape(2);
    }
    // The full reduction is needed: P1 is about six times P2.
    let diff2: u64 = (x2 as u64 + (p2 - v1 % p2)) % p2;
    let v2: u64 = ntt::mulmod(diff2, inv_12, p2, ntt::MU_P2);
    proof {
        let d = x2 as int - x1 as int;
        let k = v1 as int / p2 as int;
        lemma_fundamental_div_mod(v1 as int, p2 as int);
        assert(x2 + (p2 - v1 as int % p2 as int) == d + (k + 1) * p2) by (nonlinear_arith)
            requires
                v1 == p2 * k + v1 as int % p2 as int,
                d == x2 - v1,
        ;
        crate::modular::lemma_congruent_shift(d, k + 1, p2 as int);
        crate::modular::lemma_congruent_remainder(d + (k + 1) * p2, p2 as int);
        crate::modular::lemma_congruent_ops(
            diff2 as int,
            d,
            inv_12 as int,
            inv_12 as int,
            p2 as int,
        );
        assert(v2 == crt::second_digit(x1 as int, x2 as int));
    }
    let part: u64 = v1 + p1 * v2;
    let t: u64 = part % p3;
    let diff3: u64 = if (x3 as u64) < t {
        x3 as u64 + p3 - t
    } else {
        x3 as u64 - t
    };
    let v3: u64 = ntt::mulmod(diff3, inv_123, p3, ntt::MU_P3);
    proof {
        let d = x3 as int - part as int;
        crate::modular::lemma_congruent_remainder(part as int, p3 as int);
        crate::modular::lemma_congruent_ops(x3 as int, x3 as int, t as int, part as int, p3 as int);
        crate::modular::lemma_congruent_shift(x3 - t, 1, p3 as int);
        crate::modular::lemma_congruent_ops(
            diff3 as int,
            d,
            inv_123 as int,
            inv_123 as int,
            p3 as int,
        );
        assert(v3 == crt::third_digit(x1 as int, x2 as int, x3 as int));
    }
    part as u128 + p1p2() as u128 * v3 as u128
}

impl BigInt {
    /// Garner recombination: residues of `n` coefficients become base-`10^9`
    /// limbs, one exact coefficient plus carry per limb. Only the first `n`
    /// entries of each list are read.
    pub(crate) fn garner(r1: &[u32], r2: &[u32], r3: &[u32], n: usize) -> (r: Self)
        requires
            n + 4 <= usize::MAX,
            reduced(r1@, n as nat, 0),
            reduced(r2@, n as nat, 1),
            reduced(r3@, n as nat, 2),
        ensures
            r.wf(),
            r@ == poly::poly_eval(coefficients(r1@, r2@, r3@, n as nat), limbs::base()),
            r.capacity() == n + 4,
    {
        let inv_12: u64 = p1_inv_p2();
        let inv_123: u64 = p12_inv_p3();
        let ghost c = coefficients(r1@, r2@, r3@, n as nat);
        let ghost z = limbs::base();
        let mut mag: Vec<u32> = vec![0u32; n + 4];
        let mut carry: u64 = 0;
        let mut i: usize = 0;
        proof {
            field::lemma_prime_shape(0);
            field::lemma_prime_shape(1);
            field::lemma_prime_shape(2);
            limbs::lemma_base_pow_step(0);
            assert(mag@.take(0) =~= Seq::<u32>::empty());
            assert(c.take(0) =~= Seq::<int>::empty());
        }
        while i < n
            invariant
                i <= n,
                reduced(r1@, n as nat, 0),
                reduced(r2@, n as nat, 1),
                reduced(r3@, n as nat, 2),
                field::prime(0) == ntt::P1,
                field::prime(1) == ntt::P2,
                field::prime(2) == ntt::P3,
                inv_12 == crt::inverse_p1(),
                inv_123 == crt::inverse_p1p2(),
                c == coefficients(r1@, r2@, r3@, n as nat),
                z == limbs::base(),
                mag@.len() == n + 4,
                carry <= 154_742_504_910_672_534,
                limbs::digits(mag@),
                forall|k: int| i <= k < n + 4 ==> #[trigger] mag@[k] == 0,
                limbs::value(mag@.take(i as int)) + carry * limbs::base_pow(i as nat)
                    == poly::poly_eval(c.take(i as int), z),
            decreases n - i,
        {
            let ghost before = mag@;
            let ghost carry0 = carry as int;
            assert(r1@[i as int] < field::prime(0));
            assert(r2@[i as int] < field::prime(1));
            assert(r3@[i as int] < field::prime(2));
            let coefficient: u128 = combine_residues(r1[i], r2[i], r3[i], inv_12, inv_123);
            assert(crt::three_primes() == 78_674_626_319_836_206_717_730_817);
            let cur: u128 = coefficient + carry as u128;
            let (q, low) = divmod_1e9(cur);
            mag[i] = low;
            carry = q;
            i = i + 1;
            proof {
                let j = i - 1;
                lemma_carry_step(before, mag@, j, low, carry as int, cur as int);
                assert(c.take(i as int) =~= c.take(j).push(c[j]));
                poly::lemma_eval_push(c.take(j), c[j], z);
                let w = limbs::base_pow(j as nat);
                assert(cur * w == c[j] * w + carry0 * w) by (nonlinear_arith)
                    requires
                        cur == c[j] + carry0,
                ;
            }
        }
        let mut ci: usize = n;
        assert(c.take(n as int) =~= c);
        while carry > 0
            invariant
                n <= ci <= n + 2,
                n + 4 <= usize::MAX,
                mag@.len() == n + 4,
                ci == n ==> carry <= 154_742_504_910_672_534,
                ci == n + 1 ==> carry <= 154_742_504,
                ci == n + 2 ==> carry == 0,
                limbs::digits(mag@),
                forall|k: int| ci <= k < n + 4 ==> #[trigger] mag@[k] == 0,
                limbs::value(mag@.take(ci as int)) + carry * limbs::base_pow(ci as nat)
                    == poly::poly_eval(c, z),
            decreases carry,
        {
            let ghost before = mag@;
            let ghost carry0 = carry as int;
            let (q, low) = divmod_1e9(carry as u128);
            mag[ci] = low;
            carry = q;
            ci = ci + 1;
            proof {
                lemma_carry_step(before, mag@, ci - 1, low, carry as int, carry0);
            }
        }
        let mut out = BigInt { mag, len: ci };
        proof {
            lemma_mul_basics(limbs::base_pow(ci as nat));
            out.lemma_prefix(ci as int);
        }
        out.trim();
        out
    }
}

/// Writing one limb and carrying the quotient keeps the value.
proof fn lemma_carry_step(
    before: Seq<u32>,
    after: Seq<u32>,
    j: int,
    low: u32,
    carry: int,
    cur: int,
)
    requires
        0 <= j < before.len(),
        limbs::digits(before),
        after == before.update(j, low),
        low == cur % 1_000_000_000,
        carry == cur / 1_000_000_000,
    ensures
        limbs::digits(after),
        limbs::value(after.take(j + 1)) + carry * limbs::base_pow((j + 1) as nat) == limbs::value(
            before.take(j),
        ) + cur * limbs::base_pow(j as nat),
{
    let q = limbs::base_pow(j as nat);
    assert(after.take(j + 1) =~= before.take(j).push(low));
    limbs::lemma_value_push(before.take(j), low);
    limbs::lemma_base_pow_step(j as nat);
    let l1 = low as int;
    assert(l1 * q + carry * (1_000_000_000 * q) == cur * q) by (nonlinear_arith)
        requires
            l1 + 1_000_000_000 * carry == cur,
    ;
    assert forall|k: int| 0 <= k < after.len() implies #[trigger] after[k] < LIMB_BASE by {
        if k != j {
            assert(after[k] == before[k]);
        }
    }
}

impl Clone for BigInt {
    fn clone(&self) -> (r: Self)
        ensures
            self.wf() ==> r.wf(),
            r@ == self@,
            r.limb_seq() == self.limb_seq(),
            r.capacity() == self.capacity(),
    {
        let mag = self.mag.clone();
        assert(mag@ =~= self.mag@);
        BigInt { mag, len: self.len }
    }
}

} // verus!
