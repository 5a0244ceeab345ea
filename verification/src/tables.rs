//! Root tables that are built once and then shared.
use crate::field;
use crate::ntt;
use std::collections::HashMap;
use std::sync::Arc;
use vstd::prelude::*;

verus! {

broadcast use vstd::std_specs::hash::group_hash_axioms;

/// One number per transform size and prime.
pub open spec fn key(l: nat, pi: int) -> int {
    3 * l + pi
}

/// Cache key of transform size `2^log_n` and prime `pi`.
fn cache_key(log_n: u32, pi: usize) -> (k: u32)
    requires
        log_n < usize::BITS,
        pi < 3,
    ensures
        k == key(log_n as nat, pi as int),
{
    log_n * 3 + pi as u32
}

/// Everything that transforms of one size need modulo one prime.
pub struct TransformTables {
    pub fwd: Arc<Vec<u32>>,
    pub inv: Arc<Vec<u32>>,
    pub n_inv: u64,
}

impl TransformTables {
    /// The tables serve transforms of size `2^l` modulo prime `pi`.
    pub open spec fn serve(self, l: nat, pi: int) -> bool {
        &&& ntt::is_root_table(self.fwd@, l, ntt::G as int, field::prime(pi))
        &&& ntt::is_root_table(self.inv@, l, ntt::inverse_generator(pi), field::prime(pi))
        &&& self.n_inv == ntt::inverse_size(l, pi)
    }
}

/// The tables built so far.
pub struct RootCache {
    fwd: HashMap<u32, Arc<Vec<u32>>>,
    inv: HashMap<u32, Arc<Vec<u32>>>,
    ninv: HashMap<u32, u64>,
}

impl RootCache {
    /// Every entry is what it would be if it were computed afresh.
    pub closed spec fn wf(self) -> bool {
        &&& forall|l: nat, pi: int, k: u32|
            #![trigger self.fwd@.contains_key(k), key(l, pi)]
            0 <= pi < 3 && k == key(l, pi) && self.fwd@.contains_key(k) ==> ntt::is_root_table(
                self.fwd@[k]@,
                l,
                ntt::G as int,
                field::prime(pi),
            )
        &&& forall|l: nat, pi: int, k: u32|
            #![trigger self.inv@.contains_key(k), key(l, pi)]
            0 <= pi < 3 && k == key(l, pi) && self.inv@.contains_key(k) ==> ntt::is_root_table(
                self.inv@[k]@,
                l,
                ntt::inverse_generator(pi),
                field::prime(pi),
            )
        &&& forall|l: nat, pi: int, k: u32|
            #![trigger self.ninv@.contains_key(k), key(l, pi)]
            0 <= pi < 3 && k == key(l, pi) && self.ninv@.contains_key(k) ==> self.ninv@[k]
                == ntt::inverse_size(l, pi)
    }

    /// The forward table for size `2^l` and prime `pi` is present.
    pub closed spec fn has_fwd(self, l: nat, pi: int) -> bool {
        self.fwd@.contains_key(key(l, pi) as u32)
    }

    /// The inverse table for size `2^l` and prime `pi` is present.
    pub closed spec fn has_inv(self, l: nat, pi: int) -> bool {
        self.inv@.contains_key(key(l, pi) as u32)
    }

    /// The scaling factor for size `2^l` and prime `pi` is present.
    pub closed spec fn has_n_inv(self, l: nat, pi: int) -> bool {
        self.ninv@.contains_key(key(l, pi) as u32)
    }

    /// The forward table, the inverse table and the scaling factor for size
    /// `2^l` and prime `pi` are all present.
    pub open spec fn holds(self, l: nat, pi: int) -> bool {
        &&& self.has_fwd(l, pi)
        &&& self.has_inv(l, pi)
        &&& self.has_n_inv(l, pi)
    }

    /// Nothing that `earlier` held has been dropped.
    pub closed spec fn extends(self, earlier: Self) -> bool {
        &&& earlier.fwd@.dom().subset_of(self.fwd@.dom())
        &&& earlier.inv@.dom().subset_of(self.inv@.dom())
        &&& earlier.ninv@.dom().subset_of(self.ninv@.dom())
    }

    /// A cache keeps holding what an earlier state of it held.
    pub proof fn lemma_extends(self, earlier: Self, l: nat, pi: int)
        requires
            self.extends(earlier),
        ensures
            earlier.has_fwd(l, pi) ==> self.has_fwd(l, pi),
            earlier.has_inv(l, pi) ==> self.has_inv(l, pi),
            earlier.has_n_inv(l, pi) ==> self.has_n_inv(l, pi),
            earlier.holds(l, pi) ==> self.holds(l, pi),
    {
    }

    /// A cache holds what it holds.
    pub proof fn lemma_extends_reflexive(self)
        ensures
            self.extends(self),
    {
    }

    /// Growing twice is growing.
    pub proof fn lemma_extends_transitive(self, middle: Self, earlier: Self)
        requires
            self.extends(middle),
            middle.extends(earlier),
        ensures
            self.extends(earlier),
    {
    }

    /// No tables yet.
    pub fn new() -> (c: Self)
        ensures
            c.wf(),
            forall|l: nat, pi: int| !(#[trigger] c.has_fwd(l, pi)),
            forall|l: nat, pi: int| !(#[trigger] c.has_inv(l, pi)),
            forall|l: nat, pi: int| !(#[trigger] c.has_n_inv(l, pi)),
    {
        RootCache { fwd: HashMap::new(), inv: HashMap::new(), ninv: HashMap::new() }
    }

    /// Forward root table for size `2^log_n`, prime `pi`.
    pub fn fwd_roots(&mut self, log_n: u32, pi: usize) -> (rt: Arc<Vec<u32>>)
        requires
            old(self).wf(),
            log_n < usize::BITS,
            pi < 3,
        ensures
            final(self).wf(),
            final(self).extends(*old(self)),
            ntt::is_root_table(rt@, log_n as nat, ntt::G as int, field::prime(pi as int)),
            final(self).has_fwd(log_n as nat, pi as int),
    {
        let k: u32 = cache_key(log_n, pi);
        if let Some(hit) = self.fwd.get(&k) {
            assert(k == key(log_n as nat, pi as int) && self.fwd@.contains_key(k));
            return Arc::clone(hit);
        }
        let rt: Arc<Vec<u32>> = ntt::fwd_roots(log_n, pi);
        let kept: Arc<Vec<u32>> = Arc::clone(&rt);
        self.fwd.insert(k, kept);
        rt
    }

    /// Inverse root table for size `2^log_n`, prime `pi`.
    pub fn inv_roots(&mut self, log_n: u32, pi: usize) -> (rt: Arc<Vec<u32>>)
        requires
            old(self).wf(),
            log_n < usize::BITS,
            pi < 3,
        ensures
            final(self).wf(),
            final(self).extends(*old(self)),
            ntt::is_root_table(
                rt@,
                log_n as nat,
                ntt::inverse_generator(pi as int),
                field::prime(pi as int),
            ),
            final(self).has_inv(log_n as nat, pi as int),
    {
        let k: u32 = cache_key(log_n, pi);
        if let Some(hit) = self.inv.get(&k) {
            assert(k == key(log_n as nat, pi as int) && self.inv@.contains_key(k));
            return Arc::clone(hit);
        }
        let rt: Arc<Vec<u32>> = ntt::inv_roots(log_n, pi);
        let kept: Arc<Vec<u32>> = Arc::clone(&rt);
        self.inv.insert(k, kept);
        rt
    }

    /// `n^-1 mod p` for `n = 2^log_n`.
    pub fn n_inv(&mut self, log_n: u32, pi: usize) -> (r: u64)
        requires
            old(self).wf(),
            log_n < usize::BITS,
            pi < 3,
        ensures
            final(self).wf(),
            final(self).extends(*old(self)),
            r == ntt::inverse_size(log_n as nat, pi as int),
            final(self).has_n_inv(log_n as nat, pi as int),
    {
        let k: u32 = cache_key(log_n, pi);
        if let Some(hit) = self.ninv.get(&k) {
            assert(k == key(log_n as nat, pi as int) && self.ninv@.contains_key(k));
            return *hit;
        }
        let r: u64 = ntt::n_inv(log_n, pi);
        self.ninv.insert(k, r);
        r
    }

    /// All that transforms of size `2^log_n` need modulo prime `pi`, built on
    /// first use.
    pub fn tables(&mut self, log_n: u32, pi: usize) -> (t: TransformTables)
        requires
            old(self).wf(),
            log_n < usize::BITS,
            pi < 3,
        ensures
            final(self).wf(),
            final(self).extends(*old(self)),
            final(self).holds(log_n as nat, pi as int),
            t.serve(log_n as nat, pi as int),
    {
        let fwd = self.fwd_roots(log_n, pi);
        let inv = self.inv_roots(log_n, pi);
        let n_inv: u64 = self.n_inv(log_n, pi);
        TransformTables { fwd, inv, n_inv }
    }
}

/// Tables for the common sizes, so that later runs skip their construction.
pub fn prewarm() -> (c: RootCache)
    ensures
        c.wf(),
        forall|l: nat, pi: int| 1 <= l <= 20 && 0 <= pi < 3 ==> #[trigger] c.holds(l, pi),
{
    let mut c = RootCache::new();
    let mut log_n: u32 = 1;
    while log_n <= 20
        invariant
            1 <= log_n <= 21,
            c.wf(),
            forall|l: nat, pi: int| 1 <= l < log_n && 0 <= pi < 3 ==> #[trigger] c.holds(l, pi),
        decreases 21 - log_n,
    {
        let mut pi: usize = 0;
        while pi < 3
            invariant
                1 <= log_n <= 20,
                pi <= 3,
                c.wf(),
                forall|l: nat, q: int|
                    1 <= l < log_n && 0 <= q < 3 ==> #[trigger] c.holds(l, q),
                forall|q: int| 0 <= q < pi ==> #[trigger] c.holds(log_n as nat, q),
            decreases 3 - pi,
        {
            let ghost earlier = c;
            let _ = c.tables(log_n, pi);
            proof {
                assert forall|l: nat, q: int| earlier.holds(l, q) implies #[trigger] c.holds(
                    l,
                    q,
                ) by {
                    c.lemma_extends(earlier, l, q);
                }
            }
            pi = pi + 1;
        }
        log_n = log_n + 1;
    }
    c
}

} // verus!
