use vstd::prelude::*;
use crate::rng::{rng_below, rng_from_seed};
use crate::{
    has_backend, hash_of, hashes_consistent, sorted_by_id, up_with_id, Backend, BackendId, Health,
    Picker, TenantId, PRNG_SEED,
};
use rand::rngs::SmallRng;

verus! {

/// Deterministic partition of the fleet into `shard_size` contiguous blocks
/// of `n / shard_size` backends each, over the fleet sorted by id. A tenant
/// reaches one slot per block, chosen by a PRNG seeded from the tenant id and
/// the block index. Trailing backends (when `n` is not a multiple of the
/// shard size) are unreachable; this is a known limitation, preserved as-is.
pub struct BlockPicker {
    backends: Vec<Backend>,
    shard_size: usize,
    prng: SmallRng,
}

impl BlockPicker {
    /// The current fleet, sorted by backend id.
    pub closed spec fn fleet(&self) -> Seq<Backend> {
        self.backends@
    }

    /// The configured shard size (the number of blocks).
    pub closed spec fn shard(&self) -> usize {
        self.shard_size
    }
}

impl Picker for BlockPicker {
    closed spec fn inv(&self) -> bool {
        &&& sorted_by_id(self.backends@)
        &&& hashes_consistent(self.backends@)
        &&& self.shard_size >= 1
    }

    open spec fn pick_ready(&self) -> bool {
        true
    }

    open spec fn is_member(&self, id: BackendId) -> bool {
        has_backend(self.fleet(), id)
    }

    open spec fn member_count(&self) -> nat {
        self.fleet().len()
    }

    open spec fn is_up_member(&self, id: BackendId) -> bool {
        up_with_id(self.fleet(), id)
    }

    open spec fn stores_health(&self) -> bool {
        true
    }

    open spec fn pick_guaranteed(&self) -> bool {
        self.fleet().len() >= self.shard() && forall|i: int|
            0 <= i < self.fleet().len() ==> #[trigger] self.fleet()[i].health == Health::Up
    }

    fn new(shard_size: usize) -> (r: Self)
        ensures
            r.fleet() == Seq::<Backend>::empty(),
            r.shard() == shard_size,
    {
        BlockPicker { backends: Vec::new(), shard_size, prng: rng_from_seed(PRNG_SEED) }
    }

    fn register(&mut self, id: BackendId, health: Health)
        ensures
            final(self).shard() == old(self).shard(),
            sorted_by_id(final(self).fleet()),
            has_backend(old(self).fleet(), id) ==> exists|i: int|
                0 <= i < old(self).fleet().len() && #[trigger] old(self).fleet()[i].id == id
                    && final(self).fleet() == old(self).fleet().update(
                    i,
                    (Backend { id, health, hash: old(self).fleet()[i].hash }),
                ),
            !has_backend(old(self).fleet(), id) ==> exists|p: int|
                0 <= p <= old(self).fleet().len() && final(self).fleet() == old(
                    self,
                ).fleet().insert(p, (Backend { id, health, hash: hash_of(id.0) })),
            forall|x: BackendId|
                has_backend(final(self).fleet(), x) <==> (has_backend(old(self).fleet(), x) || x
                    == id),
    {
        crate::fleet::upsert_sorted(&mut self.backends, id, health);
        proof {
            let s0 = old(self).fleet();
            let s1 = self.fleet();
            crate::lemma_upsert_sorted_ids(s0, s1, id, health);
            crate::lemma_sorted_ids_unique(s0);
            if has_backend(s0, id) {
                let i = choose|i: int|
                    0 <= i < s0.len() && #[trigger] s0[i].id == id && s1 == s0.update(
                        i,
                        (Backend { id, health, hash: s0[i].hash }),
                    );
                crate::lemma_update_up_ids(s0, s1, i, Backend { id, health, hash: s0[i].hash });
            } else {
                let p = choose|p: int|
                    0 <= p <= s0.len() && s1 == s0.insert(
                        p,
                        (Backend { id, health, hash: hash_of(id.0) }),
                    );
                crate::lemma_insert_up_ids(s0, s1, p, Backend { id, health, hash: hash_of(id.0) });
            }
        }
    }

    fn unregister(&mut self, id: BackendId)
        ensures
            final(self).shard() == old(self).shard(),
            !has_backend(final(self).fleet(), id),
            !has_backend(old(self).fleet(), id) ==> final(self).fleet() == old(self).fleet(),
            has_backend(old(self).fleet(), id) ==> exists|i: int|
                0 <= i < old(self).fleet().len() && #[trigger] old(self).fleet()[i].id == id
                    && final(self).fleet() == old(self).fleet().remove(i),
            forall|x: BackendId|
                has_backend(final(self).fleet(), x) <==> (has_backend(old(self).fleet(), x) && x
                    != id),
    {
        crate::fleet::remove_by_id(&mut self.backends, id);
        proof {
            let s0 = old(self).fleet();
            let s1 = self.fleet();
            crate::lemma_sorted_ids_unique(s0);
            crate::lemma_remove_ids(s0, s1, id);
            if has_backend(s0, id) {
                let i = choose|i: int|
                    0 <= i < s0.len() && #[trigger] s0[i].id == id && s1 == s0.remove(i);
                crate::lemma_remove_up_ids(s0, s1, i);
                if up_with_id(s0, id) {
                    let j = choose|j: int|
                        0 <= j < s0.len() && #[trigger] s0[j].id == id && s0[j].health
                            == Health::Up;
                    assert(j == i);
                }
            }
        }
    }

    /// Walk the blocks starting from a random one; in each block inspect the
    /// single slot that the tenant hashes to, and return it if `Up`. `None`
    /// when the fleet is smaller than one backend per block, or when every
    /// inspected slot is unhealthy. Only the first `shard * (n / shard)`
    /// backends are reachable.
    fn pick(&mut self, id: TenantId) -> (r: Option<BackendId>)
        ensures
            final(self).fleet() == old(self).fleet(),
            final(self).shard() == old(self).shard(),
            r is Some ==> up_with_id(final(self).fleet(), r->0),
            r is Some ==> exists|i: int|
                0 <= i < final(self).fleet().len() as int - (final(self).fleet().len() as int % (
                old(self).shard() as int)) && #[trigger] final(self).fleet()[i].id == r->0
                    && final(self).fleet()[i].health == Health::Up,
            old(self).fleet().len() < old(self).shard() ==> r is None,
            (old(self).fleet().len() >= old(self).shard() && forall|i: int|
                0 <= i < old(self).fleet().len() ==> old(self).fleet()[i].health == Health::Up)
                ==> r is Some,
    {
        let n = self.backends.len();
        let k = self.shard_size;
        let bucket_size = n / k;
        proof {
            vstd::arithmetic::div_mod::lemma_fundamental_div_mod(n as int, k as int);
            vstd::arithmetic::div_mod::lemma_mod_bound(n as int, k as int);
        }
        if bucket_size == 0 {
            proof {
                assert(n as int == k as int * 0 + (n as int % k as int));
                assert(n < k);
            }
            return None;
        }
        let b0 = rng_below(&mut self.prng, k);
        proof {
            vstd::arithmetic::div_mod::lemma_small_mod(b0 as nat, k as nat);
        }
        let mut bucket = b0;
        let mut step: usize = 0;
        while step < k
            invariant
                old(self).inv(),
                self.backends@ == old(self).backends@,
                self.shard_size == old(self).shard_size,
                n == self.backends@.len(),
                k == self.shard_size,
                k >= 1,
                bucket_size == n as int / k as int,
                bucket_size >= 1,
                n as int == k as int * bucket_size + (n as int % k as int),
                0 <= n as int % k as int,
                b0 < k,
                step <= k,
                0 <= bucket < k,
                bucket == (b0 + step) % (k as int),
                step > 0 ==> exists|p: int|
                    0 <= p < n && #[trigger] self.backends@[p].health != Health::Up,
            decreases k - step,
        {
            proof {
                vstd::arithmetic::div_mod::lemma_mod_bound(b0 + step, k as int);
                vstd::arithmetic::div_mod::lemma_fundamental_div_mod(b0 + step, k as int);
                vstd::arithmetic::div_mod::lemma_mod_multiples_vanish(
                    (b0 + step) / (k as int),
                    (b0 + step) % (k as int) + 1,
                    k as int,
                );
                assert((k as int) * ((b0 + step) / (k as int)) + ((b0 + step) % (k as int) + 1)
                    == b0 + step + 1) by (nonlinear_arith)
                    requires
                        b0 + step == (k as int) * ((b0 + step) / (k as int)) + (b0 + step) % (
                        k as int),
                ;
            }
            let mut trng = rng_from_seed(id.0 ^ (bucket as u64));
            let slot = rng_below(&mut trng, bucket_size);
            proof {
                assert(bucket * bucket_size + slot < k as int * bucket_size) by (nonlinear_arith)
                    requires
                        0 <= bucket < k,
                        0 <= slot < bucket_size,
                ;
            }
            let idx = bucket * bucket_size + slot;
            let b = self.backends[idx];
            if b.health == Health::Up {
                proof {
                    let gi = idx as int;
                    assert(k as int * bucket_size == n as int - (n as int % k as int));
                    assert(k as int * bucket_size >= k as int) by (nonlinear_arith)
                        requires
                            bucket_size >= 1,
                            k >= 1,
                    ;
                    assert(n >= k);
                    assert(0 <= gi < n as int - (n as int % k as int));
                    assert(self.fleet()[gi].id == b.id);
                    assert(self.fleet()[gi].health == Health::Up);
                }
                return Some(b.id);
            }
            bucket = (bucket + 1) % k;
            step += 1;
        }
        None
    }
}

} // verus!
