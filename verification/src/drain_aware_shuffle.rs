use vstd::prelude::*;
use crate::rng::{partial_shuffle, rng_below, rng_from_seed};
use crate::{
    has_backend, has_up, hash_of, hashes_consistent, lemma_mod_cycle_covers, sorted_by_id,
    up_with_id, Backend, BackendId, Health, Picker, TenantId, PRNG_SEED,
};
use rand::rngs::SmallRng;

verus! {

/// The fleet with its draining members left out: the candidate sequence that
/// a tenant's shard is shuffled from.
pub open spec fn non_draining(s: Seq<Backend>) -> Seq<Backend> {
    s.filter(|b: Backend| b.health != Health::Draining)
}

/// Every member of the non-draining candidate sequence is a member of the
/// fleet, and every `Up` member of the fleet is a candidate.
pub proof fn lemma_non_draining_members(s: Seq<Backend>)
    ensures
        forall|x: Backend| #[trigger] non_draining(s).contains(x) ==> s.contains(x),
        forall|i: int|
            0 <= i < s.len() && s[i].health == Health::Up ==> non_draining(s).contains(
                #[trigger] s[i],
            ),
{
    broadcast use vstd::seq_lib::group_filter_ensures;
    broadcast use Seq::lemma_filter_contains_rev;

}

/// Like `NaiveShuffle`, but the candidate sequence excludes draining backends
/// before the tenant-seeded partial shuffle, and the draw inside the shard
/// additionally skips anything that is not `Up`, walking the shard from a
/// random offset. This survives rolling restarts at the cost of reshuffling
/// a tenant's shard on every drain.
pub struct DrainAwareShuffle {
    backends: Vec<Backend>,
    shard_size: usize,
    prng: SmallRng,
}

impl DrainAwareShuffle {
    /// The current fleet, sorted by backend id.
    pub closed spec fn fleet(&self) -> Seq<Backend> {
        self.backends@
    }

    /// The configured shard size.
    pub closed spec fn shard(&self) -> usize {
        self.shard_size
    }
}

impl Picker for DrainAwareShuffle {
    closed spec fn inv(&self) -> bool {
        &&& sorted_by_id(self.backends@)
        &&& hashes_consistent(self.backends@)
        &&& self.shard_size >= 1
    }

    open spec fn pick_ready(&self) -> bool {
        true
    }

    open spec fn is_member(&self, id: BackendId) -> bool {
        has_backend(self.fleet(), id)
    }

    open spec fn member_count(&self) -> nat {
        self.fleet().len()
    }

    open spec fn is_up_member(&self, id: BackendId) -> bool {
        up_with_id(self.fleet(), id)
    }

    open spec fn stores_health(&self) -> bool {
        true
    }

    open spec fn pick_guaranteed(&self) -> bool {
        non_draining(self.fleet()).len() > 0 && forall|i: int|
            0 <= i < self.fleet().len() && #[trigger] self.fleet()[i].health != Health::Draining
                ==> self.fleet()[i].health == Health::Up
    }

    fn new(shard_size: usize) -> (r: Self)
        ensures
            r.fleet() == Seq::<Backend>::empty(),
            r.shard() == shard_size,
    {
        DrainAwareShuffle {
            backends: Vec::new(),
            shard_size,
            prng: rng_from_seed(PRNG_SEED),
        }
    }

    fn register(&mut self, id: BackendId, health: Health)
        ensures
            final(self).shard() == old(self).shard(),
            sorted_by_id(final(self).fleet()),
            has_backend(old(self).fleet(), id) ==> exists|i: int|
                0 <= i < old(self).fleet().len() && #[trigger] old(self).fleet()[i].id == id
                    && final(self).fleet() == old(self).fleet().update(
                    i,
                    (Backend { id, health, hash: old(self).fleet()[i].hash }),
                ),
            !has_backend(old(self).fleet(), id) ==> exists|p: int|
                0 <= p <= old(self).fleet().len() && final(self).fleet() == old(
                    self,
                ).fleet().insert(p, (Backend { id, health, hash: hash_of(id.0) })),
            forall|x: BackendId|
                has_backend(final(self).fleet(), x) <==> (has_backend(old(self).fleet(), x) || x
                    == id),
    {
        crate::fleet::upsert_sorted(&mut self.backends, id, health);
        proof {
            let s0 = old(self).fleet();
            let s1 = self.fleet();
            crate::lemma_upsert_sorted_ids(s0, s1, id, health);
            crate::lemma_sorted_ids_unique(s0);
            if has_backend(s0, id) {
                let i = choose|i: int|
                    0 <= i < s0.len() && #[trigger] s0[i].id == id && s1 == s0.update(
                        i,
                        (Backend { id, health, hash: s0[i].hash }),
                    );
                crate::lemma_update_up_ids(s0, s1, i, Backend { id, health, hash: s0[i].hash });
            } else {
                let p = choose|p: int|
                    0 <= p <= s0.len() && s1 == s0.insert(
                        p,
                        (Backend { id, health, hash: hash_of(id.0) }),
                    );
                crate::lemma_insert_up_ids(s0, s1, p, Backend { id, health, hash: hash_of(id.0) });
            }
        }
    }

    fn unregister(&mut self, id: BackendId)
        ensures
            final(self).shard() == old(self).shard(),
            !has_backend(final(self).fleet(), id),
            !has_backend(old(self).fleet(), id) ==> final(self).fleet() == old(self).fleet(),
            has_backend(old(self).fleet(), id) ==> exists|i: int|
                0 <= i < old(self).fleet().len() && #[trigger] old(self).fleet()[i].id == id
                    && final(self).fleet() == old(self).fleet().remove(i),
            forall|x: BackendId|
                has_backend(final(self).fleet(), x) <==> (has_backend(old(self).fleet(), x) && x
                    != id),
    {
        crate::fleet::remove_by_id(&mut self.backends, id);
        proof {
            let s0 = old(self).fleet();
            let s1 = self.fleet();
            crate::lemma_sorted_ids_unique(s0);
            crate::lemma_remove_ids(s0, s1, id);
            if has_backend(s0, id) {
                let i = choose|i: int|
                    0 <= i < s0.len() && #[trigger] s0[i].id == id && s1 == s0.remove(i);
                crate::lemma_remove_up_ids(s0, s1, i);
                if up_with_id(s0, id) {
                    let j = choose|j: int|
                        0 <= j < s0.len() && #[trigger] s0[j].id == id && s0[j].health
                            == Health::Up;
                    assert(j == i);
                }
            }
        }
    }

    /// Collect the non-draining candidates, shuffle a tenant-seeded shard out
    /// of them, and return the first `Up` member found while walking the
    /// shard from a random offset. `None` when the walk finds nothing `Up`;
    /// if at most a shard's worth of candidates exists, the walk covers all
    /// of them, so `None` then means no backend at all is `Up`.
    fn pick(&mut self, id: TenantId) -> (r: Option<BackendId>)
        ensures
            final(self).fleet() == old(self).fleet(),
            final(self).shard() == old(self).shard(),
            r is Some ==> up_with_id(final(self).fleet(), r->0),
            !has_up(final(self).fleet()) ==> r is None,
            r is None && non_draining(old(self).fleet()).len() <= old(self).shard() ==> !has_up(
                final(self).fleet(),
            ),
    {
        if self.backends.is_empty() {
            proof {
                broadcast use vstd::seq_lib::group_filter_ensures;

                lemma_non_draining_members(self.backends@);
                assert(non_draining(self.backends@).len() <= self.backends@.len());
            }
            return None;
        }
        let n = self.backends.len();
        let mut cand: Vec<Backend> = Vec::new();
        let mut i: usize = 0;
        while i < n
            invariant
                old(self).inv(),
                n == self.backends@.len(),
                i <= n,
                *self == *old(self),
                cand@ == non_draining(self.backends@.take(i as int)),
            decreases n - i,
        {
            proof {
                reveal(Seq::filter);
                assert(self.backends@.take(i + 1).drop_last() =~= self.backends@.take(i as int));
                assert(self.backends@.take(i + 1).last() == self.backends@[i as int]);
            }
            let b = self.backends[i];
            if !matches!(b.health, Health::Draining) {
                cand.push(b);
            }
            i += 1;
        }
        proof {
            assert(self.backends@.take(n as int) =~= self.backends@);
            lemma_non_draining_members(self.backends@);
        }
        let mut trng = rng_from_seed(id.0);
        let m = partial_shuffle(&mut cand, &mut trng, self.shard_size);
        let ghost candidates = non_draining(self.backends@);
        if m == 0 {
            // No non-draining candidate at all, so in particular nothing Up.
            proof {
                broadcast use vstd::seq_lib::group_to_multiset_ensures;

                assert(cand@.len() == candidates.len());
                assert(candidates.len() == 0);
                if has_up(self.backends@) {
                    let w = choose|w: int|
                        0 <= w < self.backends@.len() && self.backends@[w].health == Health::Up;
                    assert(candidates.contains(self.backends@[w]));
                }
            }
            return None;
        }
        let start = cand.len() - m;
        let k = self.shard_size;
        let idx = rng_below(&mut self.prng, k);
        proof {
            vstd::arithmetic::div_mod::lemma_mod_bound(idx as int, m as int);
        }
        let mut cur = idx % m;
        let mut step: usize = 0;
        while step < k
            invariant
                old(self).inv(),
                self.backends@ == old(self).backends@,
                self.shard_size == old(self).shard_size,
                1 <= m <= cand@.len(),
                cand@.len() <= usize::MAX,
                m <= k,
                k == old(self).shard(),
                start == cand@.len() - m,
                cand@.to_multiset() == non_draining(self.backends@).to_multiset(),
                step <= k,
                idx < k,
                0 <= cur < m,
                cur == (idx + step) % (m as int),
                forall|j: int|
                    0 <= j < step ==> cand@[start + #[trigger] ((idx + j) % (m as int))].health
                        != Health::Up,
            decreases k - step,
        {
            proof {
                vstd::arithmetic::div_mod::lemma_mod_bound(idx + step, m as int);
                vstd::arithmetic::div_mod::lemma_fundamental_div_mod(idx + step, m as int);
                vstd::arithmetic::div_mod::lemma_mod_multiples_vanish(
                    (idx + step) / (m as int),
                    (idx + step) % (m as int) + 1,
                    m as int,
                );
                assert((m as int) * ((idx + step) / (m as int)) + ((idx + step) % (m as int) + 1)
                    == idx + step + 1) by (nonlinear_arith)
                    requires
                        idx + step == (m as int) * ((idx + step) / (m as int)) + (idx + step) % (
                        m as int),
                ;
            }
            let b = cand[start + cur];
            if matches!(b.health, Health::Up) {
                proof {
                    broadcast use vstd::seq_lib::group_to_multiset_ensures;

                    assert(cand@[start + cur as int] == b);
                    assert(cand@.contains(b));
                    assert(cand@.to_multiset().count(b) > 0);
                    assert(non_draining(self.backends@).to_multiset().count(b) > 0);
                    assert(non_draining(self.backends@).contains(b));
                    lemma_non_draining_members(self.backends@);
                    assert(self.backends@.contains(b));
                    let w = choose|w: int|
                        0 <= w < self.backends@.len() && self.backends@[w] == b;
                    assert(up_with_id(self.backends@, b.id)) by {
                        assert(self.backends@[w].id == b.id);
                    }
                }
                return Some(b.id);
            }
            proof {
                vstd::arithmetic::div_mod::lemma_mod_self_0(m as int);
                if cur + 1 < m {
                    vstd::arithmetic::div_mod::lemma_small_mod((cur + 1) as nat, m as nat);
                }
                vstd::arithmetic::div_mod::lemma_mod_bound(idx + step + 1, m as int);
            }
            cur = (cur + 1) % m;
            step += 1;
        }
        proof {
            broadcast use vstd::seq_lib::group_to_multiset_ensures;
            broadcast use vstd::seq_lib::group_filter_ensures;
            broadcast use Seq::lemma_filter_contains_rev;

            if old(self).pick_guaranteed() {
                // Every candidate is Up, yet the walk's first probe was not.
                let pos = start + (idx + 0) % (m as int);
                assert(cand@[pos].health != Health::Up);
                let b = cand@[pos];
                assert(cand@.contains(b));
                assert(cand@.to_multiset().count(b) > 0);
                assert(non_draining(self.backends@).to_multiset().count(b) > 0);
                assert(non_draining(self.backends@).contains(b));
                let fx = choose|fx: int|
                    0 <= fx < non_draining(self.backends@).len() && non_draining(
                        self.backends@,
                    )[fx] == b;
                assert(b.health != Health::Draining);
                assert(self.backends@.contains(b));
                let w = choose|w: int| 0 <= w < self.backends@.len() && self.backends@[w] == b;
                assert(self.backends@[w].health == Health::Up);
                assert(false);
            }
            if non_draining(self.backends@).len() <= k {
                // The walk covered every candidate position.
                assert(m == cand@.len());
                assert(start == 0);
                assert forall|p: int| 0 <= p < cand@.len() implies cand@[p].health != Health::Up by {
                    lemma_mod_cycle_covers(idx as int, p, m as int);
                    let j = (p - idx) % (m as int);
                    assert(cand@[start + (idx + j) % (m as int)].health != Health::Up);
                }
                if has_up(self.backends@) {
                    let w = choose|w: int|
                        0 <= w < self.backends@.len() && self.backends@[w].health == Health::Up;
                    let b = self.backends@[w];
                    lemma_non_draining_members(self.backends@);
                    assert(non_draining(self.backends@).contains(b));
                    assert(non_draining(self.backends@).to_multiset().count(b) > 0);
                    assert(cand@.to_multiset().count(b) > 0);
                    assert(cand@.contains(b));
                    let p = choose|p: int| 0 <= p < cand@.len() && cand@[p] == b;
                    assert(cand@[p].health == Health::Up);
                    assert(false);
                }
            }
        }
        None
    }
}

} // verus!
