use vstd::prelude::*;
use crate::{
    has_backend, has_up, hash_of, hashes_consistent, ids_unique, up_with_id, Backend, BackendId,
    Health, Picker, TenantId,
};

verus! {

/// The digest that `hash_pair` computes for a tenant id followed by a backend
/// id. It depends on the two values alone.
pub uninterp spec fn hash_pair_of(a: u64, b: u64) -> u64;

/// Stable 64-bit hash of a tenant id followed by a backend id.
///
/// Relies on `std::collections::hash_map::DefaultHasher` (SipHash 1-3): every
/// hasher made by `DefaultHasher::new` starts from the same fixed keys, so the
/// digest of the two written `u64`s is a function of those values alone.
#[verifier::external_body]
fn hash_pair(a: u64, b: u64) -> (r: u64)
    ensures
        r == hash_pair_of(a, b),
{
    let mut h = std::collections::hash_map::DefaultHasher::new();
    std::hash::Hasher::write_u64(&mut h, a);
    std::hash::Hasher::write_u64(&mut h, b);
    std::hash::Hasher::finish(&h)
}

/// The rendezvous (highest-random-weight) score of a backend for a tenant.
pub open spec fn rdv_score(t: TenantId, b: Backend) -> u64 {
    hash_pair_of(t.0, b.id.0)
}

/// `b` comes no later than `c` in the rendezvous order for tenant `t`:
/// compare scores, break ties by backend id.
pub open spec fn rdv_le(t: TenantId, b: Backend, c: Backend) -> bool {
    ||| rdv_score(t, b) < rdv_score(t, c)
    ||| (rdv_score(t, b) == rdv_score(t, c) && b.id.0 <= c.id.0)
}

/// Classical rendezvous hashing: every tenant is served by the single `Up`
/// backend maximising its score. The shard size is ignored (it is one).
pub struct Rendevouz {
    backends: Vec<Backend>,
}

impl Rendevouz {
    /// The current fleet, in registration order.
    pub closed spec fn fleet(&self) -> Seq<Backend> {
        self.backends@
    }
}

impl Picker for Rendevouz {
    closed spec fn inv(&self) -> bool {
        &&& ids_unique(self.backends@)
        &&& hashes_consistent(self.backends@)
    }

    open spec fn pick_ready(&self) -> bool {
        true
    }

    open spec fn is_member(&self, id: BackendId) -> bool {
        has_backend(self.fleet(), id)
    }

    open spec fn member_count(&self) -> nat {
        self.fleet().len()
    }

    open spec fn is_up_member(&self, id: BackendId) -> bool {
        up_with_id(self.fleet(), id)
    }

    open spec fn stores_health(&self) -> bool {
        true
    }

    open spec fn pick_guaranteed(&self) -> bool {
        has_up(self.fleet())
    }

    fn new(_shard_size: usize) -> (r: Self)
        ensures
            r.fleet() == Seq::<Backend>::empty(),
    {
        Rendevouz { backends: Vec::new() }
    }

    fn register(&mut self, id: BackendId, health: Health)
        ensures
            has_backend(old(self).fleet(), id) ==> exists|i: int|
                0 <= i < old(self).fleet().len() && #[trigger] old(self).fleet()[i].id == id
                    && final(self).fleet() == old(self).fleet().update(
                    i,
                    (Backend { id, health, hash: old(self).fleet()[i].hash }),
                ),
            !has_backend(old(self).fleet(), id) ==> final(self).fleet() == old(
                self,
            ).fleet().push((Backend { id, health, hash: hash_of(id.0) })),
            forall|x: BackendId|
                has_backend(final(self).fleet(), x) <==> (has_backend(old(self).fleet(), x) || x
                    == id),
    {
        crate::fleet::upsert(&mut self.backends, id, health);
        proof {
            let s0 = old(self).fleet();
            let s1 = self.fleet();
            crate::lemma_upsert_ids(s0, s1, id, health);
            if has_backend(s0, id) {
                let i = choose|i: int|
                    0 <= i < s0.len() && #[trigger] s0[i].id == id && s1 == s0.update(
                        i,
                        (Backend { id, health, hash: s0[i].hash }),
                    );
                crate::lemma_update_up_ids(s0, s1, i, Backend { id, health, hash: s0[i].hash });
            } else {
                assert(s1 =~= s0.insert(
                    s0.len() as int,
                    (Backend { id, health, hash: hash_of(id.0) }),
                ));
                crate::lemma_insert_up_ids(
                    s0,
                    s1,
                    s0.len() as int,
                    Backend { id, health, hash: hash_of(id.0) },
                );
            }
        }
    }

    fn unregister(&mut self, id: BackendId)
        ensures
            !has_backend(old(self).fleet(), id) ==> final(self).fleet() == old(self).fleet(),
            has_backend(old(self).fleet(), id) ==> exists|i: int|
                0 <= i < old(self).fleet().len() && #[trigger] old(self).fleet()[i].id == id
                    && final(self).fleet() == old(self).fleet().remove(i),
            forall|x: BackendId|
                has_backend(final(self).fleet(), x) <==> (has_backend(old(self).fleet(), x) && x
                    != id),
    {
        crate::fleet::remove_by_id(&mut self.backends, id);
        proof {
            let s0 = old(self).fleet();
            let s1 = self.fleet();
            crate::lemma_remove_ids(s0, s1, id);
            if has_backend(s0, id) {
                let i = choose|i: int|
                    0 <= i < s0.len() && #[trigger] s0[i].id == id && s1 == s0.remove(i);
                crate::lemma_remove_up_ids(s0, s1, i);
                if up_with_id(s0, id) {
                    let j = choose|j: int|
                        0 <= j < s0.len() && #[trigger] s0[j].id == id && s0[j].health
                            == Health::Up;
                    assert(j == i);
                }
            }
        }
    }

    /// Return the `Up` backend with the greatest rendezvous score for the
    /// tenant (ties broken towards the greater backend id), or `None` when no
    /// backend is `Up`.
    fn pick(&mut self, id: TenantId) -> (r: Option<BackendId>)
        ensures
            final(self).fleet() == old(self).fleet(),
            r is Some <==> has_up(final(self).fleet()),
            r is Some ==> exists|i: int|
                0 <= i < final(self).fleet().len() && #[trigger] final(self).fleet()[i].id == r->0
                    && final(self).fleet()[i].health == Health::Up && forall|j: int|
                    0 <= j < final(self).fleet().len() && final(self).fleet()[j].health
                        == Health::Up ==> rdv_le(id, final(self).fleet()[j], final(self).fleet()[i]),
    {
        let n = self.backends.len();
        let mut found = false;
        let mut best_i: usize = 0;
        let mut best_score: u64 = 0;
        let mut j: usize = 0;
        while j < n
            invariant
                old(self).inv(),
                *self == *old(self),
                n == self.backends@.len(),
                j <= n,
                !found ==> forall|p: int| 0 <= p < j ==> self.backends@[p].health != Health::Up,
                found ==> best_i < j && self.backends@[best_i as int].health == Health::Up
                    && best_score == rdv_score(id, self.backends@[best_i as int]),
                found ==> forall|p: int|
                    0 <= p < j && self.backends@[p].health == Health::Up ==> rdv_le(
                        id,
                        self.backends@[p],
                        self.backends@[best_i as int],
                    ),
            decreases n - j,
        {
            let b = self.backends[j];
            if b.health == Health::Up {
                let sc = hash_pair(id.0, b.id.0);
                if !found || sc > best_score || (sc == best_score
                    && b.id.0 > self.backends[best_i].id.0) {
                    found = true;
                    best_i = j;
                    best_score = sc;
                }
            }
            j += 1;
        }
        if found {
            let b = self.backends[best_i];
            proof {
                assert(self.backends@[best_i as int].id == b.id);
            }
            Some(b.id)
        } else {
            None
        }
    }
}

} // verus!
