use vstd::prelude::*;
use crate::rng::{choose_from, partial_shuffle, rng_from_seed};
use crate::{BackendId, Health, Picker, TenantId, PRNG_SEED};
use rand::rngs::SmallRng;

verus! {

/// A sequence of backend ids strictly sorted by value (hence without
/// duplicates).
pub open spec fn ids_strictly_sorted(s: Seq<BackendId>) -> bool {
    forall|i: int, j: int| 0 <= i < j < s.len() ==> s[i].0 < s[j].0
}

/// Inserting an id makes exactly the old ids plus the new one present.
proof fn lemma_id_insert(s0: Seq<BackendId>, s1: Seq<BackendId>, p: int, id: BackendId)
    requires
        0 <= p <= s0.len(),
        s1 == s0.insert(p, id),
    ensures
        forall|x: BackendId| s1.contains(x) <==> (s0.contains(x) || x == id),
{
    assert forall|x: BackendId| s1.contains(x) implies (s0.contains(x) || x == id) by {
        let j = choose|j: int| 0 <= j < s1.len() && s1[j] == x;
        if j < p {
            assert(s0[j] == x);
        } else if j > p {
            assert(s0[j - 1] == x);
        }
    }
    assert forall|x: BackendId| s0.contains(x) || x == id implies s1.contains(x) by {
        if x == id {
            assert(s1[p] == x);
        } else {
            let j = choose|j: int| 0 <= j < s0.len() && s0[j] == x;
            if j < p {
                assert(s1[j] == x);
            } else {
                assert(s1[j + 1] == x);
            }
        }
    }
}

/// Removing the only position holding an id makes exactly the old ids minus
/// that one present.
proof fn lemma_id_remove(s0: Seq<BackendId>, s1: Seq<BackendId>, i: int)
    requires
        0 <= i < s0.len(),
        ids_strictly_sorted(s0),
        s1 == s0.remove(i),
    ensures
        forall|x: BackendId| s1.contains(x) <==> (s0.contains(x) && x != s0[i]),
{
    assert forall|x: BackendId| s1.contains(x) implies (s0.contains(x) && x != s0[i]) by {
        let j = choose|j: int| 0 <= j < s1.len() && s1[j] == x;
        if j < i {
            assert(s0[j] == x);
            assert(s0[j].0 < s0[i].0);
        } else {
            assert(s0[j + 1] == x);
            assert(s0[i].0 < s0[j + 1].0);
        }
    }
    assert forall|x: BackendId| s0.contains(x) && x != s0[i] implies s1.contains(x) by {
        let j = choose|j: int| 0 <= j < s0.len() && s0[j] == x;
        if j < i {
            assert(s1[j] == x);
        } else {
            assert(j != i);
            assert(s1[j - 1] == x);
        }
    }
}

/// Per-tenant deterministic shard by random shuffle: the tenant's shard is
/// the result of a partial Fisher-Yates pass seeded from the tenant id over
/// the ordered set of member ids, and one shard member is then drawn with the
/// picker-owned generator. Health is not stored and not consulted: a pick may
/// return a backend the caller knows to be down, which keeps a poison-pill
/// tenant confined to its own shard.
pub struct NaiveShuffle {
    backends: Vec<BackendId>,
    shard_size: usize,
    prng: SmallRng,
}

impl NaiveShuffle {
    /// The member ids, in ascending order.
    pub closed spec fn members(&self) -> Seq<BackendId> {
        self.backends@
    }

    /// The configured shard size.
    pub closed spec fn shard(&self) -> usize {
        self.shard_size
    }
}

impl Picker for NaiveShuffle {
    closed spec fn inv(&self) -> bool {
        &&& ids_strictly_sorted(self.backends@)
        &&& self.shard_size >= 1
    }

    open spec fn pick_ready(&self) -> bool {
        true
    }

    open spec fn is_member(&self, id: BackendId) -> bool {
        self.members().contains(id)
    }

    open spec fn member_count(&self) -> nat {
        self.members().len()
    }

    open spec fn is_up_member(&self, id: BackendId) -> bool {
        self.members().contains(id)
    }

    open spec fn stores_health(&self) -> bool {
        false
    }

    open spec fn pick_guaranteed(&self) -> bool {
        self.members().len() > 0
    }

    fn new(shard_size: usize) -> (r: Self)
        ensures
            r.members() == Seq::<BackendId>::empty(),
            r.shard() == shard_size,
    {
        NaiveShuffle { backends: Vec::new(), shard_size, prng: rng_from_seed(PRNG_SEED) }
    }

    /// Membership is an ordered set of ids: a new id is inserted at its
    /// sorted position whatever the reported health, a known id is left
    /// untouched.
    fn register(&mut self, id: BackendId, _health: Health)
        ensures
            final(self).shard() == old(self).shard(),
            final(self).members().contains(id),
            old(self).members().contains(id) ==> final(self).members() == old(self).members(),
            !old(self).members().contains(id) ==> exists|p: int|
                0 <= p <= old(self).members().len()
                    && final(self).members() == old(self).members().insert(p, id),
            forall|x: BackendId|
                final(self).members().contains(x) <==> (old(self).members().contains(x) || x
                    == id),
    {
        let n = self.backends.len();
        let mut i: usize = 0;
        while i < n
            invariant
                old(self).inv(),
                n == self.backends@.len(),
                i <= n,
                *self == *old(self),
                forall|j: int| 0 <= j < i ==> self.backends@[j].0 < id.0,
            decreases n - i,
        {
            if self.backends[i].0 == id.0 {
                proof {
                    assert(old(self).members().contains(id)) by {
                        assert(old(self).members()[i as int] == id);
                    }
                }
                return ;
            }
            if self.backends[i].0 > id.0 {
                self.backends.insert(i, id);
                proof {
                    let s0 = old(self).members();
                    let s1 = self.backends@;
                    assert(s1 == s0.insert(i as int, id));
                    assert(forall|p: int|
                        0 <= p < s1.len() ==> s1[p] == (if p < i {
                            s0[p]
                        } else if p == i {
                            id
                        } else {
                            s0[p - 1]
                        }));
                    assert(!s0.contains(id)) by {
                        assert forall|p: int| 0 <= p < s0.len() implies s0[p] != id by {
                            if p >= i {
                                assert(s0[i as int].0 > id.0);
                            }
                        }
                    }
                    assert(s1[i as int] == id);
                    lemma_id_insert(s0, s1, i as int, id);
                }
                return ;
            }
            i += 1;
        }
        self.backends.push(id);
        proof {
            let s0 = old(self).members();
            let s1 = self.backends@;
            assert(s1 == s0.insert(n as int, id));
            assert(!s0.contains(id));
            assert(s1[n as int] == id);
            lemma_id_insert(s0, s1, n as int, id);
        }
    }

    /// Remove the id from the ordered set; a no-op on unknown ids.
    fn unregister(&mut self, id: BackendId)
        ensures
            final(self).shard() == old(self).shard(),
            !final(self).members().contains(id),
            !old(self).members().contains(id) ==> final(self).members() == old(self).members(),
            old(self).members().contains(id) ==> exists|p: int|
                0 <= p < old(self).members().len() && old(self).members()[p] == id
                    && final(self).members() == old(self).members().remove(p),
    {
        let n = self.backends.len();
        let mut i: usize = 0;
        while i < n
            invariant
                old(self).inv(),
                n == self.backends@.len(),
                i <= n,
                *self == *old(self),
                forall|j: int| 0 <= j < i ==> self.backends@[j] != id,
            decreases n - i,
        {
            if self.backends[i].0 == id.0 {
                self.backends.remove(i);
                proof {
                    let s0 = old(self).members();
                    let s1 = self.backends@;
                    assert(forall|p: int|
                        0 <= p < s1.len() ==> s1[p] == (if p < i {
                            s0[p]
                        } else {
                            s0[p + 1]
                        }));
                    assert(!s1.contains(id)) by {
                        assert forall|p: int| 0 <= p < s1.len() implies s1[p] != id by {
                            if p >= i {
                                assert(s0[p + 1].0 > s0[i as int].0);
                            }
                        }
                    }
                    lemma_id_remove(s0, s1, i as int);
                }
                return ;
            }
            i += 1;
        }
        proof {
            assert(!old(self).members().contains(id));
        }
    }

    /// Materialise the ordered set, partially shuffle it with a PRNG seeded
    /// from the tenant id, and draw one of the `min(shard, n)` shuffled
    /// positions with the picker-owned (non-tenant) PRNG. `None` iff the set
    /// is empty.
    fn pick(&mut self, id: TenantId) -> (r: Option<BackendId>)
        ensures
            final(self).members() == old(self).members(),
            final(self).shard() == old(self).shard(),
            r is Some <==> old(self).members().len() > 0,
            r is Some ==> final(self).members().contains(r->0),
    {
        let n = self.backends.len();
        let mut all: Vec<BackendId> = Vec::new();
        let mut i: usize = 0;
        while i < n
            invariant
                old(self).inv(),
                n == self.backends@.len(),
                i <= n,
                *self == *old(self),
                all@ == self.backends@.subrange(0, i as int),
            decreases n - i,
        {
            all.push(self.backends[i]);
            i += 1;
        }
        proof {
            assert(all@ == self.backends@);
        }
        let mut trng = rng_from_seed(id.0);
        let m = partial_shuffle(&mut all, &mut trng, self.shard_size);
        let start = all.len() - m;
        let r = choose_from(&all, start, &mut self.prng);
        proof {
            broadcast use vstd::seq_lib::group_to_multiset_ensures;

            if r is Some {
                let x = r->0;
                assert(all@.contains(x));
                assert(all@.to_multiset().count(x) > 0);
                assert(old(self).members().contains(x));
            }
        }
        r
    }
}

} // verus!
