use vstd::prelude::*;
use crate::{
    has_backend, hash_of, hashes_consistent, ids_unique, sorted_by_id, Backend, BackendId, Health,
};

verus! {

/// Upsert into a fleet kept in registration order: a known id has its health
/// replaced in place (hash preserved), a new id is pushed at the end with its
/// freshly computed hash.
pub(crate) fn upsert(v: &mut Vec<Backend>, id: BackendId, health: Health)
    requires
        ids_unique(old(v)@),
        hashes_consistent(old(v)@),
    ensures
        ids_unique(final(v)@),
        hashes_consistent(final(v)@),
        has_backend(old(v)@, id) ==> exists|i: int|
            0 <= i < old(v)@.len() && #[trigger] old(v)@[i].id == id && final(v)@ == old(
                v,
            )@.update(i, (Backend { id, health, hash: old(v)@[i].hash })),
        !has_backend(old(v)@, id) ==> final(v)@ == old(v)@.push(
            (Backend { id, health, hash: hash_of(id.0) }),
        ),
{
    let n = v.len();
    let mut i: usize = 0;
    while i < n
        invariant
            ids_unique(v@),
            hashes_consistent(v@),
            n == v@.len(),
            i <= n,
            *v == *old(v),
            forall|j: int| 0 <= j < i ==> v@[j].id != id,
        decreases n - i,
    {
        if v[i].id == id {
            let h = v[i].hash;
            v.set(i, Backend { id, health, hash: h });
            proof {
                let s0 = old(v)@;
                let s1 = v@;
                assert(forall|p: int| 0 <= p < s1.len() ==> s1[p].id == s0[p].id);
                assert(forall|p: int| 0 <= p < s1.len() ==> #[trigger] s1[p].hash == s0[p].hash);
            }
            return ;
        }
        i += 1;
    }
    let h = crate::hash(id.0);
    v.push(Backend { id, health, hash: h });
}

/// Upsert into a fleet kept strictly sorted by id: a known id has its health
/// replaced in place (hash preserved), a new id is inserted at its sorted
/// position with its freshly computed hash.
pub(crate) fn upsert_sorted(v: &mut Vec<Backend>, id: BackendId, health: Health)
    requires
        sorted_by_id(old(v)@),
        hashes_consistent(old(v)@),
    ensures
        sorted_by_id(final(v)@),
        hashes_consistent(final(v)@),
        has_backend(old(v)@, id) ==> exists|i: int|
            0 <= i < old(v)@.len() && #[trigger] old(v)@[i].id == id && final(v)@ == old(
                v,
            )@.update(i, (Backend { id, health, hash: old(v)@[i].hash })),
        !has_backend(old(v)@, id) ==> exists|p: int|
            0 <= p <= old(v)@.len() && final(v)@ == old(v)@.insert(
                p,
                (Backend { id, health, hash: hash_of(id.0) }),
            ),
{
    let n = v.len();
    let mut i: usize = 0;
    while i < n
        invariant
            sorted_by_id(v@),
            hashes_consistent(v@),
            n == v@.len(),
            i <= n,
            *v == *old(v),
            forall|j: int| 0 <= j < i ==> v@[j].id.0 < id.0,
        decreases n - i,
    {
        if v[i].id.0 == id.0 {
            let h = v[i].hash;
            v.set(i, Backend { id, health, hash: h });
            proof {
                let s0 = old(v)@;
                let s1 = v@;
                assert(s0[i as int].id == id);
                assert(forall|p: int| 0 <= p < s1.len() ==> s1[p].id == s0[p].id);
                assert(forall|p: int| 0 <= p < s1.len() ==> #[trigger] s1[p].hash == s0[p].hash);
            }
            return ;
        }
        if v[i].id.0 > id.0 {
            let h = crate::hash(id.0);
            let b = Backend { id, health, hash: h };
            v.insert(i, b);
            proof {
                let s0 = old(v)@;
                let s1 = v@;
                assert(s1 == s0.insert(i as int, b));
                assert(forall|p: int|
                    0 <= p < s1.len() ==> s1[p] == (if p < i {
                        s0[p]
                    } else if p == i {
                        b
                    } else {
                        s0[p - 1]
                    }));
                assert(!has_backend(s0, id)) by {
                    assert forall|p: int| 0 <= p < s0.len() implies s0[p].id != id by {
                        if p >= i {
                            assert(s0[i as int].id.0 > id.0);
                        }
                    }
                }
            }
            return ;
        }
        i += 1;
    }
    let h = crate::hash(id.0);
    let b = Backend { id, health, hash: h };
    v.push(b);
    proof {
        let s0 = old(v)@;
        assert(v@ == s0.insert(n as int, b));
        assert(!has_backend(s0, id));
    }
}

/// Remove the entry with this id, if any; order of the remaining entries is
/// preserved, so sortedness, id uniqueness and hash consistency all survive.
pub(crate) fn remove_by_id(v: &mut Vec<Backend>, id: BackendId)
    requires
        ids_unique(old(v)@) || sorted_by_id(old(v)@),
    ensures
        !has_backend(old(v)@, id) ==> final(v)@ == old(v)@,
        has_backend(old(v)@, id) ==> exists|i: int|
            0 <= i < old(v)@.len() && #[trigger] old(v)@[i].id == id && final(v)@ == old(
                v,
            )@.remove(i),
        ids_unique(old(v)@) ==> ids_unique(final(v)@),
        sorted_by_id(old(v)@) ==> sorted_by_id(final(v)@),
        hashes_consistent(old(v)@) ==> hashes_consistent(final(v)@),
        !has_backend(final(v)@, id),
{
    let n = v.len();
    let mut i: usize = 0;
    while i < n
        invariant
            ids_unique(old(v)@) || sorted_by_id(old(v)@),
            n == v@.len(),
            i <= n,
            *v == *old(v),
            forall|j: int| 0 <= j < i ==> v@[j].id != id,
        decreases n - i,
    {
        if v[i].id == id {
            v.remove(i);
            proof {
                let s0 = old(v)@;
                let s1 = v@;
                assert(forall|p: int|
                    0 <= p < s1.len() ==> s1[p] == (if p < i {
                        s0[p]
                    } else {
                        s0[p + 1]
                    }));
                if sorted_by_id(s0) {
                    crate::lemma_sorted_ids_unique(s0);
                }
                assert(!has_backend(s1, id)) by {
                    assert forall|p: int| 0 <= p < s1.len() implies s1[p].id != id by {
                        if p < i {
                            assert(s0[p].id != id);
                        } else {
                            assert(ids_unique(s0));
                            assert(s0[p + 1].id != s0[i as int].id);
                        }
                    }
                }
            }
            return ;
        }
        i += 1;
    }
    proof {
        assert(!has_backend(old(v)@, id));
    }
}

} // verus!
