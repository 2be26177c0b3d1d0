use vstd::prelude::*;

pub mod block_picker;
pub mod drain_aware_shuffle;
pub(crate) mod fleet;
pub mod harness;
pub mod naive_shuffle;
pub mod rendevouz;
pub mod rendevouz_shuffle;
pub mod rng;

verus! {

/// A logical client of the service, named by an opaque 64-bit id.
#[derive(Debug, PartialEq, Eq, Structural, Clone, Copy, PartialOrd, Ord, Hash)]
pub struct TenantId(pub u64);

/// A backend instance, named by an opaque 64-bit id. Recycling a host is
/// modelled as unregistering the old id and registering a fresh one.
#[derive(Debug, PartialEq, Eq, Structural, Clone, Copy, PartialOrd, Ord, Hash)]
pub struct BackendId(pub u64);

/// Tri-state backend health. `Up` is eligible to serve; `Draining` should
/// receive no new traffic but is not a failure; `Down` is failing.
#[derive(Debug, PartialEq, Eq, Structural, Clone, Copy, PartialOrd, Ord, Hash)]
pub enum Health {
    Up,
    Draining,
    Down,
}

/// A registered backend: its id, its current health, and the stable 64-bit
/// hash of its id, computed once at registration time.
#[derive(Debug, PartialEq, Eq, Structural, Clone, Copy, PartialOrd, Ord, Hash)]
pub struct Backend {
    pub id: BackendId,
    pub health: Health,
    pub hash: u64,
}

/// The digest that `hash` computes for a 64-bit id. It depends on the id
/// alone, so two backends with the same id always carry the same hash.
pub uninterp spec fn hash_of(x: u64) -> u64;

/// Stable 64-bit hash of an id.
///
/// Relies on `std::collections::hash_map::DefaultHasher` (SipHash 1-3): every
/// hasher made by `DefaultHasher::new` starts from the same fixed keys, so the
/// digest of one written `u64` is a function of that value alone.
#[verifier::external_body]
pub fn hash(x: u64) -> (r: u64)
    ensures
        r == hash_of(x),
{
    let mut h = std::collections::hash_map::DefaultHasher::new();
    std::hash::Hasher::write_u64(&mut h, x);
    std::hash::Hasher::finish(&h)
}

/// The odd multiplier of the mixing step, taken from FxHash.
pub const MIX_CONSTANT: u64 = 0x517cc1b727220a95;

/// The fixed seed of every picker-owned PRNG, part of the contract for
/// reproducibility.
pub const PRNG_SEED: u64 = 42;

/// What `combine` returns: rotate the first input left by five bits, xor the
/// second in, and multiply (wrapping) by an odd constant.
pub open spec fn combine_spec(a: u64, b: u64) -> u64 {
    vstd::wrapping::u64_specs::wrapping_mul(((a << 5u64) | (a >> 59u64)) ^ b, MIX_CONSTANT)
}

/// A mediocre quality (but extremely fast) way to combine two hash values,
/// used to derive a tenant-and-backend score without re-hashing.
pub fn combine(a: u64, b: u64) -> (r: u64)
    ensures
        r == combine_spec(a, b),
{
    (((a << 5u64) | (a >> 59u64)) ^ b).wrapping_mul(MIX_CONSTANT)
}

/// No two entries of the fleet share a backend id.
pub open spec fn ids_unique(s: Seq<Backend>) -> bool {
    forall|i: int, j: int| 0 <= i < j < s.len() ==> s[i].id != s[j].id
}

/// Every entry's stored hash is the hash of its id.
pub open spec fn hashes_consistent(s: Seq<Backend>) -> bool {
    forall|i: int| 0 <= i < s.len() ==> #[trigger] s[i].hash == hash_of(s[i].id.0)
}

/// The fleet is strictly sorted by backend id (which also makes ids unique).
pub open spec fn sorted_by_id(s: Seq<Backend>) -> bool {
    forall|i: int, j: int| 0 <= i < j < s.len() ==> s[i].id.0 < s[j].id.0
}

/// Some entry of the fleet has this id.
pub open spec fn has_backend(s: Seq<Backend>, id: BackendId) -> bool {
    exists|i: int| 0 <= i < s.len() && #[trigger] s[i].id == id
}

/// Some entry of the fleet has this id and is `Up`.
pub open spec fn up_with_id(s: Seq<Backend>, id: BackendId) -> bool {
    exists|i: int| 0 <= i < s.len() && #[trigger] s[i].id == id && s[i].health == Health::Up
}

/// Some entry of the fleet is `Up`.
pub open spec fn has_up(s: Seq<Backend>) -> bool {
    exists|i: int| 0 <= i < s.len() && #[trigger] s[i].health == Health::Up
}

pub(crate) proof fn lemma_sorted_ids_unique(s: Seq<Backend>)
    requires
        sorted_by_id(s),
    ensures
        ids_unique(s),
{
}

/// Walking `n` consecutive positions modulo `n`, starting anywhere, visits
/// every residue: position `p` is reached at step `(p - start) % n`.
pub proof fn lemma_mod_cycle_covers(start: int, p: int, n: int)
    requires
        n > 0,
        0 <= p < n,
        0 <= start,
    ensures
        0 <= (p - start) % n < n,
        (start + (p - start) % n) % n == p,
{
    let d = p - start;
    let q = d / n;
    let r = d % n;
    vstd::arithmetic::div_mod::lemma_fundamental_div_mod(d, n);
    vstd::arithmetic::div_mod::lemma_mod_bound(d, n);
    assert(start + r == p - n * q);
    vstd::arithmetic::div_mod::lemma_mod_multiples_vanish(-q, p, n);
    assert(n * (-q) + p == p - n * q) by (nonlinear_arith);
    assert((start + r) % n == p % n);
    vstd::arithmetic::div_mod::lemma_small_mod(p as nat, n as nat);
    assert(p % n == p);
}

/// The uniform interface of all pickers: construct with a shard size, feed
/// fleet membership and health updates, and pick one backend per request.
pub trait Picker: Sized {
    /// The picker's internal well-formedness invariant.
    spec fn inv(&self) -> bool;

    /// When a `pick` call is allowed. `true` for every picker except
    /// `RendevouzShuffle`, which demands a fleet at least as large as its
    /// shard size.
    spec fn pick_ready(&self) -> bool;

    /// Whether a backend with this id is currently a member of the picker's
    /// candidate set.
    spec fn is_member(&self, id: BackendId) -> bool;

    /// How many backends the picker currently holds.
    spec fn member_count(&self) -> nat;

    /// Whether a backend with this id is a member the picker considers
    /// healthy. For the health-blind `NaiveShuffle` this is plain
    /// membership.
    spec fn is_up_member(&self, id: BackendId) -> bool;

    /// Whether the picker records health at all (`NaiveShuffle` does not).
    spec fn stores_health(&self) -> bool;

    /// A state in which a pick is guaranteed to succeed, picker by picker:
    /// for the cursor, rendezvous and naive pickers the mere existence of a
    /// healthy member; for the others a fleet healthy enough that no random
    /// draw can land outside the healthy candidates.
    spec fn pick_guaranteed(&self) -> bool;

    /// Construct a picker with shard size `shard_size >= 1` and no members.
    fn new(shard_size: usize) -> (r: Self)
        requires
            shard_size >= 1,
        ensures
            r.inv(),
            forall|x: BackendId| !r.is_member(x),
            forall|x: BackendId| !r.is_up_member(x),
            r.member_count() == 0,
    ;

    /// Upsert a backend: a new id is inserted, a known id has its health
    /// updated in place (its stored hash is preserved). Registration never
    /// grows membership by more than the registered id, and grows it by
    /// exactly that id unless the health is `Draining` (which `NaiveShuffle`
    /// still admits, and `RendevouzShuffle` expels). A backend registered
    /// `Up` is a healthy member afterwards; one registered otherwise is not,
    /// wherever health is stored at all.
    fn register(&mut self, id: BackendId, health: Health)
        requires
            old(self).inv(),
        ensures
            final(self).inv(),
            health != Health::Draining ==> forall|x: BackendId|
                final(self).is_member(x) <==> (old(self).is_member(x) || x == id),
            forall|x: BackendId| final(self).is_member(x) ==> (old(self).is_member(x) || x == id),
            health != Health::Draining && old(self).is_member(id) ==> final(self).member_count()
                == old(self).member_count(),
            health != Health::Draining && !old(self).is_member(id) ==> final(self).member_count()
                == old(self).member_count() + 1,
            old(self).member_count() <= final(self).member_count() + 1,
            health != Health::Draining ==> (old(self).pick_ready() ==> final(self).pick_ready()),
            health == Health::Up ==> forall|x: BackendId|
                final(self).is_up_member(x) <==> (old(self).is_up_member(x) || x == id),
            forall|x: BackendId|
                x != id ==> (final(self).is_up_member(x) == old(self).is_up_member(x)),
            health != Health::Up && old(self).stores_health() ==> !final(self).is_up_member(id),
            final(self).stores_health() == old(self).stores_health(),
    ;

    /// Remove a backend; a no-op on unknown ids. Membership afterwards is
    /// exactly the old membership minus this id.
    fn unregister(&mut self, id: BackendId)
        requires
            old(self).inv(),
        ensures
            final(self).inv(),
            forall|x: BackendId| final(self).is_member(x) <==> (old(self).is_member(x) && x != id),
            forall|x: BackendId|
                final(self).is_up_member(x) <==> (old(self).is_up_member(x) && x != id),
            old(self).is_member(id) ==> final(self).member_count() + 1 == old(
                self,
            ).member_count(),
            !old(self).is_member(id) ==> final(self).member_count() == old(self).member_count(),
            final(self).stores_health() == old(self).stores_health(),
    ;

    /// Select a backend for the tenant, or report that no candidate exists.
    /// Whatever comes back is a healthy member; membership, health and
    /// readiness are untouched, and in a guaranteed state the pick succeeds.
    /// This is the only call that advances the picker-owned PRNG.
    fn pick(&mut self, id: TenantId) -> (r: Option<BackendId>)
        requires
            old(self).inv(),
            old(self).pick_ready(),
        ensures
            final(self).inv(),
            r is Some ==> old(self).is_member(r->0),
            r is Some ==> old(self).is_up_member(r->0),
            old(self).pick_guaranteed() ==> r is Some,
            forall|x: BackendId| final(self).is_member(x) == old(self).is_member(x),
            forall|x: BackendId| final(self).is_up_member(x) == old(self).is_up_member(x),
            final(self).member_count() == old(self).member_count(),
            final(self).pick_ready() == old(self).pick_ready(),
            final(self).pick_guaranteed() == old(self).pick_guaranteed(),
            final(self).stores_health() == old(self).stores_health(),
    ;
}

/// Baseline tenant-agnostic picker: a rotating cursor over the fleet in
/// registration order, skipping backends that are not `Up`.
pub struct RoundRobin {
    idx: usize,
    backends: Vec<Backend>,
}

impl RoundRobin {
    /// The current fleet, in registration order.
    pub closed spec fn fleet(&self) -> Seq<Backend> {
        self.backends@
    }

    /// The rotating cursor: the index inspected last (or 0 on a fresh
    /// picker). A pick inspects the cyclic positions one past this.
    pub closed spec fn cursor(&self) -> usize {
        self.idx
    }
}

/// The position a cyclic scan of `n` slots reaches `j` steps after `start`.
pub open spec fn scan_pos(start: int, j: int, n: int) -> int {
    (start + j) % n
}

/// The cyclic scan one past cursor `oc` first meets an `Up` backend at step
/// `j`, that backend has id `bid`, and the cursor stops on its position.
pub open spec fn scan_finds(fleet: Seq<Backend>, oc: int, j: int, bid: BackendId, newc: int) -> bool {
    let n = fleet.len() as int;
    &&& 1 <= j <= n
    &&& fleet[scan_pos(oc, j, n)].id == bid
    &&& fleet[scan_pos(oc, j, n)].health == Health::Up
    &&& forall|j2: int| 1 <= j2 < j ==> fleet[#[trigger] scan_pos(oc, j2, n)].health != Health::Up
    &&& newc == scan_pos(oc, j, n)
}

/// Reducing the scan's starting point modulo the length does not move any
/// scanned position.
proof fn lemma_scan_pos_norm(start: int, j: int, n: int)
    requires
        n > 0,
        start >= 0,
    ensures
        scan_pos(start % n, j, n) == scan_pos(start, j, n),
{
    vstd::arithmetic::div_mod::lemma_fundamental_div_mod(start, n);
    vstd::arithmetic::div_mod::lemma_mod_multiples_vanish(start / n, start % n + j, n);
    assert(n * (start / n) + (start % n + j) == start + j) by (nonlinear_arith)
        requires
            start == n * (start / n) + start % n,
    ;
}

impl Picker for RoundRobin {
    closed spec fn inv(&self) -> bool {
        &&& ids_unique(self.backends@)
        &&& hashes_consistent(self.backends@)
        &&& self.idx < usize::MAX
    }

    open spec fn pick_ready(&self) -> bool {
        true
    }

    open spec fn is_member(&self, id: BackendId) -> bool {
        has_backend(self.fleet(), id)
    }

    open spec fn member_count(&self) -> nat {
        self.fleet().len()
    }

    open spec fn is_up_member(&self, id: BackendId) -> bool {
        up_with_id(self.fleet(), id)
    }

    open spec fn stores_health(&self) -> bool {
        true
    }

    open spec fn pick_guaranteed(&self) -> bool {
        has_up(self.fleet())
    }

    fn new(_shard_size: usize) -> (r: Self)
        ensures
            r.fleet() == Seq::<Backend>::empty(),
            r.cursor() == 0,
    {
        RoundRobin { backends: Vec::new(), idx: 0 }
    }

    fn register(&mut self, id: BackendId, health: Health)
        ensures
            final(self).cursor() == old(self).cursor(),
            has_backend(old(self).fleet(), id) ==> exists|i: int|
                0 <= i < old(self).fleet().len() && #[trigger] old(self).fleet()[i].id == id
                    && final(self).fleet() == old(self).fleet().update(
                    i,
                    (Backend { id, health, hash: old(self).fleet()[i].hash }),
                ),
            !has_backend(old(self).fleet(), id) ==> final(self).fleet() == old(
                self,
            ).fleet().push((Backend { id, health, hash: hash_of(id.0) })),
            forall|x: BackendId|
                has_backend(final(self).fleet(), x) <==> (has_backend(old(self).fleet(), x) || x
                    == id),
    {
        crate::fleet::upsert(&mut self.backends, id, health);
        proof {
            let s0 = old(self).fleet();
            let s1 = self.fleet();
            lemma_upsert_ids(s0, s1, id, health);
            if has_backend(s0, id) {
                let i = choose|i: int|
                    0 <= i < s0.len() && #[trigger] s0[i].id == id && s1 == s0.update(
                        i,
                        (Backend { id, health, hash: s0[i].hash }),
                    );
                lemma_update_up_ids(s0, s1, i, Backend { id, health, hash: s0[i].hash });
            } else {
                assert(s1 =~= s0.insert(
                    s0.len() as int,
                    (Backend { id, health, hash: hash_of(id.0) }),
                ));
                lemma_insert_up_ids(
                    s0,
                    s1,
                    s0.len() as int,
                    Backend { id, health, hash: hash_of(id.0) },
                );
            }
        }
    }

    fn unregister(&mut self, id: BackendId)
        ensures
            final(self).cursor() == old(self).cursor(),
            !has_backend(old(self).fleet(), id) ==> final(self).fleet() == old(self).fleet(),
            has_backend(old(self).fleet(), id) ==> exists|i: int|
                0 <= i < old(self).fleet().len() && #[trigger] old(self).fleet()[i].id == id
                    && final(self).fleet() == old(self).fleet().remove(i),
            forall|x: BackendId|
                has_backend(final(self).fleet(), x) <==> (has_backend(old(self).fleet(), x) && x
                    != id),
    {
        crate::fleet::remove_by_id(&mut self.backends, id);
        proof {
            let s0 = old(self).fleet();
            let s1 = self.fleet();
            lemma_remove_ids(s0, s1, id);
            if has_backend(s0, id) {
                let i = choose|i: int|
                    0 <= i < s0.len() && #[trigger] s0[i].id == id && s1 == s0.remove(i);
                lemma_remove_up_ids(s0, s1, i);
                assert forall|x: BackendId| #![auto] true implies (up_with_id(s1, x) <==> (
                up_with_id(s0, x) && x != id)) by {
                    if x == id && up_with_id(s0, id) {
                        let j = choose|j: int|
                            0 <= j < s0.len() && #[trigger] s0[j].id == id && s0[j].health
                                == Health::Up;
                        assert(j == i);
                    }
                }
            }
        }
    }

    /// Advance the cursor and return the first `Up` backend found within one
    /// full sweep: the result is the first `Up` backend of the cyclic scan
    /// one past the old cursor, and the cursor stops on it. Note the
    /// advance-before-inspect order: on a fresh picker the first pick
    /// returns the backend at index 1, not 0.
    fn pick(&mut self, _id: TenantId) -> (r: Option<BackendId>)
        ensures
            final(self).fleet() == old(self).fleet(),
            r is Some ==> up_with_id(final(self).fleet(), r->0),
            r is Some <==> has_up(final(self).fleet()),
            r matches Some(bid) ==> exists|j: int|
                #[trigger] scan_finds(
                    final(self).fleet(),
                    old(self).cursor() as int,
                    j,
                    bid,
                    final(self).cursor() as int,
                ),
    {
        if self.backends.is_empty() {
            return None;
        }
        let n = self.backends.len();
        if self.idx >= n {
            // The fleet shrank since the cursor was last placed; reducing the
            // cursor modulo the length leaves every scanned position
            // unchanged.
            self.idx = self.idx % n;
        }
        let ghost start = self.idx as int;
        let ghost oc = old(self).cursor() as int;
        proof {
            vstd::arithmetic::div_mod::lemma_small_mod(start as nat, n as nat);
            assert forall|j: int| #[trigger] scan_pos(start, j, n as int) == scan_pos(
                oc,
                j,
                n as int,
            ) by {
                if oc >= n {
                    lemma_scan_pos_norm(oc, j, n as int);
                }
            }
        }
        let mut i: usize = 0;
        while i < n
            invariant
                old(self).inv(),
                self.inv(),
                n == self.backends@.len(),
                n > 0,
                i <= n,
                self.backends@ == old(self).backends@,
                0 <= start < n,
                oc == old(self).cursor() as int,
                forall|j: int|
                    #[trigger] scan_pos(start, j, n as int) == scan_pos(oc, j, n as int),
                self.idx as int == (start + i) % (n as int),
                forall|j: int|
                    1 <= j <= i ==> self.backends@[#[trigger] ((start + j) % (n as int))].health
                        != Health::Up,
            decreases n - i,
        {
            proof {
                vstd::arithmetic::div_mod::lemma_mod_bound(start + i, n as int);
                vstd::arithmetic::div_mod::lemma_fundamental_div_mod(start + i, n as int);
                vstd::arithmetic::div_mod::lemma_mod_multiples_vanish(
                    (start + i) / (n as int),
                    (start + i) % (n as int) + 1,
                    n as int,
                );
                assert((n as int) * ((start + i) / (n as int)) + ((start + i) % (n as int) + 1)
                    == start + i + 1) by (nonlinear_arith)
                    requires
                        start + i == (n as int) * ((start + i) / (n as int)) + (start + i) % (
                        n as int),
                ;
            }
            proof {
                vstd::arithmetic::div_mod::lemma_mod_bound(self.idx as int + 1, n as int);
            }
            self.idx = (self.idx + 1) % n;
            let b = self.backends[self.idx];
            if b.health == Health::Up {
                proof {
                    let j = i as int + 1;
                    assert(scan_pos(oc, j, n as int) == scan_pos(start, j, n as int));
                    assert(self.backends@[scan_pos(oc, j, n as int)].id == b.id);
                    assert forall|j2: int|
                        1 <= j2 < j implies self.backends@[#[trigger] scan_pos(
                        oc,
                        j2,
                        n as int,
                    )].health != Health::Up by {
                        assert(scan_pos(oc, j2, n as int) == scan_pos(start, j2, n as int));
                        assert(self.backends@[(start + j2) % (n as int)].health != Health::Up);
                    }
                    assert(scan_finds(self.backends@, oc, j, b.id, self.idx as int));
                    assert(scan_finds(
                        self.fleet(),
                        old(self).cursor() as int,
                        j,
                        b.id,
                        self.cursor() as int,
                    ));
                }
                return Some(b.id);
            }
            i += 1;
        }
        proof {
            assert forall|p: int| 0 <= p < n implies self.backends@[p].health != Health::Up by {
                lemma_mod_cycle_covers(start + 1, p, n as int);
                let j = (p - (start + 1)) % (n as int);
                assert(self.backends@[(start + (1 + j)) % (n as int)].health != Health::Up);
            }
        }
        None
    }
}

/// After an in-place health update at the position holding `id`, exactly the
/// same ids are present.
pub proof fn lemma_update_same_ids(s0: Seq<Backend>, s1: Seq<Backend>, i: int, b: Backend)
    requires
        0 <= i < s0.len(),
        s0[i].id == b.id,
        s1 == s0.update(i, b),
    ensures
        forall|x: BackendId| has_backend(s1, x) <==> has_backend(s0, x),
{
    assert forall|x: BackendId| has_backend(s1, x) implies has_backend(s0, x) by {
        let j = choose|j: int| 0 <= j < s1.len() && #[trigger] s1[j].id == x;
        assert(s0[j].id == x);
    }
    assert forall|x: BackendId| has_backend(s0, x) implies has_backend(s1, x) by {
        let j = choose|j: int| 0 <= j < s0.len() && #[trigger] s0[j].id == x;
        assert(s1[j].id == x);
    }
}

/// After inserting a backend, exactly the old ids plus the new one are
/// present.
pub proof fn lemma_insert_adds_id(s0: Seq<Backend>, s1: Seq<Backend>, p: int, b: Backend)
    requires
        0 <= p <= s0.len(),
        s1 == s0.insert(p, b),
    ensures
        forall|x: BackendId| has_backend(s1, x) <==> (has_backend(s0, x) || x == b.id),
{
    assert forall|x: BackendId| has_backend(s1, x) implies (has_backend(s0, x) || x == b.id) by {
        let j = choose|j: int| 0 <= j < s1.len() && #[trigger] s1[j].id == x;
        if j < p {
            assert(s0[j].id == x);
        } else if j > p {
            assert(s0[j - 1].id == x);
        }
    }
    assert forall|x: BackendId| has_backend(s0, x) || x == b.id implies has_backend(s1, x) by {
        if x == b.id {
            assert(s1[p].id == x);
        } else {
            let j = choose|j: int| 0 <= j < s0.len() && #[trigger] s0[j].id == x;
            if j < p {
                assert(s1[j].id == x);
            } else {
                assert(s1[j + 1].id == x);
            }
        }
    }
}

/// After removing the only position holding `id`, exactly the old ids minus
/// `id` are present.
pub proof fn lemma_remove_deletes_id(s0: Seq<Backend>, s1: Seq<Backend>, i: int)
    requires
        0 <= i < s0.len(),
        ids_unique(s0),
        s1 == s0.remove(i),
    ensures
        forall|x: BackendId| has_backend(s1, x) <==> (has_backend(s0, x) && x != s0[i].id),
{
    assert forall|x: BackendId| has_backend(s1, x) implies (has_backend(s0, x) && x != s0[i].id) by {
        let j = choose|j: int| 0 <= j < s1.len() && #[trigger] s1[j].id == x;
        if j < i {
            assert(s0[j].id == x);
            assert(s0[j].id != s0[i].id);
        } else {
            assert(s0[j + 1].id == x);
            assert(s0[j + 1].id != s0[i].id);
        }
    }
    assert forall|x: BackendId| has_backend(s0, x) && x != s0[i].id implies has_backend(s1, x) by {
        let j = choose|j: int| 0 <= j < s0.len() && #[trigger] s0[j].id == x;
        if j < i {
            assert(s1[j].id == x);
        } else {
            assert(j != i);
            assert(s1[j - 1].id == x);
        }
    }
}

/// The id consequences of an upsert in registration order: the known ids
/// stay, and the upserted id is present.
pub(crate) proof fn lemma_upsert_ids(s0: Seq<Backend>, s1: Seq<Backend>, id: BackendId, health: Health)
    requires
        has_backend(s0, id) ==> exists|i: int|
            0 <= i < s0.len() && #[trigger] s0[i].id == id && s1 == s0.update(
                i,
                (Backend { id, health, hash: s0[i].hash }),
            ),
        !has_backend(s0, id) ==> s1 == s0.push((Backend { id, health, hash: hash_of(id.0) })),
    ensures
        forall|x: BackendId| has_backend(s1, x) <==> (has_backend(s0, x) || x == id),
{
    if has_backend(s0, id) {
        let i = choose|i: int|
            0 <= i < s0.len() && #[trigger] s0[i].id == id && s1 == s0.update(
                i,
                (Backend { id, health, hash: s0[i].hash }),
            );
        lemma_update_same_ids(s0, s1, i, Backend { id, health, hash: s0[i].hash });
    } else {
        assert(s1 =~= s0.insert(s0.len() as int, (Backend { id, health, hash: hash_of(id.0) })));
        lemma_insert_adds_id(
            s0,
            s1,
            s0.len() as int,
            Backend { id, health, hash: hash_of(id.0) },
        );
    }
}

/// The id consequences of a sorted upsert.
pub(crate) proof fn lemma_upsert_sorted_ids(
    s0: Seq<Backend>,
    s1: Seq<Backend>,
    id: BackendId,
    health: Health,
)
    requires
        has_backend(s0, id) ==> exists|i: int|
            0 <= i < s0.len() && #[trigger] s0[i].id == id && s1 == s0.update(
                i,
                (Backend { id, health, hash: s0[i].hash }),
            ),
        !has_backend(s0, id) ==> exists|p: int|
            0 <= p <= s0.len() && s1 == s0.insert(p, (Backend { id, health, hash: hash_of(id.0) })),
    ensures
        forall|x: BackendId| has_backend(s1, x) <==> (has_backend(s0, x) || x == id),
{
    if has_backend(s0, id) {
        let i = choose|i: int|
            0 <= i < s0.len() && #[trigger] s0[i].id == id && s1 == s0.update(
                i,
                (Backend { id, health, hash: s0[i].hash }),
            );
        lemma_update_same_ids(s0, s1, i, Backend { id, health, hash: s0[i].hash });
    } else {
        let p = choose|p: int|
            0 <= p <= s0.len() && s1 == s0.insert(p, (Backend { id, health, hash: hash_of(id.0) }));
        lemma_insert_adds_id(s0, s1, p, Backend { id, health, hash: hash_of(id.0) });
    }
}

/// The id consequences of removing one id.
pub(crate) proof fn lemma_remove_ids(s0: Seq<Backend>, s1: Seq<Backend>, id: BackendId)
    requires
        ids_unique(s0),
        !has_backend(s0, id) ==> s1 == s0,
        has_backend(s0, id) ==> exists|i: int|
            0 <= i < s0.len() && #[trigger] s0[i].id == id && s1 == s0.remove(i),
    ensures
        forall|x: BackendId| has_backend(s1, x) <==> (has_backend(s0, x) && x != id),
{
    if has_backend(s0, id) {
        let i = choose|i: int| 0 <= i < s0.len() && #[trigger] s0[i].id == id && s1 == s0.remove(i);
        lemma_remove_deletes_id(s0, s1, i);
    }
}

/// The up-member consequences of a health update at the position holding
/// `id`: that id is an `Up` member afterwards iff the new health is `Up`,
/// everyone else is unaffected.
pub(crate) proof fn lemma_update_up_ids(
    s0: Seq<Backend>,
    s1: Seq<Backend>,
    i: int,
    b: Backend,
)
    requires
        ids_unique(s0),
        0 <= i < s0.len(),
        s0[i].id == b.id,
        s1 == s0.update(i, b),
    ensures
        up_with_id(s1, b.id) <==> b.health == Health::Up,
        forall|x: BackendId| x != b.id ==> (up_with_id(s1, x) <==> up_with_id(s0, x)),
{
    if b.health == Health::Up {
        assert(s1[i].id == b.id && s1[i].health == Health::Up);
    }
    if up_with_id(s1, b.id) {
        let j = choose|j: int|
            0 <= j < s1.len() && #[trigger] s1[j].id == b.id && s1[j].health == Health::Up;
        assert(j == i) by {
            if j != i {
                assert(s0[j].id == s0[i].id);
            }
        }
    }
    assert forall|x: BackendId| x != b.id implies (up_with_id(s1, x) <==> up_with_id(s0, x)) by {
        if up_with_id(s1, x) {
            let j = choose|j: int|
                0 <= j < s1.len() && #[trigger] s1[j].id == x && s1[j].health == Health::Up;
            assert(s0[j].id == x && s0[j].health == Health::Up);
        }
        if up_with_id(s0, x) {
            let j = choose|j: int|
                0 <= j < s0.len() && #[trigger] s0[j].id == x && s0[j].health == Health::Up;
            assert(s1[j].id == x && s1[j].health == Health::Up);
        }
    }
}

/// The up-member consequences of inserting a backend with a fresh id.
pub(crate) proof fn lemma_insert_up_ids(
    s0: Seq<Backend>,
    s1: Seq<Backend>,
    p: int,
    b: Backend,
)
    requires
        0 <= p <= s0.len(),
        !has_backend(s0, b.id),
        s1 == s0.insert(p, b),
    ensures
        up_with_id(s1, b.id) <==> b.health == Health::Up,
        forall|x: BackendId| x != b.id ==> (up_with_id(s1, x) <==> up_with_id(s0, x)),
{
    if b.health == Health::Up {
        assert(s1[p].id == b.id && s1[p].health == Health::Up);
    }
    if up_with_id(s1, b.id) {
        let j = choose|j: int|
            0 <= j < s1.len() && #[trigger] s1[j].id == b.id && s1[j].health == Health::Up;
        assert(j == p) by {
            if j < p {
                assert(s0[j].id == b.id);
            } else if j > p {
                assert(s0[j - 1].id == b.id);
            }
        }
    }
    assert forall|x: BackendId| x != b.id implies (up_with_id(s1, x) <==> up_with_id(s0, x)) by {
        if up_with_id(s1, x) {
            let j = choose|j: int|
                0 <= j < s1.len() && #[trigger] s1[j].id == x && s1[j].health == Health::Up;
            if j < p {
                assert(s0[j].id == x && s0[j].health == Health::Up);
            } else {
                assert(j != p);
                assert(s0[j - 1].id == x && s0[j - 1].health == Health::Up);
            }
        }
        if up_with_id(s0, x) {
            let j = choose|j: int|
                0 <= j < s0.len() && #[trigger] s0[j].id == x && s0[j].health == Health::Up;
            if j < p {
                assert(s1[j].id == x && s1[j].health == Health::Up);
            } else {
                assert(s1[j + 1].id == x && s1[j + 1].health == Health::Up);
            }
        }
    }
}

/// The up-member consequences of removing the only position holding `id`.
pub(crate) proof fn lemma_remove_up_ids(s0: Seq<Backend>, s1: Seq<Backend>, i: int)
    requires
        ids_unique(s0),
        0 <= i < s0.len(),
        s1 == s0.remove(i),
    ensures
        !up_with_id(s1, s0[i].id),
        forall|x: BackendId| x != s0[i].id ==> (up_with_id(s1, x) <==> up_with_id(s0, x)),
{
    if up_with_id(s1, s0[i].id) {
        let j = choose|j: int|
            0 <= j < s1.len() && #[trigger] s1[j].id == s0[i].id && s1[j].health == Health::Up;
        if j < i {
            assert(s0[j].id == s0[i].id);
        } else {
            assert(s0[j + 1].id == s0[i].id);
        }
        assert(false);
    }
    assert forall|x: BackendId| x != s0[i].id implies (up_with_id(s1, x) <==> up_with_id(
        s0,
        x,
    )) by {
        if up_with_id(s1, x) {
            let j = choose|j: int|
                0 <= j < s1.len() && #[trigger] s1[j].id == x && s1[j].health == Health::Up;
            if j < i {
                assert(s0[j].id == x && s0[j].health == Health::Up);
            } else {
                assert(s0[j + 1].id == x && s0[j + 1].health == Health::Up);
            }
        }
        if up_with_id(s0, x) {
            let j = choose|j: int|
                0 <= j < s0.len() && #[trigger] s0[j].id == x && s0[j].health == Health::Up;
            if j < i {
                assert(s1[j].id == x && s1[j].health == Health::Up);
            } else {
                assert(j != i);
                assert(s1[j - 1].id == x && s1[j - 1].health == Health::Up);
            }
        }
    }
}

} // verus!
