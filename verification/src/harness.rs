use vstd::prelude::*;
use crate::block_picker::BlockPicker;
use crate::drain_aware_shuffle::DrainAwareShuffle;
use crate::naive_shuffle::NaiveShuffle;
use crate::rendevouz::Rendevouz;
use crate::rendevouz_shuffle::RendevouzShuffle;
use crate::rng::{rng_from_seed, shuffle_ids};
use crate::{has_backend, up_with_id, Backend, BackendId, Health, Picker, RoundRobin, TenantId};

verus! {

/// Which picker algorithm a simulation drives.
#[derive(Debug, Clone, Copy, PartialEq, Eq, Structural)]
pub enum PickerKind {
    RoundRobin,
    NaiveShuffle,
    DrainAwareShuffle,
    BlockPicker,
    Rendevouz,
    RendevouzShuffle,
}

/// What a simulation scenario can fail with: no backend could be routed to,
/// an unhealthy backend was routed to, or a pick was attempted on a fleet
/// smaller than the shard size.
#[derive(Debug, Clone, Copy, PartialEq, Eq, Structural)]
pub enum SimError {
    NoRoute,
    UnhealthyRoute,
    FleetTooSmall,
}

/// One picker of any of the six algorithms, behind a single dispatching
/// interface, so that a simulation scenario can drive them uniformly.
pub enum AnyPicker {
    RoundRobin(RoundRobin),
    NaiveShuffle(NaiveShuffle),
    DrainAwareShuffle(DrainAwareShuffle),
    BlockPicker(BlockPicker),
    Rendevouz(Rendevouz),
    RendevouzShuffle(RendevouzShuffle),
}

impl AnyPicker {
    /// The held picker's own invariant.
    pub closed spec fn inv(&self) -> bool {
        match self {
            AnyPicker::RoundRobin(p) => p.inv(),
            AnyPicker::NaiveShuffle(p) => p.inv(),
            AnyPicker::DrainAwareShuffle(p) => p.inv(),
            AnyPicker::BlockPicker(p) => p.inv(),
            AnyPicker::Rendevouz(p) => p.inv(),
            AnyPicker::RendevouzShuffle(p) => p.inv(),
        }
    }

    /// Whether a backend with this id is currently a member of the held
    /// picker. For `RendevouzShuffle`, a backend registered as `Draining` is
    /// no member at all.
    pub closed spec fn has_member(&self, id: BackendId) -> bool {
        match self {
            AnyPicker::RoundRobin(p) => p.is_member(id),
            AnyPicker::NaiveShuffle(p) => p.is_member(id),
            AnyPicker::DrainAwareShuffle(p) => p.is_member(id),
            AnyPicker::BlockPicker(p) => p.is_member(id),
            AnyPicker::Rendevouz(p) => p.is_member(id),
            AnyPicker::RendevouzShuffle(p) => p.is_member(id),
        }
    }

    /// Whether a backend with this id is a member the held picker considers
    /// healthy (for the health-blind `NaiveShuffle`, any member).
    pub closed spec fn has_up_member(&self, id: BackendId) -> bool {
        match self {
            AnyPicker::RoundRobin(p) => p.is_up_member(id),
            AnyPicker::NaiveShuffle(p) => p.is_up_member(id),
            AnyPicker::DrainAwareShuffle(p) => p.is_up_member(id),
            AnyPicker::BlockPicker(p) => p.is_up_member(id),
            AnyPicker::Rendevouz(p) => p.is_up_member(id),
            AnyPicker::RendevouzShuffle(p) => p.is_up_member(id),
        }
    }

    /// Whether the held picker records health at all (`NaiveShuffle` does
    /// not).
    pub closed spec fn knows_health(&self) -> bool {
        match self {
            AnyPicker::RoundRobin(p) => p.stores_health(),
            AnyPicker::NaiveShuffle(p) => p.stores_health(),
            AnyPicker::DrainAwareShuffle(p) => p.stores_health(),
            AnyPicker::BlockPicker(p) => p.stores_health(),
            AnyPicker::Rendevouz(p) => p.stores_health(),
            AnyPicker::RendevouzShuffle(p) => p.stores_health(),
        }
    }

    /// How many backends the held picker holds.
    pub closed spec fn member_count(&self) -> nat {
        match self {
            AnyPicker::RoundRobin(p) => p.member_count(),
            AnyPicker::NaiveShuffle(p) => p.member_count(),
            AnyPicker::DrainAwareShuffle(p) => p.member_count(),
            AnyPicker::BlockPicker(p) => p.member_count(),
            AnyPicker::Rendevouz(p) => p.member_count(),
            AnyPicker::RendevouzShuffle(p) => p.member_count(),
        }
    }

    /// The membership a pick demands: zero for every picker but
    /// `RendevouzShuffle`, whose fleet must reach its shard size.
    pub closed spec fn pick_bar(&self) -> nat {
        match self {
            AnyPicker::RendevouzShuffle(p) => p.shard() as nat,
            _ => 0,
        }
    }

    /// A state in which the held picker's pick is guaranteed to succeed.
    pub closed spec fn pick_certain(&self) -> bool {
        match self {
            AnyPicker::RoundRobin(p) => p.pick_guaranteed(),
            AnyPicker::NaiveShuffle(p) => p.pick_guaranteed(),
            AnyPicker::DrainAwareShuffle(p) => p.pick_guaranteed(),
            AnyPicker::BlockPicker(p) => p.pick_guaranteed(),
            AnyPicker::Rendevouz(p) => p.pick_guaranteed(),
            AnyPicker::RendevouzShuffle(p) => p.pick_guaranteed(),
        }
    }

    /// Which algorithm the held picker is.
    pub closed spec fn kind_of(&self) -> PickerKind {
        match self {
            AnyPicker::RoundRobin(_) => PickerKind::RoundRobin,
            AnyPicker::NaiveShuffle(_) => PickerKind::NaiveShuffle,
            AnyPicker::DrainAwareShuffle(_) => PickerKind::DrainAwareShuffle,
            AnyPicker::BlockPicker(_) => PickerKind::BlockPicker,
            AnyPicker::Rendevouz(_) => PickerKind::Rendevouz,
            AnyPicker::RendevouzShuffle(_) => PickerKind::RendevouzShuffle,
        }
    }

    /// Whether a pick is allowed right now.
    pub closed spec fn pick_allowed(&self) -> bool {
        match self {
            AnyPicker::RoundRobin(p) => p.pick_ready(),
            AnyPicker::NaiveShuffle(p) => p.pick_ready(),
            AnyPicker::DrainAwareShuffle(p) => p.pick_ready(),
            AnyPicker::BlockPicker(p) => p.pick_ready(),
            AnyPicker::Rendevouz(p) => p.pick_ready(),
            AnyPicker::RendevouzShuffle(p) => p.pick_ready(),
        }
    }

    /// Construct the picker named by `kind` with the given shard size; it
    /// starts with no members.
    pub fn new(kind: PickerKind, shard_size: usize) -> (r: Self)
        requires
            shard_size >= 1,
        ensures
            r.inv(),
            forall|x: BackendId| !r.has_member(x),
            forall|x: BackendId| !r.has_up_member(x),
            r.member_count() == 0,
            r.pick_bar() <= shard_size,
            kind != PickerKind::RendevouzShuffle ==> r.pick_bar() == 0,
            r.knows_health() == (kind != PickerKind::NaiveShuffle),
            r.kind_of() == kind,
    {
        match kind {
            PickerKind::RoundRobin => AnyPicker::RoundRobin(
                <RoundRobin as Picker>::new(shard_size),
            ),
            PickerKind::NaiveShuffle => AnyPicker::NaiveShuffle(
                <NaiveShuffle as Picker>::new(shard_size),
            ),
            PickerKind::DrainAwareShuffle => AnyPicker::DrainAwareShuffle(
                <DrainAwareShuffle as Picker>::new(shard_size),
            ),
            PickerKind::BlockPicker => AnyPicker::BlockPicker(
                <BlockPicker as Picker>::new(shard_size),
            ),
            PickerKind::Rendevouz => AnyPicker::Rendevouz(<Rendevouz as Picker>::new(shard_size)),
            PickerKind::RendevouzShuffle => AnyPicker::RendevouzShuffle(
                <RendevouzShuffle as Picker>::new(shard_size),
            ),
        }
    }

    /// Upsert a backend in the held picker. Whatever the algorithm, the
    /// members afterwards are at most the old members plus this id, and
    /// exactly those unless the health was `Draining` (which `NaiveShuffle`
    /// still admits as a member, and `RendevouzShuffle` expels).
    pub fn register(&mut self, id: BackendId, health: Health)
        requires
            old(self).inv(),
        ensures
            final(self).inv(),
            health != Health::Draining ==> forall|x: BackendId|
                final(self).has_member(x) <==> (old(self).has_member(x) || x == id),
            forall|x: BackendId|
                final(self).has_member(x) ==> (old(self).has_member(x) || x == id),
            health != Health::Draining && old(self).has_member(id)
                ==> final(self).member_count() == old(self).member_count(),
            health != Health::Draining && !old(self).has_member(id)
                ==> final(self).member_count() == old(self).member_count() + 1,
            old(self).member_count() <= final(self).member_count() + 1,
            health != Health::Draining ==> (old(self).pick_allowed()
                ==> final(self).pick_allowed()),
            health == Health::Up ==> forall|x: BackendId|
                final(self).has_up_member(x) <==> (old(self).has_up_member(x) || x == id),
            forall|x: BackendId|
                x != id ==> (final(self).has_up_member(x) == old(self).has_up_member(x)),
            health != Health::Up && old(self).knows_health() ==> !final(self).has_up_member(id),
            final(self).knows_health() == old(self).knows_health(),
            final(self).pick_bar() == old(self).pick_bar(),
            final(self).kind_of() == old(self).kind_of(),
            health == Health::Draining && old(self).kind_of() == PickerKind::RendevouzShuffle
                ==> forall|x: BackendId|
                final(self).has_member(x) <==> (old(self).has_member(x) && x != id),
            health == Health::Draining && old(self).kind_of() == PickerKind::RendevouzShuffle
                && old(self).has_member(id) ==> final(self).member_count() + 1 == old(
                self,
            ).member_count(),
            health == Health::Draining && old(self).kind_of() == PickerKind::RendevouzShuffle
                && !old(self).has_member(id) ==> final(self).member_count() == old(
                self,
            ).member_count(),
            health == Health::Draining && old(self).kind_of() != PickerKind::RendevouzShuffle
                ==> forall|x: BackendId|
                final(self).has_member(x) <==> (old(self).has_member(x) || x == id),
    {
        match self {
            AnyPicker::RoundRobin(p) => p.register(id, health),
            AnyPicker::NaiveShuffle(p) => p.register(id, health),
            AnyPicker::DrainAwareShuffle(p) => p.register(id, health),
            AnyPicker::BlockPicker(p) => p.register(id, health),
            AnyPicker::Rendevouz(p) => p.register(id, health),
            AnyPicker::RendevouzShuffle(p) => p.register(id, health),
        }
    }

    /// Remove a backend from the held picker: the members afterwards are
    /// exactly the old members minus this id.
    pub fn unregister(&mut self, id: BackendId)
        requires
            old(self).inv(),
        ensures
            final(self).inv(),
            forall|x: BackendId|
                final(self).has_member(x) <==> (old(self).has_member(x) && x != id),
            forall|x: BackendId|
                final(self).has_up_member(x) <==> (old(self).has_up_member(x) && x != id),
            old(self).has_member(id) ==> final(self).member_count() + 1
                == old(self).member_count(),
            !old(self).has_member(id) ==> final(self).member_count() == old(self).member_count(),
            final(self).knows_health() == old(self).knows_health(),
            final(self).pick_bar() == old(self).pick_bar(),
            final(self).kind_of() == old(self).kind_of(),
    {
        match self {
            AnyPicker::RoundRobin(p) => p.unregister(id),
            AnyPicker::NaiveShuffle(p) => p.unregister(id),
            AnyPicker::DrainAwareShuffle(p) => p.unregister(id),
            AnyPicker::BlockPicker(p) => p.unregister(id),
            AnyPicker::Rendevouz(p) => p.unregister(id),
            AnyPicker::RendevouzShuffle(p) => p.unregister(id),
        }
    }

    /// Whether a pick is allowed right now (false only for a
    /// `RendevouzShuffle` whose fleet is smaller than its shard size).
    pub fn can_pick(&self) -> (r: bool)
        ensures
            r == self.pick_allowed(),
    {
        match self {
            AnyPicker::RendevouzShuffle(p) => p.ready(),
            _ => true,
        }
    }

    /// Pick a backend for the tenant with the held picker. Whatever comes
    /// back is a current member, and membership itself is untouched.
    pub fn pick(&mut self, id: TenantId) -> (r: Option<BackendId>)
        requires
            old(self).inv(),
            old(self).pick_allowed(),
        ensures
            final(self).inv(),
            r is Some ==> old(self).has_member(r->0),
            r is Some ==> old(self).has_up_member(r->0),
            old(self).pick_certain() ==> r is Some,
            forall|x: BackendId| final(self).has_member(x) == old(self).has_member(x),
            forall|x: BackendId| final(self).has_up_member(x) == old(self).has_up_member(x),
            final(self).member_count() == old(self).member_count(),
            final(self).pick_allowed() == old(self).pick_allowed(),
            final(self).pick_certain() == old(self).pick_certain(),
            final(self).knows_health() == old(self).knows_health(),
            final(self).pick_bar() == old(self).pick_bar(),
            final(self).kind_of() == old(self).kind_of(),
    {
        match self {
            AnyPicker::RoundRobin(p) => p.pick(id),
            AnyPicker::NaiveShuffle(p) => p.pick(id),
            AnyPicker::DrainAwareShuffle(p) => p.pick(id),
            AnyPicker::BlockPicker(p) => p.pick(id),
            AnyPicker::Rendevouz(p) => p.pick(id),
            AnyPicker::RendevouzShuffle(p) => p.pick(id),
        }
    }
}

/// A pick is allowed exactly when the membership reaches the bar.
proof fn lemma_allowed(p: &AnyPicker)
    ensures
        p.pick_allowed() <==> p.member_count() >= p.pick_bar(),
{
    match p {
        AnyPicker::RendevouzShuffle(q) => {
            assert(q.pick_ready() == (q.fleet().len() >= q.shard()));
        },
        _ => {},
    }
}

/// How many entries of the record are `Up`.
pub open spec fn count_up_backends(s: Seq<Backend>) -> int
    decreases s.len(),
{
    if s.len() == 0 {
        0
    } else {
        count_up_backends(s.drop_last()) + if s.last().health == Health::Up {
            1int
        } else {
            0int
        }
    }
}

proof fn lemma_count_up_le_len(s: Seq<Backend>)
    ensures
        0 <= count_up_backends(s) <= s.len(),
    decreases s.len(),
{
    if s.len() > 0 {
        lemma_count_up_le_len(s.drop_last());
    }
}

/// In a fleet strictly sorted by id, the id at each index is at least the
/// index, so ids below a bound mean at most that many entries.
proof fn lemma_sorted_id_min(s: Seq<Backend>, i: int)
    requires
        crate::sorted_by_id(s),
        0 <= i < s.len(),
    ensures
        s[i].id.0 >= i,
    decreases i,
{
    if i > 0 {
        lemma_sorted_id_min(s, i - 1);
    }
}

/// A strictly sorted fleet whose ids all lie below `bound` holds at most
/// `bound` entries.
proof fn lemma_sorted_len_bound(s: Seq<Backend>, bound: nat)
    requires
        crate::sorted_by_id(s),
        forall|x: BackendId| has_backend(s, x) ==> x.0 < bound,
    ensures
        s.len() <= bound,
{
    if s.len() > bound {
        lemma_sorted_id_min(s, bound as int);
        assert(has_backend(s, s[bound as int].id)) by {
            assert(s[bound as int].id == s[bound as int].id);
        }
        assert(false);
    }
}

/// The simulation's own record of the fleet: which ids exist and what their
/// actual health is, kept sorted by id.
pub struct Simulation {
    backends: Vec<Backend>,
}

impl Simulation {
    /// The recorded fleet, sorted by id.
    pub closed spec fn fleet(&self) -> Seq<Backend> {
        self.backends@
    }

    /// The record is strictly sorted by id.
    pub closed spec fn wf(&self) -> bool {
        &&& crate::sorted_by_id(self.backends@)
        &&& crate::hashes_consistent(self.backends@)
    }

    /// An empty record.
    pub fn new() -> (r: Self)
        ensures
            r.wf(),
            r.fleet() == Seq::<Backend>::empty(),
    {
        Simulation { backends: Vec::new() }
    }

    /// Record this id as existing with this health.
    pub fn set(&mut self, id: BackendId, health: Health)
        requires
            old(self).wf(),
        ensures
            final(self).wf(),
            forall|x: BackendId|
                has_backend(final(self).fleet(), x) <==> (has_backend(old(self).fleet(), x) || x
                    == id),
            up_with_id(final(self).fleet(), id) <==> health == Health::Up,
            forall|x: BackendId|
                x != id ==> (up_with_id(final(self).fleet(), x) <==> up_with_id(
                    old(self).fleet(),
                    x,
                )),
    {
        let ghost s0 = self.backends@;
        crate::fleet::upsert_sorted(&mut self.backends, id, health);
        proof {
            if has_backend(s0, id) {
                let i = choose|i: int|
                    0 <= i < s0.len() && #[trigger] s0[i].id == id && self.backends@ == s0.update(
                        i,
                        (Backend { id, health, hash: s0[i].hash }),
                    );
                crate::lemma_update_same_ids(
                    s0,
                    self.backends@,
                    i,
                    Backend { id, health, hash: s0[i].hash },
                );
                crate::lemma_sorted_ids_unique(s0);
                crate::lemma_update_up_ids(
                    s0,
                    self.backends@,
                    i,
                    Backend { id, health, hash: s0[i].hash },
                );
            } else {
                let p = choose|p: int|
                    0 <= p <= s0.len() && self.backends@ == s0.insert(
                        p,
                        (Backend { id, health, hash: crate::hash_of(id.0) }),
                    );
                crate::lemma_insert_adds_id(
                    s0,
                    self.backends@,
                    p,
                    Backend { id, health, hash: crate::hash_of(id.0) },
                );
                crate::lemma_insert_up_ids(
                    s0,
                    self.backends@,
                    p,
                    Backend { id, health, hash: crate::hash_of(id.0) },
                );
            }
        }
    }

    /// Record this id as gone.
    pub fn remove(&mut self, id: BackendId)
        requires
            old(self).wf(),
        ensures
            final(self).wf(),
            forall|x: BackendId|
                has_backend(final(self).fleet(), x) <==> (has_backend(old(self).fleet(), x) && x
                    != id),
            forall|x: BackendId|
                up_with_id(final(self).fleet(), x) <==> (up_with_id(old(self).fleet(), x) && x
                    != id),
    {
        let ghost s0 = self.backends@;
        crate::fleet::remove_by_id(&mut self.backends, id);
        proof {
            crate::lemma_sorted_ids_unique(s0);
            if has_backend(s0, id) {
                let i = choose|i: int|
                    0 <= i < s0.len() && #[trigger] s0[i].id == id && self.backends@ == s0.remove(
                        i,
                    );
                crate::lemma_remove_deletes_id(s0, self.backends@, i);
                crate::lemma_remove_up_ids(s0, self.backends@, i);
                if up_with_id(s0, id) {
                    let j = choose|j: int|
                        0 <= j < s0.len() && #[trigger] s0[j].id == id && s0[j].health
                            == Health::Up;
                    assert(j == i);
                }
            } else {
                assert forall|x: BackendId| up_with_id(self.backends@, x) implies (up_with_id(
                    s0,
                    x,
                ) && x != id) by {
                    let j = choose|j: int|
                        0 <= j < self.backends@.len() && #[trigger] self.backends@[j].id == x
                            && self.backends@[j].health == Health::Up;
                    assert(has_backend(s0, x));
                }
            }
        }
    }

    /// The recorded health of this id, or `None` if it is not recorded.
    pub fn health_of(&self, id: BackendId) -> (r: Option<Health>)
        requires
            self.wf(),
        ensures
            r is Some <==> has_backend(self.fleet(), id),
            r is Some ==> exists|i: int|
                0 <= i < self.fleet().len() && #[trigger] self.fleet()[i].id == id
                    && self.fleet()[i].health == r->0,
    {
        let n = self.backends.len();
        let mut i: usize = 0;
        while i < n
            invariant
                self.wf(),
                n == self.backends@.len(),
                i <= n,
                forall|j: int| 0 <= j < i ==> self.backends@[j].id != id,
            decreases n - i,
        {
            if self.backends[i].id == id {
                proof {
                    assert(self.fleet()[i as int].id == id);
                }
                return Some(self.backends[i].health);
            }
            i += 1;
        }
        None
    }

    /// How many recorded backends are `Up`.
    pub fn count_up(&self) -> (r: usize)
        ensures
            r as int == count_up_backends(self.fleet()),
    {
        let n = self.backends.len();
        let mut c: usize = 0;
        let mut i: usize = 0;
        while i < n
            invariant
                n == self.backends@.len(),
                i <= n,
                c as int == count_up_backends(self.backends@.take(i as int)),
                c <= i,
            decreases n - i,
        {
            proof {
                assert(self.backends@.take(i + 1).drop_last() =~= self.backends@.take(i as int));
                assert(self.backends@.take(i + 1).last() == self.backends@[i as int]);
            }
            if matches!(self.backends[i].health, Health::Up) {
                c += 1;
            }
            i += 1;
        }
        proof {
            assert(self.backends@.take(n as int) =~= self.backends@);
        }
        c
    }
}

/// A growing record of the distinct backends one tenant has been routed to.
pub struct TouchedSet {
    ids: Vec<BackendId>,
}

impl TouchedSet {
    /// The ids seen so far, each exactly once.
    pub closed spec fn ids_seen(&self) -> Seq<BackendId> {
        self.ids@
    }

    /// No id is recorded twice, so the record's length is the number of
    /// distinct backends touched.
    pub closed spec fn wf(&self) -> bool {
        self.ids@.no_duplicates()
    }

    /// An empty record.
    pub fn new() -> (r: Self)
        ensures
            r.wf(),
            r.ids_seen() == Seq::<BackendId>::empty(),
    {
        TouchedSet { ids: Vec::new() }
    }

    /// Record one more id: afterwards exactly the old ids plus this one are
    /// recorded, still without duplicates.
    pub fn insert(&mut self, id: BackendId)
        requires
            old(self).wf(),
        ensures
            final(self).wf(),
            final(self).ids_seen().contains(id),
            forall|x: BackendId|
                final(self).ids_seen().contains(x) <==> (old(self).ids_seen().contains(x) || x
                    == id),
            old(self).ids_seen().contains(id) ==> final(self).ids_seen() == old(self).ids_seen(),
            !old(self).ids_seen().contains(id) ==> final(self).ids_seen() == old(
                self,
            ).ids_seen().push(id),
    {
        let n = self.ids.len();
        let mut i: usize = 0;
        while i < n
            invariant
                old(self).wf(),
                n == self.ids@.len(),
                i <= n,
                *self == *old(self),
                forall|j: int| 0 <= j < i ==> self.ids@[j] != id,
            decreases n - i,
        {
            if self.ids[i].0 == id.0 {
                proof {
                    assert(self.ids@[i as int] == id);
                    assert(old(self).ids_seen().contains(id));
                }
                return ;
            }
            i += 1;
        }
        proof {
            assert(!old(self).ids_seen().contains(id));
        }
        self.ids.push(id);
        proof {
            assert(self.ids@[n as int] == id);
            assert forall|x: BackendId| self.ids@.contains(x) implies (old(
                self,
            ).ids_seen().contains(x) || x == id) by {
                let j = choose|j: int| 0 <= j < self.ids@.len() && self.ids@[j] == x;
                if j < n {
                    assert(old(self).ids_seen()[j] == x);
                }
            }
            assert forall|x: BackendId| (old(self).ids_seen().contains(x) || x == id)
                implies self.ids@.contains(x) by {
                if x == id {
                    assert(self.ids@[n as int] == x);
                } else {
                    let j = choose|j: int|
                        0 <= j < old(self).ids_seen().len() && old(self).ids_seen()[j] == x;
                    assert(self.ids@[j] == x);
                }
            }
            assert(self.ids@.no_duplicates()) by {
                assert forall|a: int, b: int|
                    0 <= a < b < self.ids@.len() implies self.ids@[a] != self.ids@[b] by {
                    if b == n {
                        assert(old(self).ids_seen()[a] == self.ids@[a]);
                        assert(!old(self).ids_seen().contains(id));
                    } else {
                        assert(old(self).ids_seen()[a] == self.ids@[a]);
                        assert(old(self).ids_seen()[b] == self.ids@[b]);
                    }
                }
            }
        }
    }

    /// How many distinct ids were recorded.
    pub fn len(&self) -> (r: usize)
        ensures
            r == self.ids_seen().len(),
    {
        self.ids.len()
    }
}

/// A duplicate-free record whose ids all lie below `bound` holds at most
/// `bound` entries.
proof fn lemma_touched_len_bound(ids: Seq<BackendId>, bound: nat)
    requires
        ids.no_duplicates(),
        forall|j: int| 0 <= j < ids.len() ==> #[trigger] ids[j].0 < bound,
    ensures
        ids.len() <= bound,
{
    broadcast use vstd::set::group_set_axioms;
    broadcast use vstd::seq_lib::seq_to_set_is_finite;

    ids.unique_seq_to_set();
    let range = vstd::set_lib::set_int_range(0, bound as int);
    vstd::set_lib::lemma_int_range(0, bound as int);
    let f = |b: BackendId| b.0 as int;
    let image = ids.to_set().map(f);
    vstd::set_lib::lemma_map_size(ids.to_set(), image, f);
    assert forall|v: int| image.contains(v) implies range.contains(v) by {
        let b = choose|b: BackendId| ids.to_set().contains(b) && f(b) == v;
        assert(ids.contains(b));
        let j = choose|j: int| 0 <= j < ids.len() && ids[j] == b;
        assert(ids[j].0 < bound);
    }
    assert(image.subset_of(range));
    vstd::set_lib::lemma_len_subset(image, range);
}

/// Every backend the picker could return is one the simulation records.
pub open spec fn covered(p: AnyPicker, s: Simulation) -> bool {
    forall|x: BackendId| p.has_member(x) ==> has_backend(s.fleet(), x)
}

/// Where the picker stores health at all, everything it holds as healthy is
/// recorded as `Up` by the simulation.
pub open spec fn health_linked(p: AnyPicker, s: Simulation) -> bool {
    p.knows_health() ==> forall|x: BackendId| p.has_up_member(x) ==> up_with_id(s.fleet(), x)
}

/// One routed request: pick with the given picker and look the choice up in
/// the simulation's record. Reports `FleetTooSmall` when the picker refuses
/// to pick and `NoRoute` when it finds no candidate; since the picker only
/// returns members and the simulation records them all, the choice is
/// always found, and is handed back with its recorded health. A pick that
/// is both allowed and in a guaranteed state succeeds outright, and a
/// health-storing picker's choice is recorded `Up`.
fn route_once(p: &mut AnyPicker, s: &Simulation, t: TenantId) -> (r: Result<
    (BackendId, Health),
    SimError,
>)
    requires
        old(p).inv(),
        s.wf(),
        covered(*old(p), *s),
        health_linked(*old(p), *s),
    ensures
        final(p).inv(),
        covered(*final(p), *s),
        health_linked(*final(p), *s),
        final(p).member_count() == old(p).member_count(),
        final(p).pick_allowed() == old(p).pick_allowed(),
        final(p).pick_certain() == old(p).pick_certain(),
        final(p).knows_health() == old(p).knows_health(),
        final(p).pick_bar() == old(p).pick_bar(),
        final(p).kind_of() == old(p).kind_of(),
        forall|x: BackendId| final(p).has_member(x) == old(p).has_member(x),
        forall|x: BackendId| final(p).has_up_member(x) == old(p).has_up_member(x),
        r matches Err(e) ==> e == SimError::FleetTooSmall || e == SimError::NoRoute,
        old(p).pick_allowed() ==> !(r == Err::<(BackendId, Health), SimError>(
            SimError::FleetTooSmall,
        )),
        old(p).pick_allowed() && old(p).pick_certain() ==> r is Ok,
        r matches Ok(bh) ==> exists|i: int|
            0 <= i < s.fleet().len() && #[trigger] s.fleet()[i].id == bh.0 && s.fleet()[i].health
                == bh.1,
        old(p).knows_health() ==> (r matches Ok(bh) ==> bh.1 == Health::Up),
{
    if !p.can_pick() {
        return Err(SimError::FleetTooSmall);
    }
    let choice = p.pick(t);
    match choice {
        None => Err(SimError::NoRoute),
        Some(b) => {
            match s.health_of(b) {
                None => {
                    // Unreachable: the pick was a member, so the record
                    // holds it.
                    proof {
                        assert(old(p).has_member(b));
                        assert(false);
                    }
                    Err(SimError::NoRoute)
                },
                Some(h) => {
                    proof {
                        if old(p).knows_health() {
                            // The pick was a healthy member, the record
                            // holds it as Up, and ids are unique, so the
                            // returned health is Up.
                            assert(old(p).has_up_member(b));
                            assert(up_with_id(s.fleet(), b));
                            let i = choose|i: int|
                                0 <= i < s.fleet().len() && #[trigger] s.fleet()[i].id == b
                                    && s.fleet()[i].health == h;
                            let j = choose|j: int|
                                0 <= j < s.fleet().len() && #[trigger] s.fleet()[j].id == b
                                    && s.fleet()[j].health == Health::Up;
                            crate::lemma_sorted_ids_unique(s.fleet());
                            assert(i == j);
                        }
                    }
                    Ok((b, h))
                },
            }
        },
    }
}

/// Record a backend with both the simulation and the picker, keeping the
/// simulation's record covering everything the picker could return and
/// agreeing with it on health.
fn register_with(s: &mut Simulation, p: &mut AnyPicker, id: BackendId, health: Health)
    requires
        old(s).wf(),
        old(p).inv(),
        covered(*old(p), *old(s)),
        health_linked(*old(p), *old(s)),
    ensures
        final(s).wf(),
        final(p).inv(),
        covered(*final(p), *final(s)),
        health_linked(*final(p), *final(s)),
        forall|x: BackendId|
            has_backend(final(s).fleet(), x) <==> (has_backend(old(s).fleet(), x) || x == id),
        up_with_id(final(s).fleet(), id) <==> health == Health::Up,
        forall|x: BackendId|
            x != id ==> (up_with_id(final(s).fleet(), x) <==> up_with_id(old(s).fleet(), x)),
        health != Health::Draining ==> forall|x: BackendId|
            final(p).has_member(x) <==> (old(p).has_member(x) || x == id),
        forall|x: BackendId| final(p).has_member(x) ==> (old(p).has_member(x) || x == id),
        health != Health::Draining && old(p).has_member(id) ==> final(p).member_count() == old(
            p,
        ).member_count(),
        health != Health::Draining && !old(p).has_member(id) ==> final(p).member_count() == old(
            p,
        ).member_count() + 1,
        old(p).member_count() <= final(p).member_count() + 1,
        health != Health::Draining ==> (old(p).pick_allowed() ==> final(p).pick_allowed()),
        health == Health::Up ==> forall|x: BackendId|
            final(p).has_up_member(x) <==> (old(p).has_up_member(x) || x == id),
        forall|x: BackendId| x != id ==> (final(p).has_up_member(x) == old(p).has_up_member(x)),
        health != Health::Up && old(p).knows_health() ==> !final(p).has_up_member(id),
        final(p).knows_health() == old(p).knows_health(),
        final(p).pick_bar() == old(p).pick_bar(),
        final(p).kind_of() == old(p).kind_of(),
        health == Health::Draining && old(p).kind_of() == PickerKind::RendevouzShuffle
            ==> forall|x: BackendId|
            final(p).has_member(x) <==> (old(p).has_member(x) && x != id),
        health == Health::Draining && old(p).kind_of() == PickerKind::RendevouzShuffle && old(
            p,
        ).has_member(id) ==> final(p).member_count() + 1 == old(p).member_count(),
        health == Health::Draining && old(p).kind_of() == PickerKind::RendevouzShuffle && !old(
            p,
        ).has_member(id) ==> final(p).member_count() == old(p).member_count(),
        health == Health::Draining && old(p).kind_of() != PickerKind::RendevouzShuffle
            ==> forall|x: BackendId|
            final(p).has_member(x) <==> (old(p).has_member(x) || x == id),
{
    s.set(id, health);
    p.register(id, health);
    proof {
        assert forall|x: BackendId| p.has_member(x) implies has_backend(s.fleet(), x) by {
            assert(old(p).has_member(x) || x == id);
        }
        if p.knows_health() {
            assert forall|x: BackendId| p.has_up_member(x) implies up_with_id(s.fleet(), x) by {
                if x != id {
                    assert(old(p).has_up_member(x));
                } else {
                    assert(health == Health::Up);
                }
            }
        }
    }
}

/// Remove a backend from both the simulation and the picker, keeping the
/// simulation's record covering everything the picker could return and
/// agreeing with it on health.
fn unregister_with(s: &mut Simulation, p: &mut AnyPicker, id: BackendId)
    requires
        old(s).wf(),
        old(p).inv(),
        covered(*old(p), *old(s)),
        health_linked(*old(p), *old(s)),
    ensures
        final(s).wf(),
        final(p).inv(),
        covered(*final(p), *final(s)),
        health_linked(*final(p), *final(s)),
        forall|x: BackendId|
            has_backend(final(s).fleet(), x) <==> (has_backend(old(s).fleet(), x) && x != id),
        forall|x: BackendId|
            up_with_id(final(s).fleet(), x) <==> (up_with_id(old(s).fleet(), x) && x != id),
        forall|x: BackendId| final(p).has_member(x) <==> (old(p).has_member(x) && x != id),
        forall|x: BackendId| final(p).has_up_member(x) <==> (old(p).has_up_member(x) && x != id),
        old(p).has_member(id) ==> final(p).member_count() + 1 == old(p).member_count(),
        !old(p).has_member(id) ==> final(p).member_count() == old(p).member_count(),
        final(p).knows_health() == old(p).knows_health(),
        final(p).pick_bar() == old(p).pick_bar(),
        final(p).kind_of() == old(p).kind_of(),
{
    s.remove(id);
    p.unregister(id);
    proof {
        assert forall|x: BackendId| p.has_member(x) implies has_backend(s.fleet(), x) by {
            assert(old(p).has_member(x) && x != id);
        }
        if p.knows_health() {
            assert forall|x: BackendId| p.has_up_member(x) implies up_with_id(s.fleet(), x) by {
                assert(old(p).has_up_member(x) && x != id);
            }
        }
    }
}

/// Scenario: with one backend known to be unhealthy from the start, no
/// request of any tenant may be routed to it. Every health-storing picker
/// provably never reports an unhealthy route; whether it completes at all
/// depends on its draws. `NaiveShuffle` knowingly stores no health.
pub fn health_aware(kind: PickerKind) -> (r: Result<(), SimError>)
    ensures
        kind != PickerKind::NaiveShuffle ==> !(r == Err::<(), SimError>(SimError::UnhealthyRoute)),
{
    let mut s = Simulation::new();
    let mut p = AnyPicker::new(kind, 5);
    let mut i: u64 = 0;
    while i < 30
        invariant
            s.wf(),
            p.inv(),
            covered(p, s),
            health_linked(p, s),
            p.knows_health() == (kind != PickerKind::NaiveShuffle),
        decreases 30 - i,
    {
        let h = if i == 0 {
            Health::Down
        } else {
            Health::Up
        };
        register_with(&mut s, &mut p, BackendId(i), h);
        i += 1;
    }
    let mut tenant: u64 = 0;
    while tenant < 100
        invariant
            s.wf(),
            p.inv(),
            covered(p, s),
            health_linked(p, s),
            p.knows_health() == (kind != PickerKind::NaiveShuffle),
        decreases 100 - tenant,
    {
        let mut n: u64 = 0;
        while n < 100
            invariant
                s.wf(),
                p.inv(),
                covered(p, s),
                health_linked(p, s),
                p.knows_health() == (kind != PickerKind::NaiveShuffle),
            decreases 100 - n,
        {
            match route_once(&mut p, &s, TenantId(tenant)) {
                Err(e) => {
                    return Err(e);
                },
                Ok((_b, h)) => {
                    if !matches!(h, Health::Up) {
                        // Only the health-blind picker can reach this.
                        proof {
                            assert(kind == PickerKind::NaiveShuffle);
                        }
                        return Err(SimError::UnhealthyRoute);
                    }
                },
            }
            n += 1;
        }
        tenant += 1;
    }
    Ok(())
}

/// Scenario: tenant 0 poisons every backend it is routed to, marking it
/// `Down` after each pick, for up to a thousand picks. This always
/// completes, and returns how many backends of the thirty are still `Up` at
/// the end: a picker that confines the tenant to its shard keeps most of
/// the fleet alive, while a tenant-agnostic picker lets it take everything
/// down.
pub fn poison_pill(kind: PickerKind) -> (r: Result<u64, SimError>)
    ensures
        r is Ok,
        r matches Ok(n) ==> n <= 30,
{
    let mut s = Simulation::new();
    let mut p = AnyPicker::new(kind, 5);
    let mut i: u64 = 0;
    while i < 30
        invariant
            s.wf(),
            p.inv(),
            covered(p, s),
            health_linked(p, s),
            i <= 30,
            p.member_count() == i,
            p.pick_bar() <= 5,
            forall|x: BackendId| p.has_member(x) ==> x.0 < i,
            forall|x: BackendId| has_backend(s.fleet(), x) ==> x.0 < i,
        decreases 30 - i,
    {
        proof {
            assert(!p.has_member(BackendId(i)));
        }
        register_with(&mut s, &mut p, BackendId(i), Health::Up);
        i += 1;
    }
    proof {
        lemma_allowed(&p);
    }
    let mut n: u64 = 0;
    while n < 1000
        invariant
            s.wf(),
            p.inv(),
            covered(p, s),
            health_linked(p, s),
            p.pick_allowed(),
            forall|x: BackendId| has_backend(s.fleet(), x) ==> x.0 < 30,
        decreases 1000 - n,
    {
        match p.pick(TenantId(0)) {
            None => {
                let remaining = s.count_up();
                proof {
                    lemma_count_up_le_len(s.fleet());
                    lemma_sorted_len_bound(s.fleet(), 30);
                }
                return Ok(remaining as u64);
            },
            Some(b) => {
                proof {
                    assert(has_backend(s.fleet(), b));
                }
                register_with(&mut s, &mut p, b, Health::Down);
            },
        }
        n += 1;
    }
    let remaining = s.count_up();
    proof {
        lemma_count_up_le_len(s.fleet());
        lemma_sorted_len_bound(s.fleet(), 30);
    }
    Ok(remaining as u64)
}

/// The sum of a vector of counters.
pub open spec fn counter_sum(s: Seq<u64>) -> int
    decreases s.len(),
{
    if s.len() == 0 {
        0
    } else {
        counter_sum(s.drop_last()) + s.last()
    }
}

proof fn lemma_counter_sum_nonneg(s: Seq<u64>)
    ensures
        counter_sum(s) >= 0,
    decreases s.len(),
{
    if s.len() > 0 {
        lemma_counter_sum_nonneg(s.drop_last());
    }
}

proof fn lemma_counter_entry_le_sum(s: Seq<u64>, i: int)
    requires
        0 <= i < s.len(),
    ensures
        s[i] <= counter_sum(s),
    decreases s.len(),
{
    lemma_counter_sum_nonneg(s.drop_last());
    if i < s.len() - 1 {
        lemma_counter_entry_le_sum(s.drop_last(), i);
        assert(s.drop_last()[i] == s[i]);
    }
}

proof fn lemma_counter_sum_update(s: Seq<u64>, i: int, v: u64)
    requires
        0 <= i < s.len(),
    ensures
        counter_sum(s.update(i, v)) == counter_sum(s) - s[i] + v,
    decreases s.len(),
{
    let s2 = s.update(i, v);
    if i == s.len() - 1 {
        assert(s2.drop_last() =~= s.drop_last());
    } else {
        assert(s2.drop_last() =~= s.drop_last().update(i, v));
        assert(s2.last() == s.last());
        lemma_counter_sum_update(s.drop_last(), i, v);
    }
}

/// If every counter is at least `m`, the sum is at least `m` per counter.
proof fn lemma_counter_sum_lower(s: Seq<u64>, m: u64)
    requires
        forall|i: int| 0 <= i < s.len() ==> #[trigger] s[i] >= m,
    ensures
        counter_sum(s) >= m * s.len(),
    decreases s.len(),
{
    if s.len() == 0 {
    } else {
        lemma_counter_sum_lower(s.drop_last(), m);
        assert(s.last() >= m);
        assert(m * (s.len() - 1) + m == m * s.len()) by (nonlinear_arith);
    }
}

/// Scenario: 50 backends, 100 tenants, 100 picks each. The fleet always
/// reaches the pick bar, so the scenario fails only when a picker finds no
/// candidate. On success it returns the smallest number of requests any
/// backend received, at most the fair share of 200; a picker with
/// reasonable load distribution gives every backend a decent part of it.
pub fn load_distribution(kind: PickerKind) -> (r: Result<u64, SimError>)
    ensures
        !(r == Err::<u64, SimError>(SimError::FleetTooSmall)),
        r matches Ok(m) ==> m <= 200,
{
    let mut s = Simulation::new();
    let mut p = AnyPicker::new(kind, 5);
    let mut i: u64 = 0;
    while i < 50
        invariant
            s.wf(),
            p.inv(),
            covered(p, s),
            health_linked(p, s),
            i <= 50,
            p.member_count() == i,
            p.pick_bar() <= 5,
            forall|x: BackendId| p.has_member(x) ==> x.0 < i,
            forall|x: BackendId| has_backend(s.fleet(), x) ==> x.0 < i,
        decreases 50 - i,
    {
        proof {
            assert(!p.has_member(BackendId(i)));
        }
        register_with(&mut s, &mut p, BackendId(i), Health::Up);
        i += 1;
    }
    proof {
        lemma_allowed(&p);
    }
    let mut tally: Vec<u64> = Vec::new();
    let mut j: usize = 0;
    while j < 50
        invariant
            tally@.len() == j,
            j <= 50,
            counter_sum(tally@) == 0,
        decreases 50 - j,
    {
        proof {
            assert(tally@.push(0u64).drop_last() =~= tally@);
        }
        tally.push(0);
        j += 1;
    }
    let mut tenant: u64 = 0;
    while tenant < 100
        invariant
            s.wf(),
            p.inv(),
            covered(p, s),
            health_linked(p, s),
            p.pick_allowed(),
            forall|x: BackendId| has_backend(s.fleet(), x) ==> x.0 < 50,
            tally@.len() == 50,
            tenant <= 100,
            counter_sum(tally@) <= tenant * 100,
        decreases 100 - tenant,
    {
        let mut n: u64 = 0;
        while n < 100
            invariant
                s.wf(),
                p.inv(),
                covered(p, s),
                health_linked(p, s),
                p.pick_allowed(),
                forall|x: BackendId| has_backend(s.fleet(), x) ==> x.0 < 50,
                tally@.len() == 50,
                tenant < 100,
                n <= 100,
                counter_sum(tally@) <= tenant * 100 + n,
            decreases 100 - n,
        {
            match route_once(&mut p, &s, TenantId(tenant)) {
                Err(e) => {
                    return Err(e);
                },
                Ok((b, _h)) => {
                    proof {
                        let i2 = choose|i2: int|
                            0 <= i2 < s.fleet().len() && #[trigger] s.fleet()[i2].id == b
                                && s.fleet()[i2].health == _h;
                        assert(has_backend(s.fleet(), b));
                    }
                    let idx = b.0 as usize;
                    let c = tally[idx];
                    proof {
                        lemma_counter_entry_le_sum(tally@, idx as int);
                        lemma_counter_sum_update(tally@, idx as int, (c + 1) as u64);
                    }
                    tally.set(idx, c + 1);
                },
            }
            n += 1;
        }
        tenant += 1;
    }
    let mut min: u64 = u64::MAX;
    let mut q: usize = 0;
    while q < 50
        invariant
            tally@.len() == 50,
            q <= 50,
            counter_sum(tally@) <= 10000,
            q == 0 ==> min == u64::MAX,
            forall|q2: int| 0 <= q2 < q ==> #[trigger] tally@[q2] >= min,
            q > 0 ==> exists|q2: int| 0 <= q2 < q && #[trigger] tally@[q2] == min,
        decreases 50 - q,
    {
        if tally[q] < min {
            min = tally[q];
            proof {
                assert(tally@[q as int] == min);
            }
        } else {
            proof {
                if q == 0 {
                    assert(tally@[0] == min);
                } else {
                    let w = choose|w: int| 0 <= w < q && #[trigger] tally@[w] == min;
                    assert(tally@[w] == min);
                }
            }
        }
        q += 1;
    }
    proof {
        // Fifty counters summing to at most 10000 cannot all exceed 200.
        if min > 200 {
            lemma_counter_sum_lower(tally@, min);
            assert(min * 50 >= 201 * 50) by (nonlinear_arith)
                requires
                    min >= 201,
            ;
        }
    }
    Ok(min)
}

/// No position of `order` between `lo` (inclusive) and `hi` (exclusive)
/// holds this id.
pub open spec fn outside(order: Seq<BackendId>, lo: int, hi: int, x: BackendId) -> bool {
    forall|w: int| lo <= w < hi ==> order[w] != x
}

/// The health-blind picker holds every member as healthy.
proof fn lemma_naive_up_is_member(p: &AnyPicker)
    requires
        p.kind_of() == PickerKind::NaiveShuffle,
    ensures
        forall|x: BackendId| p.has_up_member(x) == p.has_member(x),
{
    match p {
        AnyPicker::NaiveShuffle(_) => {
        },
        _ => {
        },
    }
}

/// A healthy member makes a cursor or rendezvous pick certain.
proof fn lemma_up_member_certain(p: &AnyPicker, x: BackendId)
    requires
        p.has_up_member(x),
        p.kind_of() == PickerKind::RoundRobin || p.kind_of() == PickerKind::Rendevouz,
    ensures
        p.pick_certain(),
{
    match p {
        AnyPicker::RoundRobin(q) => {
            assert(up_with_id(q.fleet(), x));
        },
        AnyPicker::Rendevouz(q) => {
            assert(up_with_id(q.fleet(), x));
        },
        _ => {},
    }
}

/// When every member is healthy, a rendezvous-shuffle pick is certain.
proof fn lemma_all_up_certain(p: &AnyPicker)
    requires
        p.kind_of() == PickerKind::RendevouzShuffle,
        forall|x: BackendId| p.has_member(x) ==> p.has_up_member(x),
    ensures
        p.pick_certain(),
{
    match p {
        AnyPicker::RendevouzShuffle(q) => {
            assert forall|x: BackendId| has_backend(q.fleet(), x) implies up_with_id(
                q.fleet(),
                x,
            ) by {
                assert(p.has_member(x));
            }
        },
        _ => {},
    }
}

/// Scenario: a rolling restart in thirds, in an order unaligned with any
/// block structure. Each stage marks ten of the thirty backends `Draining`,
/// routes requests for two thousand tenants, and then restores the drained
/// third to `Up`. `Ok` reports that every request was routed, and routed to
/// an `Up` backend, throughout. For the cursor and the two rendezvous
/// pickers this is guaranteed: no random draw can strand them; and no
/// health-storing picker ever reports an unhealthy route.
pub fn unaligned_rolling_restart(kind: PickerKind) -> (r: Result<(), SimError>)
    ensures
        kind == PickerKind::RoundRobin || kind == PickerKind::Rendevouz || kind
            == PickerKind::RendevouzShuffle ==> r is Ok,
        kind != PickerKind::NaiveShuffle ==> !(r == Err::<(), SimError>(SimError::UnhealthyRoute)),
{
    let mut s = Simulation::new();
    let mut p = AnyPicker::new(kind, 5);
    let mut order: Vec<BackendId> = Vec::new();
    let mut i: u64 = 0;
    while i < 30
        invariant
            s.wf(),
            p.inv(),
            covered(p, s),
            health_linked(p, s),
            p.kind_of() == kind,
            p.knows_health() == (kind != PickerKind::NaiveShuffle),
            p.pick_bar() <= 5,
            kind != PickerKind::RendevouzShuffle ==> p.pick_bar() == 0,
            i <= 30,
            p.member_count() == i,
            forall|x: BackendId| p.has_member(x) <==> x.0 < i,
            forall|x: BackendId| p.has_up_member(x) <==> x.0 < i,
            order@.len() == i,
            forall|j: int| 0 <= j < i ==> order@[j] == BackendId(j as u64),
        decreases 30 - i,
    {
        proof {
            assert(!p.has_member(BackendId(i)));
        }
        register_with(&mut s, &mut p, BackendId(i), Health::Up);
        order.push(BackendId(i));
        i += 1;
    }
    let ghost orig = order@;
    let mut prng = rng_from_seed(42);
    shuffle_ids(&mut order, &mut prng);
    proof {
        broadcast use vstd::seq_lib::group_to_multiset_ensures;

        assert(orig.no_duplicates());
        orig.lemma_multiset_has_no_duplicates();
        order@.lemma_multiset_has_no_duplicates_conv();
        assert forall|j: int| 0 <= j < order@.len() implies #[trigger] order@[j].0 < 30 by {
            let x = order@[j];
            assert(order@.contains(x));
            assert(order@.to_multiset().count(x) > 0);
            assert(orig.to_multiset().count(x) > 0);
            assert(orig.contains(x));
            let w = choose|w: int| 0 <= w < orig.len() && orig[w] == x;
        }
    }
    let mut stage: usize = 0;
    while stage < 3
        invariant
            s.wf(),
            p.inv(),
            covered(p, s),
            health_linked(p, s),
            p.kind_of() == kind,
            p.knows_health() == (kind != PickerKind::NaiveShuffle),
            p.pick_bar() <= 5,
            kind != PickerKind::RendevouzShuffle ==> p.pick_bar() == 0,
            kind == PickerKind::RendevouzShuffle ==> p.member_count() == 30,
            forall|x: BackendId| p.has_member(x) <==> x.0 < 30,
            forall|x: BackendId| p.has_up_member(x) <==> x.0 < 30,
            order@.len() == 30,
            order@.no_duplicates(),
            forall|j: int| 0 <= j < 30 ==> #[trigger] order@[j].0 < 30,
        decreases 3 - stage,
    {
        let ghost lo = stage as int * 10;
        let mut d: usize = 0;
        while d < 10
            invariant
                s.wf(),
                p.inv(),
                covered(p, s),
                health_linked(p, s),
                p.kind_of() == kind,
                p.knows_health() == (kind != PickerKind::NaiveShuffle),
                p.pick_bar() <= 5,
                kind != PickerKind::RendevouzShuffle ==> p.pick_bar() == 0,
                stage < 3,
                lo == stage as int * 10,
                d <= 10,
                kind == PickerKind::RendevouzShuffle ==> p.member_count() == 30 - d,
                kind != PickerKind::RendevouzShuffle ==> forall|x: BackendId|
                    p.has_member(x) <==> x.0 < 30,
                kind == PickerKind::RendevouzShuffle ==> forall|x: BackendId|
                    p.has_member(x) <==> (x.0 < 30 && outside(order@, lo, lo + d, x)),
                kind != PickerKind::NaiveShuffle ==> forall|x: BackendId|
                    p.has_up_member(x) <==> (x.0 < 30 && outside(order@, lo, lo + d, x)),
                kind == PickerKind::NaiveShuffle ==> forall|x: BackendId|
                    p.has_up_member(x) <==> x.0 < 30,
                order@.len() == 30,
                order@.no_duplicates(),
                forall|j: int| 0 <= j < 30 ==> #[trigger] order@[j].0 < 30,
            decreases 10 - d,
        {
            let b = order[stage * 10 + d];
            proof {
                assert(order@[lo + d].0 < 30);
                assert(outside(order@, lo, lo + d, b)) by {
                    assert forall|w: int| lo <= w < lo + d implies order@[w] != b by {
                        assert(order@[w] != order@[lo + d]);
                    }
                }
            }
            register_with(&mut s, &mut p, b, Health::Draining);
            proof {
                if kind == PickerKind::NaiveShuffle {
                    lemma_naive_up_is_member(&p);
                }
                assert forall|x: BackendId|
                    #[trigger] outside(order@, lo, lo + d + 1, x) implies (outside(
                    order@,
                    lo,
                    lo + d,
                    x,
                ) && order@[lo + d] != x) by {
                    assert(order@[lo + d] != x);
                }
            }
            d += 1;
        }
        proof {
            // One undrained backend stays provably healthy: position 10 of
            // the shuffled order for the first stage, position 0 afterwards.
            let wkeep: int = if stage == 0 {
                10
            } else {
                0
            };
            let xkeep = order@[wkeep];
            assert(outside(order@, lo, lo + 10, xkeep)) by {
                assert forall|w: int| lo <= w < lo + 10 implies order@[w] != xkeep by {
                    assert(order@[w] != order@[wkeep]);
                }
            }
            if kind != PickerKind::NaiveShuffle {
                assert(p.has_up_member(xkeep));
            } else {
                assert(p.has_up_member(xkeep));
            }
            if kind == PickerKind::RoundRobin || kind == PickerKind::Rendevouz {
                lemma_up_member_certain(&p, xkeep);
                lemma_allowed(&p);
            }
            if kind == PickerKind::RendevouzShuffle {
                lemma_all_up_certain(&p);
                lemma_allowed(&p);
            }
        }
        let mut tenant: u64 = 0;
        while tenant < 2000
            invariant
                s.wf(),
                p.inv(),
                covered(p, s),
                health_linked(p, s),
                p.kind_of() == kind,
                p.knows_health() == (kind != PickerKind::NaiveShuffle),
                p.pick_bar() <= 5,
                kind != PickerKind::RendevouzShuffle ==> p.pick_bar() == 0,
                stage < 3,
                lo == stage as int * 10,
                kind == PickerKind::RendevouzShuffle ==> p.member_count() == 20,
                kind != PickerKind::RendevouzShuffle ==> forall|x: BackendId|
                    p.has_member(x) <==> x.0 < 30,
                kind == PickerKind::RendevouzShuffle ==> forall|x: BackendId|
                    p.has_member(x) <==> (x.0 < 30 && outside(order@, lo, lo + 10, x)),
                kind != PickerKind::NaiveShuffle ==> forall|x: BackendId|
                    p.has_up_member(x) <==> (x.0 < 30 && outside(order@, lo, lo + 10, x)),
                kind == PickerKind::NaiveShuffle ==> forall|x: BackendId|
                    p.has_up_member(x) <==> x.0 < 30,
                kind == PickerKind::RoundRobin || kind == PickerKind::Rendevouz || kind
                    == PickerKind::RendevouzShuffle ==> p.pick_allowed() && p.pick_certain(),
                order@.len() == 30,
                order@.no_duplicates(),
                forall|j: int| 0 <= j < 30 ==> #[trigger] order@[j].0 < 30,
            decreases 2000 - tenant,
        {
            let mut n: u64 = 0;
            while n < 100
                invariant
                    s.wf(),
                    p.inv(),
                    covered(p, s),
                    health_linked(p, s),
                    p.kind_of() == kind,
                    p.knows_health() == (kind != PickerKind::NaiveShuffle),
                    kind == PickerKind::RoundRobin || kind == PickerKind::Rendevouz || kind
                        == PickerKind::RendevouzShuffle ==> p.pick_allowed() && p.pick_certain(),
                    forall|x: BackendId| p.has_member(x) ==> x.0 < 30,
                    kind != PickerKind::NaiveShuffle ==> forall|x: BackendId|
                        p.has_up_member(x) <==> (x.0 < 30 && outside(order@, lo, lo + 10, x)),
                    kind == PickerKind::NaiveShuffle ==> forall|x: BackendId|
                        p.has_up_member(x) <==> x.0 < 30,
                    kind == PickerKind::RendevouzShuffle ==> forall|x: BackendId|
                        p.has_member(x) <==> (x.0 < 30 && outside(order@, lo, lo + 10, x)),
                    kind != PickerKind::RendevouzShuffle ==> forall|x: BackendId|
                        p.has_member(x) <==> x.0 < 30,
                    kind == PickerKind::RendevouzShuffle ==> p.member_count() == 20,
                    p.pick_bar() <= 5,
                    kind != PickerKind::RendevouzShuffle ==> p.pick_bar() == 0,
                    stage < 3,
                    lo == stage as int * 10,
                    order@.len() == 30,
                    order@.no_duplicates(),
                    forall|j: int| 0 <= j < 30 ==> #[trigger] order@[j].0 < 30,
                decreases 100 - n,
            {
                match route_once(&mut p, &s, TenantId(tenant)) {
                    Err(e) => {
                        return Err(e);
                    },
                    Ok((_b, h)) => {
                        if !matches!(h, Health::Up) {
                            proof {
                                assert(kind == PickerKind::NaiveShuffle);
                            }
                            return Err(SimError::UnhealthyRoute);
                        }
                    },
                }
                n += 1;
            }
            tenant += 1;
        }
        let mut u: usize = 0;
        while u < 10
            invariant
                s.wf(),
                p.inv(),
                covered(p, s),
                health_linked(p, s),
                p.kind_of() == kind,
                p.knows_health() == (kind != PickerKind::NaiveShuffle),
                p.pick_bar() <= 5,
                kind != PickerKind::RendevouzShuffle ==> p.pick_bar() == 0,
                stage < 3,
                lo == stage as int * 10,
                u <= 10,
                kind == PickerKind::RendevouzShuffle ==> p.member_count() == 20 + u,
                kind != PickerKind::RendevouzShuffle ==> forall|x: BackendId|
                    p.has_member(x) <==> x.0 < 30,
                kind == PickerKind::RendevouzShuffle ==> forall|x: BackendId|
                    p.has_member(x) <==> (x.0 < 30 && outside(order@, lo + u, lo + 10, x)),
                kind != PickerKind::NaiveShuffle ==> forall|x: BackendId|
                    p.has_up_member(x) <==> (x.0 < 30 && outside(order@, lo + u, lo + 10, x)),
                kind == PickerKind::NaiveShuffle ==> forall|x: BackendId|
                    p.has_up_member(x) <==> x.0 < 30,
                order@.len() == 30,
                order@.no_duplicates(),
                forall|j: int| 0 <= j < 30 ==> #[trigger] order@[j].0 < 30,
            decreases 10 - u,
        {
            let b = order[stage * 10 + u];
            proof {
                assert(order@[lo + u].0 < 30);
                assert(!outside(order@, lo + u, lo + 10, b)) by {
                    assert(order@[lo + u] == b);
                }
                assert forall|x: BackendId|
                    x != b && #[trigger] outside(order@, lo + u, lo + 10, x) implies outside(
                    order@,
                    lo + u + 1,
                    lo + 10,
                    x,
                ) by {}
                assert forall|x: BackendId|
                    x != b && #[trigger] outside(order@, lo + u + 1, lo + 10, x) implies outside(
                    order@,
                    lo + u,
                    lo + 10,
                    x,
                ) by {
                    assert(order@[lo + u] != x);
                }
            }
            register_with(&mut s, &mut p, b, Health::Up);
            proof {
                assert(outside(order@, lo + u + 1, lo + 10, b)) by {
                    assert forall|w: int| lo + u + 1 <= w < lo + 10 implies order@[w] != b by {
                        assert(order@[w] != order@[lo + u]);
                    }
                }
            }
            u += 1;
        }
        proof {
            assert forall|x: BackendId| x.0 < 30 implies #[trigger] outside(
                order@,
                lo + 10,
                lo + 10,
                x,
            ) by {}
        }
        stage += 1;
    }
    Ok(())
}

/// Scenario: a full-fleet rolling drain and undrain in overlapping windows
/// of five, with tenant 0 routed ten times after every single health change.
/// Returns how many distinct backends tenant 0 touched over the whole
/// deploy: its blast radius, at most the thirty registered backends.
pub fn rolling_restart_blast_radius(kind: PickerKind) -> (r: Result<u64, SimError>)
    ensures
        r matches Ok(n) ==> n <= 30,
{
    let mut s = Simulation::new();
    let mut p = AnyPicker::new(kind, 6);
    let mut i: u64 = 0;
    while i < 30
        invariant
            s.wf(),
            p.inv(),
            covered(p, s),
            health_linked(p, s),
            forall|x: BackendId| has_backend(s.fleet(), x) ==> x.0 < 30,
        decreases 30 - i,
    {
        register_with(&mut s, &mut p, BackendId(i), Health::Up);
        i += 1;
    }
    let mut touched = TouchedSet::new();
    let mut start: u64 = 0;
    while start < 26
        invariant
            s.wf(),
            p.inv(),
            covered(p, s),
            health_linked(p, s),
            touched.wf(),
            forall|x: BackendId| has_backend(s.fleet(), x) ==> x.0 < 30,
            forall|j: int|
                0 <= j < touched.ids_seen().len() ==> #[trigger] touched.ids_seen()[j].0 < 30,
        decreases 26 - start,
    {
        let mut off: u64 = 0;
        while off < 5
            invariant
                s.wf(),
                p.inv(),
                covered(p, s),
                health_linked(p, s),
                touched.wf(),
                start < 26,
                off <= 5,
                forall|x: BackendId| has_backend(s.fleet(), x) ==> x.0 < 30,
                forall|j: int|
                    0 <= j < touched.ids_seen().len() ==> #[trigger] touched.ids_seen()[j].0 < 30,
            decreases 5 - off,
        {
            let b = BackendId(start + off);
            register_with(&mut s, &mut p, b, Health::Draining);
            let mut n: u64 = 0;
            while n < 10
                invariant
                    s.wf(),
                    p.inv(),
                    covered(p, s),
                    health_linked(p, s),
                    touched.wf(),
                    forall|x: BackendId| has_backend(s.fleet(), x) ==> x.0 < 30,
                    forall|j: int|
                        0 <= j < touched.ids_seen().len() ==> #[trigger] touched.ids_seen()[j].0
                            < 30,
                decreases 10 - n,
            {
                match route_once(&mut p, &s, TenantId(0)) {
                    Err(e) => {
                        return Err(e);
                    },
                    Ok((c, _h)) => {
                        proof {
                            let i2 = choose|i2: int|
                                0 <= i2 < s.fleet().len() && #[trigger] s.fleet()[i2].id == c
                                    && s.fleet()[i2].health == _h;
                            assert(has_backend(s.fleet(), c));
                        }
                        touched.insert(c);
                    },
                }
                n += 1;
            }
            off += 1;
        }
        let mut off2: u64 = 0;
        while off2 < 5
            invariant
                s.wf(),
                p.inv(),
                covered(p, s),
                health_linked(p, s),
                touched.wf(),
                start < 26,
                off2 <= 5,
                forall|x: BackendId| has_backend(s.fleet(), x) ==> x.0 < 30,
                forall|j: int|
                    0 <= j < touched.ids_seen().len() ==> #[trigger] touched.ids_seen()[j].0 < 30,
            decreases 5 - off2,
        {
            let b = BackendId(start + off2);
            register_with(&mut s, &mut p, b, Health::Up);
            let mut n: u64 = 0;
            while n < 10
                invariant
                    s.wf(),
                    p.inv(),
                    covered(p, s),
                    health_linked(p, s),
                    touched.wf(),
                    forall|x: BackendId| has_backend(s.fleet(), x) ==> x.0 < 30,
                    forall|j: int|
                        0 <= j < touched.ids_seen().len() ==> #[trigger] touched.ids_seen()[j].0
                            < 30,
                decreases 10 - n,
            {
                match route_once(&mut p, &s, TenantId(0)) {
                    Err(e) => {
                        return Err(e);
                    },
                    Ok((c, _h)) => {
                        proof {
                            let i2 = choose|i2: int|
                                0 <= i2 < s.fleet().len() && #[trigger] s.fleet()[i2].id == c
                                    && s.fleet()[i2].health == _h;
                            assert(has_backend(s.fleet(), c));
                        }
                        touched.insert(c);
                    },
                }
                n += 1;
            }
            off2 += 1;
        }
        start += 1;
    }
    proof {
        lemma_touched_len_bound(touched.ids_seen(), 30);
    }
    Ok(touched.len() as u64)
}

/// Scenario: recycle the whole fleet, one backend at a time: spin up a fresh
/// id, route tenant 0 ten times, spin down an old id, route ten more. Every
/// backend is `Up` for its whole stay, so an unhealthy route is provably
/// impossible. Returns how many distinct backends tenant 0 touched over the
/// full recycle, at most the sixty ids that ever existed: the
/// consistent-hashing pickers keep this near their shard size, the others
/// sprawl.
pub fn recycle_blast_radius(kind: PickerKind) -> (r: Result<u64, SimError>)
    ensures
        !(r == Err::<u64, SimError>(SimError::UnhealthyRoute)),
        r matches Ok(n) ==> n <= 60,
{
    let mut s = Simulation::new();
    let mut p = AnyPicker::new(kind, 6);
    let mut i: u64 = 0;
    while i < 30
        invariant
            s.wf(),
            p.inv(),
            covered(p, s),
            health_linked(p, s),
            forall|x: BackendId| has_backend(s.fleet(), x) ==> x.0 < 30,
            forall|x: BackendId| has_backend(s.fleet(), x) ==> up_with_id(s.fleet(), x),
        decreases 30 - i,
    {
        register_with(&mut s, &mut p, BackendId(i), Health::Up);
        i += 1;
    }
    let mut touched = TouchedSet::new();
    let mut r: u64 = 0;
    while r < 30
        invariant
            s.wf(),
            p.inv(),
            covered(p, s),
            health_linked(p, s),
            touched.wf(),
            r <= 30,
            forall|x: BackendId| has_backend(s.fleet(), x) ==> x.0 < 30 + r,
            forall|x: BackendId| has_backend(s.fleet(), x) ==> up_with_id(s.fleet(), x),
            forall|j: int|
                0 <= j < touched.ids_seen().len() ==> #[trigger] touched.ids_seen()[j].0 < 30 + r,
        decreases 30 - r,
    {
        register_with(&mut s, &mut p, BackendId(30 + r), Health::Up);
        let mut n: u64 = 0;
        while n < 10
            invariant
                s.wf(),
                p.inv(),
                covered(p, s),
                health_linked(p, s),
                touched.wf(),
                r < 30,
                forall|x: BackendId| has_backend(s.fleet(), x) ==> x.0 < 31 + r,
                forall|x: BackendId| has_backend(s.fleet(), x) ==> up_with_id(s.fleet(), x),
                forall|j: int|
                    0 <= j < touched.ids_seen().len() ==> #[trigger] touched.ids_seen()[j].0 < 31
                        + r,
            decreases 10 - n,
        {
            match route_once(&mut p, &s, TenantId(0)) {
                Err(e) => {
                    return Err(e);
                },
                Ok((c, h)) => {
                    proof {
                        let i2 = choose|i2: int|
                            0 <= i2 < s.fleet().len() && #[trigger] s.fleet()[i2].id == c
                                && s.fleet()[i2].health == h;
                        assert(has_backend(s.fleet(), c));
                        // Everything recorded is Up, and ids are unique.
                        assert(up_with_id(s.fleet(), c));
                        let j2 = choose|j2: int|
                            0 <= j2 < s.fleet().len() && #[trigger] s.fleet()[j2].id == c
                                && s.fleet()[j2].health == Health::Up;
                        crate::lemma_sorted_ids_unique(s.fleet());
                        assert(i2 == j2);
                    }
                    if !matches!(h, Health::Up) {
                        proof {
                            assert(false);
                        }
                        return Err(SimError::UnhealthyRoute);
                    }
                    touched.insert(c);
                },
            }
            n += 1;
        }
        unregister_with(&mut s, &mut p, BackendId(r));
        let mut n2: u64 = 0;
        while n2 < 10
            invariant
                s.wf(),
                p.inv(),
                covered(p, s),
                health_linked(p, s),
                touched.wf(),
                r < 30,
                forall|x: BackendId| has_backend(s.fleet(), x) ==> x.0 < 31 + r,
                forall|x: BackendId| has_backend(s.fleet(), x) ==> up_with_id(s.fleet(), x),
                forall|j: int|
                    0 <= j < touched.ids_seen().len() ==> #[trigger] touched.ids_seen()[j].0 < 31
                        + r,
            decreases 10 - n2,
        {
            match route_once(&mut p, &s, TenantId(0)) {
                Err(e) => {
                    return Err(e);
                },
                Ok((c, h)) => {
                    proof {
                        let i2 = choose|i2: int|
                            0 <= i2 < s.fleet().len() && #[trigger] s.fleet()[i2].id == c
                                && s.fleet()[i2].health == h;
                        assert(has_backend(s.fleet(), c));
                        assert(up_with_id(s.fleet(), c));
                        let j2 = choose|j2: int|
                            0 <= j2 < s.fleet().len() && #[trigger] s.fleet()[j2].id == c
                                && s.fleet()[j2].health == Health::Up;
                        crate::lemma_sorted_ids_unique(s.fleet());
                        assert(i2 == j2);
                    }
                    if !matches!(h, Health::Up) {
                        proof {
                            assert(false);
                        }
                        return Err(SimError::UnhealthyRoute);
                    }
                    touched.insert(c);
                },
            }
            n2 += 1;
        }
        r += 1;
    }
    proof {
        lemma_touched_len_bound(touched.ids_seen(), 60);
    }
    Ok(touched.len() as u64)
}

/// The sum of all counts a tally holds.
pub open spec fn tally_total(s: Seq<(u64, u64)>) -> int
    decreases s.len(),
{
    if s.len() == 0 {
        0
    } else {
        tally_total(s.drop_last()) + s.last().1
    }
}

/// The tally's keys are strictly increasing.
pub open spec fn tally_sorted(s: Seq<(u64, u64)>) -> bool {
    forall|i: int, j: int| 0 <= i < j < s.len() ==> s[i].0 < s[j].0
}

/// Every count takes part in the total, so no count exceeds it.
proof fn lemma_tally_entry_le_total(s: Seq<(u64, u64)>, i: int)
    requires
        0 <= i < s.len(),
    ensures
        s[i].1 <= tally_total(s),
        tally_total(s) >= 0,
    decreases s.len(),
{
    lemma_tally_total_nonneg(s.drop_last());
    if i < s.len() - 1 {
        lemma_tally_entry_le_total(s.drop_last(), i);
        assert(s.drop_last()[i] == s[i]);
    }
}

proof fn lemma_tally_total_nonneg(s: Seq<(u64, u64)>)
    ensures
        tally_total(s) >= 0,
    decreases s.len(),
{
    if s.len() > 0 {
        lemma_tally_total_nonneg(s.drop_last());
    }
}

/// Raising one count by one raises the total by one.
proof fn lemma_tally_total_update(s: Seq<(u64, u64)>, i: int, v: (u64, u64))
    requires
        0 <= i < s.len(),
    ensures
        tally_total(s.update(i, v)) == tally_total(s) - s[i].1 + v.1,
    decreases s.len(),
{
    let s2 = s.update(i, v);
    if i == s.len() - 1 {
        assert(s2.drop_last() =~= s.drop_last());
    } else {
        assert(s2.drop_last() =~= s.drop_last().update(i, v));
        assert(s2.last() == s.last());
        lemma_tally_total_update(s.drop_last(), i, v);
    }
}

/// A fresh entry adds its count to the total.
proof fn lemma_tally_total_insert(s: Seq<(u64, u64)>, p: int, v: (u64, u64))
    requires
        0 <= p <= s.len(),
    ensures
        tally_total(s.insert(p, v)) == tally_total(s) + v.1,
    decreases s.len(),
{
    let s2 = s.insert(p, v);
    if p == s.len() {
        assert(s2.drop_last() =~= s);
        assert(s2.last() == v);
    } else {
        assert(s2.drop_last() =~= s.drop_last().insert(p, v));
        assert(s2.last() == s.last());
        lemma_tally_total_insert(s.drop_last(), p, v);
    }
}

/// The position of `id` in the tally, or its length when absent.
fn find_tally(tally: &Vec<(u64, u64)>, id: u64) -> (r: usize)
    ensures
        r <= tally@.len(),
        r < tally@.len() ==> tally@[r as int].0 == id,
        r == tally@.len() ==> forall|i: int| 0 <= i < tally@.len() ==> tally@[i].0 != id,
{
    let len = tally.len();
    let mut i: usize = 0;
    while i < len
        invariant
            len == tally@.len(),
            i <= len,
            forall|j: int| 0 <= j < i ==> tally@[j].0 != id,
        decreases len - i,
    {
        if tally[i].0 == id {
            return i;
        }
        i += 1;
    }
    len
}

/// The position a fresh id belongs at: the first whose key exceeds it.
fn tally_insert_pos(tally: &Vec<(u64, u64)>, id: u64) -> (r: usize)
    requires
        tally_sorted(tally@),
    ensures
        r <= tally@.len(),
        forall|i: int| 0 <= i < r ==> tally@[i].0 < id || tally@[i].0 == id,
        forall|i: int| r <= i < tally@.len() ==> tally@[i].0 > id,
{
    let len = tally.len();
    let mut i: usize = 0;
    while i < len
        invariant
            tally_sorted(tally@),
            len == tally@.len(),
            i <= len,
            forall|j: int| 0 <= j < i ==> tally@[j].0 <= id,
        decreases len - i,
    {
        if tally[i].0 > id {
            return i;
        }
        i += 1;
    }
    len
}

/// Drive `rounds` picks for one tenant and tally how often each backend was
/// returned: one entry per distinct returned id, kept sorted by id, with
/// counts that sum to exactly `rounds` on success.
pub fn tally_picks(p: &mut AnyPicker, tenant: TenantId, rounds: u64) -> (r: Result<
    Vec<(u64, u64)>,
    SimError,
>)
    requires
        old(p).inv(),
        rounds < u64::MAX,
    ensures
        final(p).inv(),
        r matches Ok(t) ==> tally_sorted(t@) && tally_total(t@) == rounds,
        old(p).pick_allowed() ==> !(r == Err::<Vec<(u64, u64)>, SimError>(
            SimError::FleetTooSmall,
        )),
        old(p).pick_allowed() && old(p).pick_certain() ==> r is Ok,
{
    let mut tally: Vec<(u64, u64)> = Vec::new();
    let mut n: u64 = 0;
    while n < rounds
        invariant
            p.inv(),
            n <= rounds,
            rounds < u64::MAX,
            old(p).pick_allowed() ==> p.pick_allowed(),
            old(p).pick_certain() ==> p.pick_certain(),
            tally_sorted(tally@),
            tally_total(tally@) == n,
        decreases rounds - n,
    {
        if !p.can_pick() {
            return Err(SimError::FleetTooSmall);
        }
        match p.pick(tenant) {
            None => {
                return Err(SimError::NoRoute);
            },
            Some(b) => {
                let hit = find_tally(&tally, b.0);
                if hit < tally.len() {
                    let c = tally[hit].1;
                    proof {
                        lemma_tally_entry_le_total(tally@, hit as int);
                        lemma_tally_total_update(tally@, hit as int, (b.0, (c + 1) as u64));
                    }
                    let ghost t0 = tally@;
                    tally.set(hit, (b.0, c + 1));
                    proof {
                        assert(forall|i: int| 0 <= i < tally@.len() ==> tally@[i].0 == t0[i].0);
                    }
                } else {
                    let pos = tally_insert_pos(&tally, b.0);
                    proof {
                        lemma_tally_total_insert(tally@, pos as int, (b.0, 1u64));
                    }
                    let ghost t0 = tally@;
                    tally.insert(pos, (b.0, 1));
                    proof {
                        assert(forall|i: int|
                            0 <= i < tally@.len() ==> tally@[i] == (if i < pos {
                                t0[i]
                            } else if i == pos {
                                (b.0, 1u64)
                            } else {
                                t0[i - 1]
                            }));
                        assert forall|i: int, j: int|
                            0 <= i < j < tally@.len() implies tally@[i].0 < tally@[j].0 by {
                            if i < pos && j == pos {
                                assert(t0[i].0 != b.0);
                            } else if i == pos && j > pos {
                                assert(t0[j - 1].0 > b.0);
                            }
                        }
                    }
                }
            },
        }
        n += 1;
    }
    Ok(tally)
}

/// How many entries of `a` also appear in `b`.
pub open spec fn overlap_count(a: Seq<u64>, b: Seq<u64>) -> int
    decreases a.len(),
{
    if a.len() == 0 {
        0
    } else {
        overlap_count(a.drop_last(), b) + if b.contains(a.last()) {
            1int
        } else {
            0int
        }
    }
}

/// The isolation penalty for one ordered pair of shards: nothing for
/// disjoint shards, one point for a single shared backend, ten for two, a
/// thousand beyond.
pub open spec fn pair_penalty(a: Seq<u64>, b: Seq<u64>) -> int {
    let c = overlap_count(a, b);
    if c <= 0 {
        0
    } else if c == 1 {
        1
    } else if c == 2 {
        10
    } else {
        1000
    }
}

/// The summed penalty of row `i` against the first `upto` shards.
pub open spec fn row_penalty(ss: Seq<Seq<u64>>, i: int, upto: int) -> int
    decreases upto,
{
    if upto <= 0 {
        0
    } else {
        row_penalty(ss, i, upto - 1) + if i == upto - 1 {
            0int
        } else {
            pair_penalty(ss[i], ss[upto - 1])
        }
    }
}

/// The summed penalty of the first `upto` rows, each against every other
/// shard.
pub open spec fn total_penalty(ss: Seq<Seq<u64>>, upto: int) -> int
    decreases upto,
{
    if upto <= 0 {
        0
    } else {
        total_penalty(ss, upto - 1) + row_penalty(ss, upto - 1, ss.len() as int)
    }
}

proof fn lemma_overlap_count_bounds(a: Seq<u64>, b: Seq<u64>)
    ensures
        0 <= overlap_count(a, b) <= a.len(),
    decreases a.len(),
{
    if a.len() > 0 {
        lemma_overlap_count_bounds(a.drop_last(), b);
    }
}

proof fn lemma_row_penalty_bounds(ss: Seq<Seq<u64>>, i: int, upto: int)
    requires
        upto >= 0,
    ensures
        0 <= row_penalty(ss, i, upto) <= 1000 * upto,
    decreases upto,
{
    if upto > 0 {
        lemma_row_penalty_bounds(ss, i, upto - 1);
        assert(1000 * (upto - 1) + 1000 == 1000 * upto) by (nonlinear_arith);
    }
}

proof fn lemma_total_penalty_bounds(ss: Seq<Seq<u64>>, upto: int)
    requires
        upto >= 0,
        ss.len() <= 100000,
    ensures
        0 <= total_penalty(ss, upto) <= 1000 * 100000 * upto,
    decreases upto,
{
    if upto > 0 {
        lemma_total_penalty_bounds(ss, upto - 1);
        lemma_row_penalty_bounds(ss, upto - 1, ss.len() as int);
        assert(1000 * (ss.len() as int) <= 1000 * 100000) by (nonlinear_arith)
            requires
                ss.len() <= 100000,
        ;
        assert(1000 * 100000 * (upto - 1) + 1000 * 100000 == 1000 * 100000 * upto)
            by (nonlinear_arith);
    }
}

/// Whether `x` appears in the shard.
fn shard_contains(b: &Vec<u64>, x: u64) -> (r: bool)
    ensures
        r == b@.contains(x),
{
    let n = b.len();
    let mut i: usize = 0;
    while i < n
        invariant
            n == b@.len(),
            i <= n,
            forall|j: int| 0 <= j < i ==> b@[j] != x,
        decreases n - i,
    {
        if b[i] == x {
            proof {
                assert(b@[i as int] == x);
            }
            return true;
        }
        i += 1;
    }
    false
}

/// The penalty one ordered pair of observed shards contributes.
fn overlap_penalty(a: &Vec<u64>, b: &Vec<u64>) -> (r: u64)
    requires
        a@.len() <= 10000,
    ensures
        r == pair_penalty(a@, b@),
        r <= 1000,
{
    let n = a.len();
    let mut c: u64 = 0;
    let mut i: usize = 0;
    while i < n
        invariant
            n == a@.len(),
            n <= 10000,
            i <= n,
            c as int == overlap_count(a@.take(i as int), b@),
            c <= i,
        decreases n - i,
    {
        proof {
            assert(a@.take(i + 1).drop_last() =~= a@.take(i as int));
            assert(a@.take(i + 1).last() == a@[i as int]);
        }
        if shard_contains(b, a[i]) {
            c += 1;
        }
        i += 1;
    }
    proof {
        assert(a@.take(n as int) =~= a@);
    }
    if c == 0 {
        0
    } else if c == 1 {
        1
    } else if c == 2 {
        10
    } else {
        1000
    }
}

/// The total tenant-isolation penalty of a set of observed shards: every
/// ordered pair of distinct shards contributes its overlap penalty.
pub fn isolation_penalty(shards: &Vec<Vec<u64>>) -> (r: u64)
    requires
        shards@.len() <= 100000,
        forall|i: int| 0 <= i < shards@.len() ==> #[trigger] shards@[i]@.len() <= 10000,
    ensures
        r as int == total_penalty(shards@.map_values(|v: Vec<u64>| v@), shards@.len() as int),
{
    let ghost ss = shards@.map_values(|v: Vec<u64>| v@);
    let n = shards.len();
    let mut total: u64 = 0;
    let mut i: usize = 0;
    while i < n
        invariant
            n == shards@.len(),
            n <= 100000,
            forall|q: int| 0 <= q < n ==> #[trigger] shards@[q]@.len() <= 10000,
            ss == shards@.map_values(|v: Vec<u64>| v@),
            i <= n,
            total as int == total_penalty(ss, i as int),
            total as int <= 1000 * 100000 * i,
        decreases n - i,
    {
        let mut row: u64 = 0;
        let mut j: usize = 0;
        while j < n
            invariant
                n == shards@.len(),
                n <= 100000,
                forall|q: int| 0 <= q < n ==> #[trigger] shards@[q]@.len() <= 10000,
                ss == shards@.map_values(|v: Vec<u64>| v@),
                i < n,
                j <= n,
                row as int == row_penalty(ss, i as int, j as int),
                row as int <= 1000 * j,
            decreases n - j,
        {
            if j != i {
                let pen = overlap_penalty(&shards[i], &shards[j]);
                proof {
                    assert(ss[i as int] == shards@[i as int]@);
                    assert(ss[j as int] == shards@[j as int]@);
                    assert(1000 * j + 1000 == 1000 * (j + 1)) by (nonlinear_arith);
                }
                row += pen;
            }
            j += 1;
        }
        proof {
            lemma_total_penalty_bounds(ss, i as int);
            assert(1000 * 100000 * i + 1000 * (n as int) <= 1000 * 100000 * (i + 1))
                by (nonlinear_arith)
                requires
                    n <= 100000,
            ;
        }
        total += row;
        i += 1;
    }
    total
}

} // verus!
