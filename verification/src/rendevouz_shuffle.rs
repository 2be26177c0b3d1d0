use vstd::prelude::*;
use crate::rng::{rng_below, rng_from_seed};
use crate::{
    combine, combine_spec, has_backend, hash_of, ids_unique, up_with_id, Backend, BackendId,
    Health, Picker, TenantId, PRNG_SEED,
};
use rand::rngs::SmallRng;

verus! {

/// A total order that the heap routines below work over: the relation, its
/// laws, and an executable comparison that decides it.
pub trait HeapOrd: Sized + Copy {
    /// `self` comes no later than `other`.
    spec fn leq(self, other: Self) -> bool;

    /// The order is total.
    proof fn lemma_leq_total(a: Self, b: Self)
        ensures
            a.leq(b) || b.leq(a),
    ;

    /// The order is transitive.
    proof fn lemma_leq_trans(a: Self, b: Self, c: Self)
        requires
            a.leq(b),
            b.leq(c),
        ensures
            a.leq(c),
    ;

    /// The order is antisymmetric.
    proof fn lemma_leq_antisym(a: Self, b: Self)
        requires
            a.leq(b),
            b.leq(a),
        ensures
            a == b,
    ;

    /// Decide the relation.
    fn leq_exec(&self, other: &Self) -> (r: bool)
        ensures
            r == self.leq(*other),
    ;
}

impl HeapOrd for u64 {
    open spec fn leq(self, other: Self) -> bool {
        self <= other
    }

    proof fn lemma_leq_total(a: Self, b: Self) {
    }

    proof fn lemma_leq_trans(a: Self, b: Self, c: Self) {
    }

    proof fn lemma_leq_antisym(a: Self, b: Self) {
    }

    fn leq_exec(&self, other: &Self) -> (r: bool) {
        *self <= *other
    }
}

/// The index of the parent of heap node `c`.
pub open spec fn heap_parent(c: int) -> int {
    (c - 1) / 2
}

/// Every parent-child pair whose parent index is at least `lo` is ordered:
/// the child comes no later than the parent.
pub open spec fn heap_from<T: HeapOrd>(s: Seq<T>, lo: int) -> bool {
    forall|c: int|
        1 <= c < s.len() && heap_parent(c) >= lo ==> #[trigger] s[c].leq(s[heap_parent(c)])
}

/// The max-heap property: every node comes no later than its parent.
pub open spec fn is_heap<T: HeapOrd>(s: Seq<T>) -> bool {
    heap_from(s, 0)
}

/// Node `i` lies in the subtree rooted at `root`.
pub open spec fn in_subtree(root: int, i: int) -> bool
    decreases i,
{
    i == root || (i > root && i >= 1 && in_subtree(root, heap_parent(i)))
}

/// In a max-heap, every node comes no later than the root.
pub proof fn lemma_heap_le_root<T: HeapOrd>(s: Seq<T>, i: int)
    requires
        is_heap(s),
        0 <= i < s.len(),
    ensures
        s[i].leq(s[0]),
    decreases i,
{
    if i > 0 {
        let p = heap_parent(i);
        assert(s[i].leq(s[p]));
        lemma_heap_le_root(s, p);
        T::lemma_leq_trans(s[i], s[p], s[0]);
    } else {
        T::lemma_leq_total(s[0], s[0]);
    }
}

/// Restore the max-heap shape at `cur`, assuming every parent-child pair
/// below it is already ordered: walk the larger child down until the element
/// finds its place. Only positions from `cur` on change; the elements are
/// merely rearranged.
pub fn sift_down<T: HeapOrd>(xs: &mut Vec<T>, cur: usize)
    requires
        cur < old(xs)@.len(),
        heap_from(old(xs)@, cur as int + 1),
    ensures
        final(xs)@.len() == old(xs)@.len(),
        final(xs)@.to_multiset() == old(xs)@.to_multiset(),
        heap_from(final(xs)@, cur as int),
        forall|i: int| 0 <= i < cur ==> final(xs)@[i] == old(xs)@[i],
        forall|i: int|
            0 <= i < final(xs)@.len() && final(xs)@[i] != old(xs)@[i] ==> #[trigger] in_subtree(
                cur as int,
                i,
            ),
        forall|i: int|
            0 <= i < final(xs)@.len() && #[trigger] final(xs)@[i] != old(xs)@[i] && final(xs)@[i]
                != old(xs)@[cur as int] ==> (final(xs)@[i] == old(xs)@[2 * i + 1]
                || final(xs)@[i] == old(xs)@[2 * i + 2]),
{
    let ghost cur0 = cur as int;
    let mut cur = cur;
    let n = xs.len();
    loop
        invariant
            n == xs@.len(),
            cur0 <= cur < n,
            xs@.len() == old(xs)@.len(),
            xs@.to_multiset() == old(xs)@.to_multiset(),
            forall|i: int| 0 <= i < cur0 ==> xs@[i] == old(xs)@[i],
            forall|c: int|
                1 <= c < n && heap_parent(c) >= cur0 && heap_parent(c) != cur ==> #[trigger] xs@[c].leq(
                    xs@[heap_parent(c)],
                ),
            cur != cur0 ==> heap_parent(cur as int) >= cur0,
            forall|c: int|
                1 <= c < n && heap_parent(c) == cur as int && cur != cur0
                    ==> #[trigger] xs@[c].leq(xs@[heap_parent(cur as int)]),
            in_subtree(cur0, cur as int),
            xs@[cur as int] == old(xs)@[cur0],
            forall|i: int| cur < i < n ==> xs@[i] == old(xs)@[i],
            forall|i: int|
                0 <= i < n && xs@[i] != old(xs)@[i] ==> #[trigger] in_subtree(cur0, i),
            forall|i: int|
                0 <= i < n && #[trigger] xs@[i] != old(xs)@[i] && i != cur ==> (xs@[i]
                    == old(xs)@[2 * i + 1] || xs@[i] == old(xs)@[2 * i + 2]),
        ensures
            n == xs@.len(),
            xs@.len() == old(xs)@.len(),
            xs@.to_multiset() == old(xs)@.to_multiset(),
            forall|i: int| 0 <= i < cur0 ==> xs@[i] == old(xs)@[i],
            heap_from(xs@, cur0),
            forall|i: int|
                0 <= i < n && xs@[i] != old(xs)@[i] ==> #[trigger] in_subtree(cur0, i),
            forall|i: int|
                0 <= i < n && #[trigger] xs@[i] != old(xs)@[i] && xs@[i] != old(xs)@[cur0] ==> (
                xs@[i] == old(xs)@[2 * i + 1] || xs@[i] == old(xs)@[2 * i + 2]),
        decreases n - cur,
    {
        if cur >= n / 2 {
            // No children: every pair with parent >= cur0 is already ordered.
            proof {
                assert forall|c: int| 1 <= c < n && heap_parent(c) >= cur0 implies #[trigger] xs@[c].leq(
                    xs@[heap_parent(c)],
                ) by {
                    if heap_parent(c) == cur as int {
                        assert(c >= 2 * cur + 1);
                        assert(2 * cur + 1 >= n);
                        assert(false);
                    }
                }
            }
            break ;
        }
        let mut child = 2 * cur + 1;
        if child + 1 < n {
            if xs[child].leq_exec(&xs[child + 1]) {
                child = child + 1;
            } else {
                proof {
                    T::lemma_leq_total(xs@[2 * cur as int + 1], xs@[2 * cur as int + 2]);
                }
            }
        }
        proof {
            assert(heap_parent(child as int) == cur as int);
            T::lemma_leq_total(xs@[child as int], xs@[child as int]);
            assert(xs@[2 * cur as int + 1].leq(xs@[child as int]));
            assert(2 * cur as int + 2 < n ==> xs@[2 * cur as int + 2].leq(xs@[child as int]));
        }
        if xs[child].leq_exec(&xs[cur]) {
            // Ordered here: close the remaining pairs at `cur`.
            proof {
                assert forall|c: int| 1 <= c < n && heap_parent(c) >= cur0 implies #[trigger] xs@[c].leq(
                    xs@[heap_parent(c)],
                ) by {
                    if heap_parent(c) == cur as int {
                        if c != child as int {
                            T::lemma_leq_trans(xs@[c], xs@[child as int], xs@[cur as int]);
                        }
                    }
                }
            }
            break ;
        }
        proof {
            T::lemma_leq_total(xs@[child as int], xs@[cur as int]);
        }
        let ghost s_pre = xs@;
        let a = xs[cur];
        let b = xs[child];
        xs.set(cur, b);
        xs.set(child, a);
        proof {
            let ci = cur as int;
            let hi = child as int;
            assert(xs@ == s_pre.update(ci, b).update(hi, a));
            lemma_swap_multiset(s_pre, xs@, ci, hi);
            // Pairs whose parent is at least cur0 and not the new cursor stay
            // ordered: unchanged pairs verbatim, the pair at cur by the swap,
            // the sibling against the promoted maximum, and the pair from
            // cur's own parent through the bridge bound on cur's children.
            assert forall|c: int|
                1 <= c < n && heap_parent(c) >= cur0 && heap_parent(c) != hi
                    implies #[trigger] xs@[c].leq(xs@[heap_parent(c)]) by {
                let p = heap_parent(c);
                if p == ci {
                    if c == hi {
                        assert(xs@[c] == s_pre[ci]);
                        assert(xs@[p] == s_pre[hi]);
                    } else {
                        assert(xs@[c] == s_pre[c]);
                        assert(s_pre[c].leq(s_pre[hi]));
                        assert(xs@[p] == s_pre[hi]);
                    }
                } else if c == ci {
                    assert(cur != cur0 ==> s_pre[hi].leq(s_pre[heap_parent(ci)]));
                    assert(xs@[c] == s_pre[hi]);
                    assert(xs@[p] == s_pre[p]);
                } else {
                    assert(xs@[c] == s_pre[c]);
                    assert(xs@[p] == s_pre[p]);
                }
            }
            // The bridge moves down to the new cursor.
            assert forall|c: int|
                1 <= c < n && heap_parent(c) == hi implies #[trigger] xs@[c].leq(
                xs@[heap_parent(hi)],
            ) by {
                assert(xs@[c] == s_pre[c]);
                assert(s_pre[c].leq(s_pre[hi]));
                assert(xs@[heap_parent(hi)] == s_pre[hi]);
            }
            // The swap stays inside the subtree and moves a direct child's
            // value up.
            assert(in_subtree(cur0, hi));
            assert(s_pre[hi] == old(xs)@[hi]);
            assert(xs@[ci] == old(xs)@[2 * ci + 1] || xs@[ci] == old(xs)@[2 * ci + 2]);
            assert forall|i: int|
                0 <= i < n && xs@[i] != old(xs)@[i] implies #[trigger] in_subtree(cur0, i) by {
                if i != ci && i != hi {
                    assert(xs@[i] == s_pre[i]);
                }
            }
        }
        cur = child;
    }
}

/// Swapping the elements at two positions leaves the multiset unchanged.
proof fn lemma_swap_multiset<T>(s0: Seq<T>, s1: Seq<T>, i: int, j: int)
    requires
        0 <= i < s0.len(),
        0 <= j < s0.len(),
        i != j,
        s1 == s0.update(i, s0[j]).update(j, s0[i]),
    ensures
        s1.to_multiset() == s0.to_multiset(),
{
    broadcast use vstd::seq_lib::to_multiset_update;
    broadcast use vstd::seq_lib::group_to_multiset_ensures;

    assert(s0.update(i, s0[j])[j] == s0[j]);
    assert(s1.to_multiset() =~= s0.to_multiset());
}

/// Reorder the whole vector into a max-heap, bottom up.
pub fn rebuild_heap<T: HeapOrd>(xs: &mut Vec<T>)
    ensures
        final(xs)@.len() == old(xs)@.len(),
        final(xs)@.to_multiset() == old(xs)@.to_multiset(),
        is_heap(final(xs)@),
{
    let len = xs.len();
    let mut n = len / 2;
    proof {
        assert forall|c: int| 1 <= c < len && heap_parent(c) >= n as int implies #[trigger] xs@[c].leq(
            xs@[heap_parent(c)],
        ) by {
            assert(c >= 2 * n + 1);
            assert(false);
        }
    }
    while n > 0
        invariant
            len == xs@.len(),
            n <= len,
            xs@.len() == old(xs)@.len(),
            xs@.to_multiset() == old(xs)@.to_multiset(),
            heap_from(xs@, n as int),
        decreases n,
    {
        n -= 1;
        sift_down(xs, n);
    }
}

/// A scored backend: the item the top-k selection heap works over.
#[derive(Debug, Clone, Copy)]
pub struct Entry {
    pub score: u64,
    pub b: Backend,
}

/// Rank of a health value inside the entry order.
pub open spec fn health_rank(h: Health) -> int {
    match h {
        Health::Up => 0,
        Health::Draining => 1,
        Health::Down => 2,
    }
}

fn health_rank_exec(h: Health) -> (r: u8)
    ensures
        r as int == health_rank(h),
{
    match h {
        Health::Up => 0,
        Health::Draining => 1,
        Health::Down => 2,
    }
}

impl HeapOrd for Entry {
    /// Lexicographic order over score, backend id, health and stored hash:
    /// scores decide, ties fall back to the backend id.
    open spec fn leq(self, other: Self) -> bool {
        ||| self.score < other.score
        ||| (self.score == other.score && self.b.id.0 < other.b.id.0)
        ||| (self.score == other.score && self.b.id.0 == other.b.id.0 && health_rank(self.b.health)
            < health_rank(other.b.health))
        ||| (self.score == other.score && self.b.id.0 == other.b.id.0 && health_rank(self.b.health)
            == health_rank(other.b.health) && self.b.hash <= other.b.hash)
    }

    proof fn lemma_leq_total(a: Self, b: Self) {
    }

    proof fn lemma_leq_trans(a: Self, b: Self, c: Self) {
    }

    proof fn lemma_leq_antisym(a: Self, b: Self) {
        assert(a.b.health == b.b.health);
        assert(a.b.id == b.b.id);
        assert(a.b == b.b);
    }

    fn leq_exec(&self, other: &Self) -> (r: bool) {
        if self.score != other.score {
            self.score < other.score
        } else if self.b.id.0 != other.b.id.0 {
            self.b.id.0 < other.b.id.0
        } else {
            let ra = health_rank_exec(self.b.health);
            let rb = health_rank_exec(other.b.health);
            if ra != rb {
                ra < rb
            } else {
                self.b.hash <= other.b.hash
            }
        }
    }
}

/// Strictly earlier in the selection order.
pub open spec fn entry_lt(a: Entry, b: Entry) -> bool {
    a.leq(b) && a != b
}

/// The entry that scoring a backend for tenant hash `th` produces.
pub open spec fn entry_of(th: u64, b: Backend) -> Entry {
    Entry { score: combine_spec(th, b.hash), b }
}

/// The fleet, scored for tenant hash `th`.
pub open spec fn entries_of(s: Seq<Backend>, th: u64) -> Seq<Entry> {
    s.map_values(|b: Backend| entry_of(th, b))
}

/// The predicate "scores strictly earlier than `b` does for tenant hash
/// `th`".
pub open spec fn scored_before(th: u64, b: Backend) -> spec_fn(Entry) -> bool {
    |e: Entry| entry_lt(e, entry_of(th, b))
}

/// How many fleet members score strictly earlier than `b` for tenant hash
/// `th`.
pub open spec fn num_scored_before(s: Seq<Backend>, th: u64, b: Backend) -> nat {
    entries_of(s, th).filter(scored_before(th, b)).len()
}

/// `b` belongs to the tenant's shard: it is a fleet member and fewer than
/// `k` fleet members score strictly earlier.
pub open spec fn in_shard(s: Seq<Backend>, th: u64, k: int, b: Backend) -> bool {
    s.contains(b) && num_scored_before(s, th, b) < k
}

/// A fleet without repeated ids scores to pairwise distinct entries.
proof fn lemma_entries_no_dup(s: Seq<Backend>, th: u64)
    requires
        ids_unique(s),
    ensures
        entries_of(s, th).no_duplicates(),
        entries_of(s, th).len() == s.len(),
{
    assert forall|i: int, j: int|
        0 <= i < entries_of(s, th).len() && 0 <= j < entries_of(s, th).len() && i != j
        implies entries_of(s, th)[i] != entries_of(s, th)[j] by {
        assert(entries_of(s, th)[i].b == s[i]);
        assert(entries_of(s, th)[j].b == s[j]);
        assert(s[i].id != s[j].id);
    }
}

/// Filtering a sequence without duplicates leaves no duplicates.
proof fn lemma_filter_no_duplicates<T>(s: Seq<T>, p: spec_fn(T) -> bool)
    requires
        s.no_duplicates(),
    ensures
        s.filter(p).no_duplicates(),
    decreases s.len(),
{
    reveal(Seq::filter);
    broadcast use Seq::lemma_filter_contains_rev;

    if s.len() > 0 {
        let rest = s.drop_last();
        assert(rest.no_duplicates());
        lemma_filter_no_duplicates(rest, p);
        if p(s.last()) {
            let f = rest.filter(p);
            assert(s.filter(p) == f.push(s.last()));
            assert forall|i: int, j: int|
                0 <= i < f.push(s.last()).len() && 0 <= j < f.push(s.last()).len() && i != j
                implies f.push(s.last())[i] != f.push(s.last())[j] by {
                if i < f.len() && j < f.len() {
                    assert(f[i] != f[j]);
                } else {
                    let q = if i < f.len() {
                        i
                    } else {
                        j
                    };
                    if f[q] == s.last() {
                        assert(f.contains(s.last()));
                        assert(rest.contains(s.last()));
                        let w = choose|w: int| 0 <= w < rest.len() && rest[w] == s.last();
                        assert(s[w] == s[s.len() - 1]);
                        assert(false);
                    }
                }
            }
        }
    }
}

/// `x` is one of the first `i` entries of `ee`.
pub open spec fn from_prefix(x: Entry, ee: Seq<Entry>, i: int) -> bool {
    exists|p: int| 0 <= p < i && x == #[trigger] ee[p]
}

/// The index witnessing `from_prefix`.
proof fn source_index(x: Entry, ee: Seq<Entry>, i: int) -> (p: int)
    requires
        from_prefix(x, ee, i),
    ensures
        0 <= p < i && x == ee[p],
{
    choose|p: int| 0 <= p < i && x == #[trigger] ee[p]
}

/// Every scratch entry is one of the first `i` scored fleet entries.
pub open spec fn sourced(scratch: Seq<Entry>, ee: Seq<Entry>, i: int) -> bool {
    forall|j: int| 0 <= j < scratch.len() ==> #[trigger] from_prefix(scratch[j], ee, i)
}

/// Every one of the first `i` scored fleet entries that is not held in the
/// scratch scores strictly later than everything the scratch holds.
pub open spec fn dominates(scratch: Seq<Entry>, ee: Seq<Entry>, i: int) -> bool {
    forall|p: int, j: int|
        0 <= p < i && 0 <= j < scratch.len() && !scratch.contains(#[trigger] ee[p]) ==> entry_lt(
            #[trigger] scratch[j],
            ee[p],
        )
}

/// When the whole fleet has streamed through a `sourced`, `dominates`
/// scratch without duplicates, the scratch holds exactly the fleet members
/// whose rank in the selection order is below the scratch size: the
/// mathematically smallest-scored set, ties broken by backend id.
proof fn lemma_topk_sets(s: Seq<Backend>, th: u64, scratch: Seq<Entry>)
    requires
        ids_unique(s),
        scratch.no_duplicates(),
        scratch.len() <= s.len(),
        sourced(scratch, entries_of(s, th), s.len() as int),
        dominates(scratch, entries_of(s, th), s.len() as int),
    ensures
        forall|p: int|
            0 <= p < s.len() ==> (scratch.contains(#[trigger] entries_of(s, th)[p])
                <==> num_scored_before(s, th, s[p]) < scratch.len()),
{
    broadcast use vstd::seq_lib::group_filter_ensures;
    broadcast use Seq::lemma_filter_contains_rev;
    broadcast use vstd::seq_lib::seq_to_set_is_finite;
    broadcast use vstd::set::group_set_axioms;

    let ee = entries_of(s, th);
    let k = scratch.len() as int;
    lemma_entries_no_dup(s, th);
    scratch.unique_seq_to_set();
    assert forall|p: int| 0 <= p < s.len() implies (scratch.contains(#[trigger] ee[p])
        <==> num_scored_before(s, th, s[p]) < k) by {
        let e = ee[p];
        assert(e == entry_of(th, s[p]));
        let pred = scored_before(th, s[p]);
        let f = ee.filter(pred);
        lemma_filter_no_duplicates(ee, pred);
        f.unique_seq_to_set();
        if scratch.contains(e) {
            let je = choose|je: int| 0 <= je < scratch.len() && scratch[je] == e;
            assert forall|x: Entry| f.to_set().contains(x) implies scratch.to_set().remove(
                e,
            ).contains(x) by {
                assert(f.contains(x));
                let fx = choose|fx: int| 0 <= fx < f.len() && f[fx] == x;
                assert(pred(f[fx]));
                assert(entry_lt(x, e));
                assert(ee.contains(x));
                let q = choose|q: int| 0 <= q < ee.len() && ee[q] == x;
                if !scratch.contains(x) {
                    assert(!scratch.contains(ee[q]));
                    assert(entry_lt(scratch[je], ee[q]));
                    assert(entry_lt(e, x));
                    Entry::lemma_leq_antisym(x, e);
                    assert(false);
                }
                assert(scratch.to_set().contains(x));
            }
            vstd::set_lib::lemma_len_subset(f.to_set(), scratch.to_set().remove(e));
            assert(scratch.to_set().contains(e));
            assert(scratch.to_set().remove(e).len() == k - 1);
            assert(f.len() == f.to_set().len());
            assert(num_scored_before(s, th, s[p]) < k);
        } else {
            assert forall|x: Entry| scratch.to_set().contains(x) implies f.to_set().contains(
                x,
            ) by {
                assert(scratch.contains(x));
                let j = choose|j: int| 0 <= j < scratch.len() && scratch[j] == x;
                assert(from_prefix(scratch[j], ee, s.len() as int));
                let q = source_index(scratch[j], ee, s.len() as int);
                assert(!scratch.contains(ee[p]));
                assert(entry_lt(scratch[j], ee[p]));
                assert(pred(ee[q]));
                assert(f.contains(ee[q]));
            }
            vstd::set_lib::lemma_len_subset(scratch.to_set(), f.to_set());
            f.lemma_cardinality_of_set();
            assert(f.len() >= k);
        }
    }
}

/// How many scratch entries are `Up`.
pub open spec fn count_up(s: Seq<Entry>) -> int
    decreases s.len(),
{
    if s.len() == 0 {
        0
    } else {
        count_up(s.drop_last()) + if s.last().b.health == Health::Up {
            1int
        } else {
            0int
        }
    }
}

proof fn lemma_count_up_bounds(s: Seq<Entry>)
    ensures
        0 <= count_up(s) <= s.len(),
        count_up(s) > 0 <==> exists|i: int| 0 <= i < s.len() && s[i].b.health == Health::Up,
    decreases s.len(),
{
    if s.len() > 0 {
        lemma_count_up_bounds(s.drop_last());
        if count_up(s) > 0 {
            if s.last().b.health == Health::Up {
                assert(s[s.len() - 1].b.health == Health::Up);
            } else {
                let i = choose|i: int|
                    0 <= i < s.drop_last().len() && s.drop_last()[i].b.health == Health::Up;
                assert(s[i].b.health == Health::Up);
            }
        }
        if exists|i: int| 0 <= i < s.len() && s[i].b.health == Health::Up {
            let i = choose|i: int| 0 <= i < s.len() && s[i].b.health == Health::Up;
            if i < s.len() - 1 {
                assert(s.drop_last()[i].b.health == Health::Up);
            }
        }
    }
}

/// No fleet member is draining: for this picker, `register(id, Draining)`
/// removes the backend outright, so the scoring set only ever holds `Up` and
/// `Down` members.
pub open spec fn no_draining(s: Seq<Backend>) -> bool {
    forall|i: int| 0 <= i < s.len() ==> #[trigger] s[i].health != Health::Draining
}

/// The preferred picker: a tenant's shard is the `shard_size` backends with
/// the smallest `combine(hash(tenant), backend.hash)` scores (ties broken by
/// backend id), found with a streaming max-heap of `shard_size` entries, and
/// one `Up` shard member is then drawn uniformly with the picker-owned PRNG.
/// Draining is a membership change here, not a health change: a draining
/// backend leaves the scoring set at registration time, which keeps the
/// top-`shard_size` set stable for the members that remain.
pub struct RendevouzShuffle {
    backends: Vec<Backend>,
    shard_size: usize,
    prng: SmallRng,
    scratch: Vec<Entry>,
}

impl RendevouzShuffle {
    /// The current fleet, in registration order.
    pub closed spec fn fleet(&self) -> Seq<Backend> {
        self.backends@
    }

    /// The configured shard size.
    pub closed spec fn shard(&self) -> usize {
        self.shard_size
    }

    /// Whether a pick is allowed right now: the fleet must hold at least a
    /// shard's worth of backends.
    pub fn ready(&self) -> (r: bool)
        ensures
            r == self.pick_ready(),
    {
        self.backends.len() >= self.shard_size
    }
}

impl Picker for RendevouzShuffle {
    closed spec fn inv(&self) -> bool {
        &&& ids_unique(self.backends@)
        &&& crate::hashes_consistent(self.backends@)
        &&& no_draining(self.backends@)
        &&& self.shard_size >= 1
    }

    /// A pick demands a fleet at least as large as the shard size; the
    /// caller must register enough backends before the first pick.
    open spec fn pick_ready(&self) -> bool {
        self.fleet().len() >= self.shard()
    }

    open spec fn is_member(&self, id: BackendId) -> bool {
        has_backend(self.fleet(), id)
    }

    open spec fn member_count(&self) -> nat {
        self.fleet().len()
    }

    open spec fn is_up_member(&self, id: BackendId) -> bool {
        up_with_id(self.fleet(), id)
    }

    open spec fn stores_health(&self) -> bool {
        true
    }

    open spec fn pick_guaranteed(&self) -> bool {
        forall|x: BackendId| has_backend(self.fleet(), x) ==> #[trigger] up_with_id(self.fleet(), x)
    }

    fn new(shard_size: usize) -> (r: Self)
        ensures
            r.fleet() == Seq::<Backend>::empty(),
            r.shard() == shard_size,
    {
        RendevouzShuffle {
            backends: Vec::new(),
            shard_size,
            prng: rng_from_seed(PRNG_SEED),
            scratch: Vec::with_capacity(shard_size),
        }
    }

    /// Upsert for `Up` and `Down`; `Draining` removes the backend outright,
    /// exactly as `unregister` would.
    fn register(&mut self, id: BackendId, health: Health)
        ensures
            final(self).shard() == old(self).shard(),
            health == Health::Draining ==> !has_backend(final(self).fleet(), id),
            health == Health::Draining && !has_backend(old(self).fleet(), id)
                ==> final(self).fleet() == old(self).fleet(),
            health == Health::Draining && has_backend(old(self).fleet(), id) ==> exists|i: int|
                0 <= i < old(self).fleet().len() && #[trigger] old(self).fleet()[i].id == id
                    && final(self).fleet() == old(self).fleet().remove(i),
            health != Health::Draining && has_backend(old(self).fleet(), id) ==> exists|i: int|
                0 <= i < old(self).fleet().len() && #[trigger] old(self).fleet()[i].id == id
                    && final(self).fleet() == old(self).fleet().update(
                    i,
                    (Backend { id, health, hash: hash_of(id.0) }),
                ),
            health != Health::Draining && !has_backend(old(self).fleet(), id)
                ==> final(self).fleet() == old(self).fleet().push(
                (Backend { id, health, hash: hash_of(id.0) }),
            ),
            health != Health::Draining ==> forall|x: BackendId|
                has_backend(final(self).fleet(), x) <==> (has_backend(old(self).fleet(), x) || x
                    == id),
            health == Health::Draining ==> forall|x: BackendId|
                has_backend(final(self).fleet(), x) <==> (has_backend(old(self).fleet(), x) && x
                    != id),
    {
        if matches!(health, Health::Draining) {
            crate::fleet::remove_by_id(&mut self.backends, id);
            proof {
                let s0 = old(self).fleet();
                let s1 = self.backends@;
                crate::lemma_remove_ids(s0, s1, id);
                if has_backend(s0, id) {
                    let i = choose|i: int|
                        0 <= i < s0.len() && #[trigger] s0[i].id == id && s1 == s0.remove(i);
                    crate::lemma_remove_up_ids(s0, s1, i);
                    if up_with_id(s0, id) {
                        let j = choose|j: int|
                            0 <= j < s0.len() && #[trigger] s0[j].id == id && s0[j].health
                                == Health::Up;
                        assert(j == i);
                    }
                    assert(forall|p: int|
                        0 <= p < s1.len() ==> s1[p] == (if p < i {
                            s0[p]
                        } else {
                            s0[p + 1]
                        }));
                }
            }
        } else {
            crate::fleet::upsert(&mut self.backends, id, health);
            proof {
                let s0 = old(self).fleet();
                let s1 = self.backends@;
                crate::lemma_upsert_ids(s0, s1, id, health);
                if has_backend(s0, id) {
                    let i0 = choose|i0: int|
                        0 <= i0 < s0.len() && #[trigger] s0[i0].id == id && s1 == s0.update(
                            i0,
                            (Backend { id, health, hash: s0[i0].hash }),
                        );
                    crate::lemma_update_up_ids(
                        s0,
                        s1,
                        i0,
                        Backend { id, health, hash: s0[i0].hash },
                    );
                }
                if !has_backend(s0, id) {
                    assert(s1 =~= s0.insert(
                        s0.len() as int,
                        (Backend { id, health, hash: hash_of(id.0) }),
                    ));
                    crate::lemma_insert_up_ids(
                        s0,
                        s1,
                        s0.len() as int,
                        Backend { id, health, hash: hash_of(id.0) },
                    );
                }
                if has_backend(s0, id) {
                    let i = choose|i: int|
                        0 <= i < s0.len() && #[trigger] s0[i].id == id && s1 == s0.update(
                            i,
                            (Backend { id, health, hash: s0[i].hash }),
                        );
                    assert(s0[i].hash == hash_of(s0[i].id.0));
                    assert(s1 == s0.update(i, (Backend { id, health, hash: hash_of(id.0) })));
                    assert(forall|p: int|
                        0 <= p < s1.len() ==> #[trigger] s1[p].health == (if p == i {
                            health
                        } else {
                            s0[p].health
                        }));
                }
            }
        }
    }

    fn unregister(&mut self, id: BackendId)
        ensures
            final(self).shard() == old(self).shard(),
            !has_backend(final(self).fleet(), id),
            !has_backend(old(self).fleet(), id) ==> final(self).fleet() == old(self).fleet(),
            has_backend(old(self).fleet(), id) ==> exists|i: int|
                0 <= i < old(self).fleet().len() && #[trigger] old(self).fleet()[i].id == id
                    && final(self).fleet() == old(self).fleet().remove(i),
            forall|x: BackendId|
                has_backend(final(self).fleet(), x) <==> (has_backend(old(self).fleet(), x) && x
                    != id),
    {
        crate::fleet::remove_by_id(&mut self.backends, id);
        proof {
            let s0 = old(self).fleet();
            let s1 = self.backends@;
            crate::lemma_remove_ids(s0, s1, id);
            if has_backend(s0, id) {
                let i0 = choose|i0: int|
                    0 <= i0 < s0.len() && #[trigger] s0[i0].id == id && s1 == s0.remove(i0);
                crate::lemma_remove_up_ids(s0, s1, i0);
                if up_with_id(s0, id) {
                    let j0 = choose|j0: int|
                        0 <= j0 < s0.len() && #[trigger] s0[j0].id == id && s0[j0].health
                            == Health::Up;
                    assert(j0 == i0);
                }
            }
            if has_backend(s0, id) {
                let i = choose|i: int|
                    0 <= i < s0.len() && #[trigger] s0[i].id == id && s1 == s0.remove(i);
                assert(forall|p: int|
                    0 <= p < s1.len() ==> s1[p] == (if p < i {
                        s0[p]
                    } else {
                        s0[p + 1]
                    }));
            }
        }
    }

    /// Stream the fleet through a max-heap of `shard_size` entries keyed by
    /// `combine(hash(tenant), backend.hash)`, so that the heap ends up
    /// holding the `shard_size` smallest-scored backends (ties broken by
    /// backend id); then draw uniformly among the `Up` members of that
    /// shard. `None` exactly when the shard has no `Up` member.
    fn pick(&mut self, id: TenantId) -> (r: Option<BackendId>)
        ensures
            final(self).fleet() == old(self).fleet(),
            final(self).shard() == old(self).shard(),
            r is Some ==> exists|i: int|
                0 <= i < final(self).fleet().len() && #[trigger] final(self).fleet()[i].id == r->0
                    && final(self).fleet()[i].health == Health::Up && in_shard(
                    final(self).fleet(),
                    hash_of(id.0),
                    old(self).shard() as int,
                    final(self).fleet()[i],
                ),
            r is Some <==> exists|i: int|
                0 <= i < final(self).fleet().len() && #[trigger] final(self).fleet()[i].health
                    == Health::Up && in_shard(
                    final(self).fleet(),
                    hash_of(id.0),
                    old(self).shard() as int,
                    final(self).fleet()[i],
                ),
    {
        let n = self.backends.len();
        let k = self.shard_size;
        let th = crate::hash(id.0);
        let ghost ee = entries_of(old(self).fleet(), th);
        proof {
            lemma_entries_no_dup(self.backends@, th);
        }
        self.scratch.clear();
        let mut j: usize = 0;
        while j < k
            invariant
                old(self).inv(),
                n == self.backends@.len(),
                k == self.shard_size,
                k <= n,
                j <= k,
                th == hash_of(id.0),
                ee == entries_of(self.backends@, th),
                self.backends@ == old(self).backends@,
                self.shard_size == old(self).shard_size,
                self.scratch@.len() == j,
                forall|q: int| 0 <= q < j ==> #[trigger] self.scratch@[q] == ee[q],
            decreases k - j,
        {
            let b = self.backends[j];
            let sc = combine(th, b.hash);
            self.scratch.push(Entry { score: sc, b });
            j += 1;
        }
        let ghost seed = self.scratch@;
        proof {
            assert(seed =~= ee.take(k as int));
        }
        rebuild_heap(&mut self.scratch);
        proof {
            broadcast use vstd::seq_lib::group_to_multiset_ensures;

            lemma_entries_no_dup(self.backends@, th);
            assert(seed.no_duplicates());
            seed.lemma_multiset_has_no_duplicates();
            self.scratch@.lemma_multiset_has_no_duplicates_conv();
            assert forall|q: int| 0 <= q < self.scratch@.len() implies #[trigger] from_prefix(
                self.scratch@[q],
                ee,
                k as int,
            ) by {
                let x = self.scratch@[q];
                assert(self.scratch@.contains(x));
                assert(self.scratch@.to_multiset().count(x) > 0);
                assert(seed.to_multiset().count(x) > 0);
                assert(seed.contains(x));
                let p = choose|p: int| 0 <= p < seed.len() && seed[p] == x;
                assert(x == ee[p]);
            }
            assert forall|p: int| 0 <= p < k implies self.scratch@.contains(#[trigger] ee[p]) by {
                assert(seed[p] == ee[p]);
                assert(seed.contains(ee[p]));
                assert(seed.to_multiset().count(ee[p]) > 0);
                assert(self.scratch@.to_multiset().count(ee[p]) > 0);
            }
            assert(sourced(self.scratch@, ee, k as int));
            assert(dominates(self.scratch@, ee, k as int));
        }
        let mut i: usize = k;
        while i < n
            invariant
                old(self).inv(),
                n == self.backends@.len(),
                k == self.shard_size,
                1 <= k <= n,
                k <= i <= n,
                th == hash_of(id.0),
                ee == entries_of(self.backends@, th),
                ee.len() == n,
                ee.no_duplicates(),
                self.backends@ == old(self).backends@,
                self.shard_size == old(self).shard_size,
                self.scratch@.len() == k,
                is_heap(self.scratch@),
                self.scratch@.no_duplicates(),
                sourced(self.scratch@, ee, i as int),
                dominates(self.scratch@, ee, i as int),
            decreases n - i,
        {
            let b = self.backends[i];
            let sc = combine(th, b.hash);
            let e = Entry { score: sc, b };
            proof {
                assert(e == ee[i as int]);
            }
            let root = self.scratch[0];
            if root.leq_exec(&e) {
                // The new entry scores no earlier than everything held: it
                // stays out, and domination extends to it.
                proof {
                    assert forall|j2: int| 0 <= j2 < k implies entry_lt(
                        #[trigger] self.scratch@[j2],
                        e,
                    ) by {
                        lemma_heap_le_root(self.scratch@, j2);
                        Entry::lemma_leq_trans(self.scratch@[j2], root, e);
                        let p = source_index(self.scratch@[j2], ee, i as int);
                        assert(ee[p] != ee[i as int]);
                    }
                    assert forall|q: int| 0 <= q < self.scratch@.len()
                        implies #[trigger] from_prefix(self.scratch@[q], ee, i + 1) by {
                        let p = source_index(self.scratch@[q], ee, i as int);
                        assert(self.scratch@[q] == ee[p]);
                    }
                    assert(!self.scratch@.contains(e)) by {
                        if self.scratch@.contains(e) {
                            let j2 = choose|j2: int|
                                0 <= j2 < k && self.scratch@[j2] == e;
                            assert(entry_lt(self.scratch@[j2], e));
                        }
                    }
                }
            } else {
                proof {
                    Entry::lemma_leq_total(root, e);
                    assert(e.leq(root) && e != root);
                }
                let ghost s_pre = self.scratch@;
                self.scratch.set(0, e);
                sift_down(&mut self.scratch, 0);
                proof {
                    broadcast use vstd::seq_lib::group_to_multiset_ensures;
                    broadcast use vstd::seq_lib::to_multiset_update;

                    let s_mid = s_pre.update(0, e);
                    let s_new = self.scratch@;
                    assert(s_new.to_multiset() == s_mid.to_multiset());
                    assert(s_mid.to_multiset() == s_pre.to_multiset().insert(e).remove(root));
                    s_pre.lemma_multiset_has_no_duplicates();
                    // The old root leaves and the new entry takes its place.
                    assert(!s_pre.contains(e)) by {
                        if s_pre.contains(e) {
                            let q = choose|q: int| 0 <= q < k && s_pre[q] == e;
                            let p = source_index(s_pre[q], ee, i as int);
                            assert(ee[p] == ee[i as int]);
                        }
                    }
                    assert(s_pre.contains(root)) by {
                        assert(s_pre[0] == root);
                    }
                    assert(s_new.to_multiset().count(root) == 0);
                    assert(s_new.to_multiset().count(e) == 1);
                    assert(!s_new.contains(root));
                    assert(s_new.contains(e));
                    assert forall|x: Entry| s_new.contains(x) && x != e implies s_pre.contains(
                        x,
                    ) && x != root by {
                        assert(s_new.to_multiset().count(x) > 0);
                        assert(s_pre.to_multiset().count(x) > 0);
                    }
                    // No duplicates survive the replacement.
                    assert forall|x: Entry| s_new.to_multiset().contains(x)
                        implies s_new.to_multiset().count(x) == 1 by {
                        if x == e {
                        } else {
                            assert(s_pre.to_multiset().count(x) <= 1);
                        }
                    }
                    s_new.lemma_multiset_has_no_duplicates_conv();
                    // Everything the scratch held is sourced, and so is `e`.
                    assert forall|q: int| 0 <= q < s_new.len() implies #[trigger] from_prefix(
                        s_new[q],
                        ee,
                        i + 1,
                    ) by {
                        let x = s_new[q];
                        if x == e {
                            assert(x == ee[i as int]);
                        } else {
                            assert(s_pre.contains(x));
                            let q2 = choose|q2: int| 0 <= q2 < k && s_pre[q2] == x;
                            let p = source_index(s_pre[q2], ee, i as int);
                            assert(x == ee[p]);
                        }
                    }
                    // Domination: anything outside the new scratch scores
                    // later than everything inside it.
                    assert forall|p: int, j2: int|
                        0 <= p < i + 1 && 0 <= j2 < s_new.len() && !s_new.contains(#[trigger] ee[p])
                            implies entry_lt(#[trigger] s_new[j2], ee[p]) by {
                        let x = s_new[j2];
                        if p == i {
                            assert(false);
                        } else if ee[p] == root {
                            if x == e {
                            } else {
                                assert(s_pre.contains(x));
                                let q2 = choose|q2: int| 0 <= q2 < k && s_pre[q2] == x;
                                lemma_heap_le_root(s_pre, q2);
                                assert(x.leq(root));
                                assert(x != root);
                            }
                        } else if s_pre.contains(ee[p]) {
                            // still inside: count unchanged
                            assert(s_pre.to_multiset().count(ee[p]) == 1);
                            assert(s_new.to_multiset().count(ee[p]) == 1);
                            assert(s_new.contains(ee[p]));
                            assert(false);
                        } else {
                            assert(entry_lt(s_pre[0], ee[p]));
                            if x == e {
                                assert(e.leq(root));
                                assert(root.leq(ee[p]));
                                Entry::lemma_leq_trans(e, root, ee[p]);
                                assert(e != ee[p]);
                            } else {
                                assert(s_pre.contains(x));
                                let q2 = choose|q2: int| 0 <= q2 < k && s_pre[q2] == x;
                                assert(entry_lt(s_pre[q2], ee[p]));
                            }
                        }
                    }
                    assert(sourced(s_new, ee, i + 1));
                    assert(dominates(s_new, ee, i + 1));
                }
            }
            i += 1;
        }
        proof {
            lemma_topk_sets(self.backends@, th, self.scratch@);
        }
        // Count the healthy shard members.
        let mut healthy: usize = 0;
        let mut j2: usize = 0;
        while j2 < k
            invariant
                k == self.scratch@.len(),
                j2 <= k,
                healthy as int == count_up(self.scratch@.take(j2 as int)),
                healthy <= j2,
            decreases k - j2,
        {
            proof {
                assert(self.scratch@.take(j2 + 1).drop_last() =~= self.scratch@.take(j2 as int));
                assert(self.scratch@.take(j2 + 1).last() == self.scratch@[j2 as int]);
            }
            if matches!(self.scratch[j2].b.health, Health::Up) {
                healthy += 1;
            }
            j2 += 1;
        }
        proof {
            assert(self.scratch@.take(k as int) =~= self.scratch@);
            lemma_count_up_bounds(self.scratch@);
        }
        let ghost chosen_set = self.scratch@;
        if healthy == 0 {
            // In an all-Up fleet the shard itself is all Up, so this branch
            // cannot be reached.
            proof {
                if old(self).pick_guaranteed() {
                    let x = self.scratch@[0];
                    assert(from_prefix(x, ee, n as int));
                    let p = source_index(x, ee, n as int);
                    assert(x.b == self.backends@[p]);
                    assert(has_backend(self.backends@, x.b.id)) by {
                        assert(self.backends@[p].id == x.b.id);
                    }
                    assert(up_with_id(self.backends@, x.b.id));
                    let w = choose|w: int|
                        0 <= w < self.backends@.len() && #[trigger] self.backends@[w].id == x.b.id
                            && self.backends@[w].health == Health::Up;
                    assert(w == p);
                    assert(x.b.health == Health::Up);
                    assert(count_up(self.scratch@) > 0);
                    assert(false);
                }
            }
            // Nothing in the shard is `Up`; and any `Up` shard member of the
            // fleet would have to be held by the scratch.
            proof {
                assert forall|w: int|
                    0 <= w < self.backends@.len() && #[trigger] self.backends@[w].health
                        == Health::Up implies !in_shard(
                    self.backends@,
                    th,
                    k as int,
                    self.backends@[w],
                ) by {
                    if in_shard(self.backends@, th, k as int, self.backends@[w]) {
                        assert(num_scored_before(self.backends@, th, self.backends@[w]) < k);
                        assert(ee[w] == entry_of(th, self.backends@[w]));
                        assert(chosen_set.contains(ee[w]));
                        let q = choose|q: int| 0 <= q < k && chosen_set[q] == ee[w];
                        assert(chosen_set[q].b.health == Health::Up);
                        assert(count_up(chosen_set) > 0);
                    }
                }
            }
            return None;
        }
        let draw = rng_below(&mut self.prng, healthy);
        let mut seen: usize = 0;
        let mut j3: usize = 0;
        while j3 < k
            invariant
                old(self).inv(),
                n == self.backends@.len(),
                k == self.shard_size,
                1 <= k <= n,
                th == hash_of(id.0),
                ee == entries_of(self.backends@, th),
                self.backends@ == old(self).backends@,
                self.shard_size == old(self).shard_size,
                self.scratch@ == chosen_set,
                k == self.scratch@.len(),
                sourced(self.scratch@, ee, n as int),
                forall|p: int|
                    0 <= p < n ==> (chosen_set.contains(#[trigger] ee[p]) <==> num_scored_before(
                        self.backends@,
                        th,
                        self.backends@[p],
                    ) < k),
                j3 <= k,
                seen as int == count_up(self.scratch@.take(j3 as int)),
                seen <= draw,
                draw < healthy,
                healthy as int == count_up(self.scratch@),
            decreases k - j3,
        {
            proof {
                assert(self.scratch@.take(j3 + 1).drop_last() =~= self.scratch@.take(j3 as int));
                assert(self.scratch@.take(j3 + 1).last() == self.scratch@[j3 as int]);
            }
            let e = self.scratch[j3];
            if matches!(e.b.health, Health::Up) {
                if seen == draw {
                    proof {
                        assert(self.scratch@.contains(e)) by {
                            assert(self.scratch@[j3 as int] == e);
                        }
                        assert(from_prefix(self.scratch@[j3 as int], ee, n as int));
                        let p = source_index(self.scratch@[j3 as int], ee, n as int);
                        assert(ee[p].b == self.backends@[p]);
                        assert(self.backends@[p].health == Health::Up);
                        assert(chosen_set.contains(ee[p]));
                        assert(num_scored_before(self.backends@, th, self.backends@[p]) < k);
                        assert(self.backends@.contains(self.backends@[p]));
                        assert(in_shard(self.backends@, th, k as int, self.backends@[p]));
                        assert(self.backends@[p].id == e.b.id);
                    }
                    return Some(e.b.id);
                }
                seen += 1;
            }
            j3 += 1;
        }
        proof {
            assert(self.scratch@.take(k as int) =~= self.scratch@);
            assert(seen as int == count_up(self.scratch@));
            assert(false);
        }
        None
    }
}

/// The indices of the fleet members inside the tenant's shard.
pub open spec fn shard_indices(s: Seq<Backend>, th: u64, k: int) -> Set<int> {
    Set::new(|p: int| 0 <= p < s.len() && in_shard(s, th, k, s[p]))
}

/// A member that scores strictly earlier than another has strictly fewer
/// members scoring before it.
proof fn lemma_rank_strictly_monotonic(s: Seq<Backend>, th: u64, p: int, q: int)
    requires
        ids_unique(s),
        0 <= p < s.len(),
        0 <= q < s.len(),
        entry_lt(entry_of(th, s[p]), entry_of(th, s[q])),
    ensures
        num_scored_before(s, th, s[p]) < num_scored_before(s, th, s[q]),
{
    broadcast use vstd::seq_lib::group_filter_ensures;
    broadcast use Seq::lemma_filter_contains_rev;
    broadcast use vstd::seq_lib::seq_to_set_is_finite;
    broadcast use vstd::set::group_set_axioms;

    let ee = entries_of(s, th);
    let ep = entry_of(th, s[p]);
    let eq = entry_of(th, s[q]);
    let fp = ee.filter(scored_before(th, s[p]));
    let fq = ee.filter(scored_before(th, s[q]));
    lemma_entries_no_dup(s, th);
    lemma_filter_no_duplicates(ee, scored_before(th, s[p]));
    lemma_filter_no_duplicates(ee, scored_before(th, s[q]));
    fp.unique_seq_to_set();
    fq.unique_seq_to_set();
    assert forall|x: Entry| fp.to_set().insert(ep).contains(x) implies fq.to_set().contains(
        x,
    ) by {
        if x == ep {
            assert(ee[p] == ep);
            assert(scored_before(th, s[q])(ep));
            assert(fq.contains(ee[p]));
        } else {
            assert(fp.contains(x));
            let fx = choose|fx: int| 0 <= fx < fp.len() && fp[fx] == x;
            assert(scored_before(th, s[p])(fp[fx]));
            assert(entry_lt(x, ep));
            assert(ee.contains(x));
            let w = choose|w: int| 0 <= w < ee.len() && ee[w] == x;
            assert(x != eq) by {
                if x == eq {
                    Entry::lemma_leq_antisym(ep, eq);
                }
            }
            Entry::lemma_leq_trans(x, ep, eq);
            assert(scored_before(th, s[q])(ee[w]));
            assert(fq.contains(ee[w]));
        }
    }
    assert(!fp.to_set().contains(ep)) by {
        if fp.to_set().contains(ep) {
            assert(fp.contains(ep));
            let fx = choose|fx: int| 0 <= fx < fp.len() && fp[fx] == ep;
            assert(scored_before(th, s[p])(fp[fx]));
            assert(entry_lt(ep, ep));
        }
    }
    assert(fp.to_set().insert(ep).len() == fp.to_set().len() + 1);
    vstd::set_lib::lemma_len_subset(fp.to_set().insert(ep), fq.to_set());
}

/// Distinct fleet members have distinct ranks in the selection order.
proof fn lemma_rank_injective(s: Seq<Backend>, th: u64, p: int, q: int)
    requires
        ids_unique(s),
        0 <= p < s.len(),
        0 <= q < s.len(),
        p != q,
    ensures
        num_scored_before(s, th, s[p]) != num_scored_before(s, th, s[q]),
{
    let ep = entry_of(th, s[p]);
    let eq = entry_of(th, s[q]);
    assert(ep.b == s[p] && eq.b == s[q]);
    assert(ep != eq) by {
        assert(s[p].id != s[q].id);
    }
    Entry::lemma_leq_total(ep, eq);
    if ep.leq(eq) {
        lemma_rank_strictly_monotonic(s, th, p, q);
    } else {
        assert(eq.leq(ep));
        lemma_rank_strictly_monotonic(s, th, q, p);
    }
}

/// Shard containment: for any fleet without repeated ids, any tenant hash
/// and any shard size `k`, at most `k` fleet members are in the tenant's
/// shard. Since `pick` only ever returns shard members, all picks of one
/// tenant over a static fleet fall within a set of at most `k` backends.
pub proof fn lemma_shard_containment(s: Seq<Backend>, th: u64, k: int)
    requires
        ids_unique(s),
        k >= 0,
    ensures
        shard_indices(s, th, k).finite(),
        shard_indices(s, th, k).len() <= k,
{
    broadcast use vstd::set::group_set_axioms;

    let si = shard_indices(s, th, k);
    let range = vstd::set_lib::set_int_range(0, s.len() as int);
    vstd::set_lib::lemma_int_range(0, s.len() as int);
    assert(si.subset_of(range));
    vstd::set_lib::lemma_len_subset(si, range);
    let rank = |p: int| num_scored_before(s, th, s[p]) as int;
    assert forall|p: int, q: int| si.contains(p) && si.contains(q) && rank(p) == rank(q)
        implies p == q by {
        if p != q {
            lemma_rank_injective(s, th, p, q);
        }
    }
    assert(vstd::relations::injective_on(rank, si));
    let image = si.map(rank);
    vstd::set_lib::lemma_map_size(si, image, rank);
    let krange = vstd::set_lib::set_int_range(0, k);
    vstd::set_lib::lemma_int_range(0, k);
    assert forall|x: int| image.contains(x) implies krange.contains(x) by {
        let p = choose|p: int| si.contains(p) && rank(p) == x;
        assert(in_shard(s, th, k, s[p]));
    }
    assert(image.subset_of(krange));
    vstd::set_lib::lemma_len_subset(image, krange);
}

/// Scoring against a fleet with one more backend pushes a member's rank up
/// by one exactly when the newcomer scores earlier than it, and leaves it
/// unchanged otherwise.
proof fn lemma_rank_after_push(s: Seq<Backend>, th: u64, b: Backend, x: Backend)
    ensures
        num_scored_before(s.push(b), th, x) == num_scored_before(s, th, x) + (if entry_lt(
            entry_of(th, b),
            entry_of(th, x),
        ) {
            1int
        } else {
            0int
        }),
{
    reveal(Seq::filter);
    let ee = entries_of(s, th);
    let ee2 = entries_of(s.push(b), th);
    assert(ee2 =~= ee.push(entry_of(th, b)));
    assert(ee2.drop_last() =~= ee);
    assert(ee2.last() == entry_of(th, b));
    let pred = scored_before(th, x);
    if pred(entry_of(th, b)) {
        assert(ee2.filter(pred) == ee.filter(pred).push(entry_of(th, b)));
    } else {
        assert(ee2.filter(pred) == ee.filter(pred));
    }
}

/// Stability under growth: adding one backend to the fleet expels at most
/// one member from any tenant's shard. Over a full fleet recycle this is
/// what bounds a tenant's blast radius: each membership change perturbs the
/// top-`k` set by at most one member.
pub proof fn lemma_shard_stable_under_push(s: Seq<Backend>, th: u64, k: int, b: Backend)
    requires
        ids_unique(s),
    ensures
        Set::new(
            |p: int|
                0 <= p < s.len() && in_shard(s, th, k, s[p]) && !in_shard(
                    s.push(b),
                    th,
                    k,
                    s[p],
                ),
        ).len() <= 1,
{
    broadcast use vstd::set::group_set_axioms;

    let expelled = Set::new(
        |p: int|
            0 <= p < s.len() && in_shard(s, th, k, s[p]) && !in_shard(s.push(b), th, k, s[p]),
    );
    let range = vstd::set_lib::set_int_range(0, s.len() as int);
    vstd::set_lib::lemma_int_range(0, s.len() as int);
    assert(expelled.subset_of(range));
    vstd::set_lib::lemma_len_subset(expelled, range);
    assert forall|p: int| expelled.contains(p) implies num_scored_before(s, th, s[p]) == k
        - 1 by {
        lemma_rank_after_push(s, th, b, s[p]);
        assert(s.push(b)[p] == s[p]);
        assert(s.push(b).contains(s[p]));
    }
    if expelled.len() >= 2 {
        let p = expelled.choose();
        assert(expelled.contains(p));
        let rest = expelled.remove(p);
        assert(rest.len() >= 1);
        let q = rest.choose();
        assert(rest.contains(q));
        assert(expelled.contains(q) && p != q);
        lemma_rank_injective(s, th, p, q);
        assert(false);
    }
}

/// The other half of stability under growth: adding one backend never lets
/// an old member into a shard it was not already in, since ranks can only
/// grow. With `lemma_shard_stable_under_push`, one registration perturbs a
/// tenant's shard among the existing members by at most one expulsion and
/// no admission.
pub proof fn lemma_shard_no_admission_under_push(s: Seq<Backend>, th: u64, k: int, b: Backend)
    ensures
        forall|p: int|
            0 <= p < s.len() && in_shard(s.push(b), th, k, #[trigger] s[p]) ==> in_shard(
                s,
                th,
                k,
                s[p],
            ),
{
    assert forall|p: int|
        0 <= p < s.len() && in_shard(s.push(b), th, k, #[trigger] s[p]) implies in_shard(
        s,
        th,
        k,
        s[p],
    ) by {
        lemma_rank_after_push(s, th, b, s[p]);
        assert(s.contains(s[p]));
    }
}

} // verus!
