use vstd::prelude::*;
use crate::BackendId;
use rand::rngs::SmallRng;

verus! {

#[verifier::external_type_specification]
#[verifier::external_body]
pub struct ExSmallRng(SmallRng);

/// Relies on rand's `SeedableRng::seed_from_u64` for `SmallRng`: builds a
/// pseudo-random generator whose stream is determined by the seed. The state
/// is opaque here; nothing is claimed about the values it will produce.
#[verifier::external_body]
pub fn rng_from_seed(seed: u64) -> SmallRng {
    <SmallRng as rand::SeedableRng>::seed_from_u64(seed)
}

/// Relies on rand's `Rng::gen_range` on the half-open range `0..n`: returns a
/// value of that range. It panics only on an empty range, which the
/// precondition rules out.
#[verifier::external_body]
pub fn rng_below(rng: &mut SmallRng, n: usize) -> (r: usize)
    requires
        n >= 1,
    ensures
        r < n,
{
    rand::Rng::gen_range(rng, 0..n)
}

/// Relies on rand's `SliceRandom::partial_shuffle`: a partial Fisher-Yates
/// pass that reorders the vector in place so that its last `min(amount, len)`
/// positions hold a randomly selected, randomly ordered subset. Only the
/// order changes: the multiset of elements and the length are preserved.
/// Returns the number of shuffled positions, which sit at the end.
#[verifier::external_body]
pub fn partial_shuffle<T>(v: &mut Vec<T>, rng: &mut SmallRng, amount: usize) -> (m: usize)
    ensures
        final(v)@.len() == old(v)@.len(),
        final(v)@.to_multiset() == old(v)@.to_multiset(),
        m == if amount <= old(v)@.len() {
            amount as int
        } else {
            old(v)@.len() as int
        },
{
    let (shuffled, _rest) = rand::seq::SliceRandom::partial_shuffle(v.as_mut_slice(), rng, amount);
    shuffled.len()
}

/// Relies on rand's `SliceRandom::shuffle`: permutes the vector in place;
/// the multiset of elements and the length are preserved.
#[verifier::external_body]
pub fn shuffle_ids(v: &mut Vec<BackendId>, rng: &mut SmallRng)
    ensures
        final(v)@.len() == old(v)@.len(),
        final(v)@.to_multiset() == old(v)@.to_multiset(),
{
    rand::seq::SliceRandom::shuffle(v.as_mut_slice(), rng);
}

/// Relies on rand's `SliceRandom::choose` applied to the tail `v[start..]`:
/// `None` iff that tail is empty, otherwise some element of it.
#[verifier::external_body]
pub fn choose_from(v: &Vec<BackendId>, start: usize, rng: &mut SmallRng) -> (r: Option<BackendId>)
    requires
        start <= v@.len(),
    ensures
        r is Some <==> start < v@.len(),
        r is Some ==> exists|i: int| start <= i < v@.len() && v@[i] == r->0,
{
    rand::seq::SliceRandom::choose(&v[start..], rng).copied()
}

} // verus!
