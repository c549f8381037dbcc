//! The two calls into `rand` that the game makes. Both results depend on the
//! thread's random generator, so their contracts state only what holds of
//! every outcome.
use vstd::prelude::*;
use rand::Rng;
use rand::seq::SliceRandom;

verus! {

/// Calls `Rng::gen_range(low..=high)` on `rand::thread_rng()`. The source
/// (rand 0.8, `UniformInt::sample_single_inclusive`) returns a value of the
/// inclusive range and panics only when the range is empty, which `requires`
/// rules out. Which value of the range comes back is left unsaid: it rests
/// on the thread's random generator.
#[verifier::external_body]
pub(crate) fn random_in_range(low: usize, high: usize) -> (r: usize)
    requires
        low <= high,
    ensures
        low <= r <= high,
{
    rand::thread_rng().gen_range(low..=high)
}

/// Calls `SliceRandom::shuffle` with `rand::thread_rng()`. The source swaps
/// elements in place (a Fisher-Yates shuffle), so the result is a permutation
/// of the input: the same length and the same multiset of items. Which
/// permutation comes back is left unsaid: it rests on the random generator.
#[verifier::external_body]
pub(crate) fn shuffle_in_place<T>(v: &mut Vec<T>)
    ensures
        final(v)@.len() == old(v)@.len(),
        final(v)@.to_multiset() == old(v)@.to_multiset(),
{
    v.shuffle(&mut rand::thread_rng());
}

} // verus!
