//! Random choice: of an index into a vector, and of an order of indexes.
//! This is where the library draws on the random number generator; every
//! contract here holds whatever the generator hands out.

use rand::rngs::ThreadRng;
use rand::seq::SliceRandom;
use rand::thread_rng;
use rand::Rng;
use vstd::prelude::*;
use vstd::std_specs::cmp::PartialEqSpec;

verus! {

/// The handle of `rand` to the random number generator of the thread.
/// Nothing is known of what it holds.
#[verifier::external_type_specification]
#[verifier::external_body]
pub struct ExThreadRng(ThreadRng);

/// `rand::thread_rng` hands out the generator of the thread. Nothing is
/// claimed of it.
pub assume_specification[ rand::thread_rng ]() -> (rng: ThreadRng)
;

/// Draws an index below `bound` with `rand::Rng::gen_range`, with the
/// lower bound 0. Trusted: `gen_range` samples from the half-open range
/// `[0, bound)` and panics only on an empty range, which the precondition
/// excludes. Nothing is claimed about which index comes back.
#[verifier::external_body]
fn random_below(rng: &mut ThreadRng, bound: usize) -> (index: usize)
    requires
        bound > 0,
    ensures
        index < bound,
{
    rng.gen_range(0, bound)
}

/// Brings `items` into a random order with `rand::seq::SliceRandom::shuffle`.
/// Trusted: `shuffle` only swaps items of the slice, so the items after the
/// call are those before it, each as often as before. Nothing is claimed
/// about their order.
#[verifier::external_body]
pub(crate) fn shuffle(rng: &mut ThreadRng, items: &mut Vec<usize>)
    ensures
        final(items)@.to_multiset() == old(items)@.to_multiset(),
{
    items.shuffle(rng);
}

/// Picks a position of `vec` at random; `None` exactly when `vec` is empty.
pub fn select_random_index<T>(vec: &Vec<T>) -> (picked: Option<usize>)
    ensures
        picked is None <==> vec@.len() == 0,
        picked matches Some(index) ==> index < vec@.len(),
{
    if vec.len() > 0 {
        let mut rng = thread_rng();
        let index: usize = random_below(&mut rng, vec.len());
        Some(index)
    } else {
        None
    }
}

/// Picks at random a position of `vec` that holds `target`; `None` exactly
/// when no position does. Equality is the one of `T`, as far as `T` says in
/// `eq_spec` what its `==` computes.
pub fn select_random_matching_index<T: Eq>(vec: &Vec<T>, target: T) -> (picked: Option<usize>)
    ensures
        T::obeys_eq_spec() ==> (picked is None <==> forall|i: int|
            0 <= i < vec@.len() ==> !(#[trigger] vec@[i]).eq_spec(&target)),
        T::obeys_eq_spec() ==> (picked matches Some(index) ==> index < vec@.len()
            && vec@[index as int].eq_spec(&target)),
        picked matches Some(index) ==> index < vec@.len(),
{
    let mut indexes: Vec<usize> = Vec::new();
    let mut i: usize = 0;
    while i < vec.len()
        invariant
            i <= vec@.len(),
            forall|k: int| 0 <= k < indexes@.len() ==> (#[trigger] indexes@[k]) < i,
            T::obeys_eq_spec() ==> forall|k: int|
                0 <= k < indexes@.len() ==> vec@[(#[trigger] indexes@[k]) as int].eq_spec(&target),
            T::obeys_eq_spec() ==> forall|j: int|
                0 <= j < i && (#[trigger] vec@[j]).eq_spec(&target) ==> indexes@.contains(
                    j as usize,
                ),
        decreases vec@.len() - i,
    {
        if vec[i] == target {
            let ghost before = indexes@;
            indexes.push(i);
            proof {
                assert(indexes@[before.len() as int] == i);
                assert forall|j: int|
                    0 <= j < i + 1 && T::obeys_eq_spec() && (#[trigger] vec@[j]).eq_spec(
                        &target,
                    ) implies indexes@.contains(j as usize) by {
                    if j < i {
                        let k = choose|k: int| 0 <= k < before.len() && before[k] == j as usize;
                        assert(indexes@[k] == j as usize);
                    }
                }
            }
        }
        i += 1;
    }
    match select_random_index(&indexes) {
        Some(index) => Some(indexes[index]),
        None => None,
    }
}

} // verus!
