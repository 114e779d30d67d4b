//! A search without a tree: decide the positions of a code one by one, in
//! random order and with random colors, and give up as soon as an attempt
//! rules out what is decided.

use crate::attempt::{admitted_by_all, all_comparable, matches_all, Attempt};
use crate::code::{Code, Color};
use crate::random_index::{select_random_index, shuffle};
use crate::solver::drawn_from;
use rand::thread_rng;
use vstd::prelude::*;
use vstd::seq_lib::{to_multiset_contains, to_multiset_len};

verus! {

/// The position `i` of `code` is still to be decided, or holds a color of
/// `palette`.
spec fn open_or_colored(
    remaining: Seq<usize>,
    code: Seq<Color>,
    palette: Seq<Color>,
    i: int,
) -> bool {
    remaining.contains(i as usize) || palette.contains(code[i])
}

/// The positions of a code of `length` pegs, in increasing order.
fn all_positions(length: usize) -> (positions: Vec<usize>)
    ensures
        positions@.len() == length,
        forall|i: int| 0 <= i < length ==> positions@[i] == i,
{
    let mut positions: Vec<usize> = Vec::new();
    let mut next: usize = 0;
    while next < length
        invariant
            next <= length,
            positions@.len() == next,
            forall|i: int| 0 <= i < next ==> positions@[i] == i,
        decreases length - next,
    {
        positions.push(next);
        next += 1;
    }
    positions
}

/// Tries once to make a code of `length` pegs that every attempt of
/// `previous_guesses` admits. Each step decides one more position; the try
/// fails at the first step whose code an attempt rules out. With nothing
/// recorded the try succeeds; a code of no pegs is made without a test.
pub fn try_select_code(
    length: usize,
    previous_guesses: &Vec<Attempt>,
    available_colors: &Vec<Color>,
) -> (candidate: Option<Code>)
    requires
        length == 0 || available_colors@.len() > 0,
        2 * length <= usize::MAX,
        forall|k: int|
            0 <= k < previous_guesses@.len() ==> (#[trigger] previous_guesses@[k]).guess().len()
                == length,
    ensures
        previous_guesses@.len() == 0 || length == 0 ==> candidate is Some,
        candidate matches Some(code) ==> {
            &&& code@.len() == length
            &&& drawn_from(code@, available_colors@)
            &&& length > 0 ==> admitted_by_all(previous_guesses@, code@)
        },
{
    let mut attempt = Code::with_length(length);
    let mut open_indexes = all_positions(length);
    let ghost ordered = open_indexes@;
    let mut rng = thread_rng();
    shuffle(&mut rng, &mut open_indexes);
    proof {
        to_multiset_len(ordered);
        to_multiset_len(open_indexes@);
        assert forall|i: int| 0 <= i < length implies #[trigger] open_or_colored(
            open_indexes@,
            attempt@,
            available_colors@,
            i,
        ) by {
            assert(ordered[i] == i as usize);
            assert(ordered.contains(i as usize));
            to_multiset_contains(ordered, i as usize);
            to_multiset_contains(open_indexes@, i as usize);
        }
        assert forall|k: int| 0 <= k < open_indexes@.len() implies open_indexes@[k] < length by {
            let index = open_indexes@[k];
            assert(open_indexes@.contains(index));
            to_multiset_contains(ordered, index);
            to_multiset_contains(open_indexes@, index);
            let at = choose|at: int| 0 <= at < ordered.len() && ordered[at] == index;
        }
    }

    while open_indexes.len() > 0
        invariant
            length == 0 || available_colors@.len() > 0,
            2 * length <= usize::MAX,
            forall|k: int|
                0 <= k < previous_guesses@.len() ==> (#[trigger] previous_guesses@[k]).guess().len()
                    == length,
            attempt@.len() == length,
            forall|k: int| 0 <= k < open_indexes@.len() ==> (#[trigger] open_indexes@[k]) < length,
            forall|i: int|
                0 <= i < length ==> #[trigger] open_or_colored(
                    open_indexes@,
                    attempt@,
                    available_colors@,
                    i,
                ),
            open_indexes@.len() < length ==> admitted_by_all(previous_guesses@, attempt@),
        decreases open_indexes@.len(),
    {
        let ghost remaining = open_indexes@;
        let index: usize = open_indexes.pop().unwrap();
        let color: Color = available_colors[select_random_index(available_colors).unwrap()];
        let ghost decided = attempt@;
        attempt.code.set(index, color);
        proof {
            assert(available_colors@.contains(color));
            assert forall|i: int| 0 <= i < length implies #[trigger] open_or_colored(
                open_indexes@,
                attempt@,
                available_colors@,
                i,
            ) by {
                assert(open_or_colored(remaining, decided, available_colors@, i));
                if i != index && remaining.contains(i as usize) {
                    let at = choose|at: int| 0 <= at < remaining.len() && remaining[at] == i as usize;
                    assert(open_indexes@[at] == i as usize);
                }
            }
            assert(all_comparable(previous_guesses@, attempt@));
        }
        if !matches_all(previous_guesses, &attempt) {
            return None;
        }
    }
    proof {
        assert forall|i: int| 0 <= i < length implies available_colors@.contains(
            #[trigger] attempt@[i],
        ) by {
            assert(open_or_colored(open_indexes@, attempt@, available_colors@, i));
        }
    }
    Some(attempt)
}

} // verus!
