//! The baseline strategy: every candidate is drawn at random, whatever was
//! answered before.

use crate::attempt::{Attempt, Score};
use crate::code::{Code, Color};
use crate::random_index::select_random_index;
use crate::solver::{drawn_from, Solver};
use vstd::prelude::*;

verus! {

/// A solver that draws each peg of each candidate independently from the
/// palette.
pub struct Random {
    available_colors: Vec<Color>,
    solution_length: usize,
}

impl Random {
    /// A solver for codes of `solution_length` pegs over `available_colors`.
    /// It is ready unless it would have to fill a peg from an empty
    /// palette.
    pub fn new(available_colors: &Vec<Color>, solution_length: usize) -> (made: Self)
        ensures
            made.palette() == available_colors@,
            made.length() == solution_length,
            made.ready() <==> (solution_length == 0 || available_colors@.len() > 0),
    {
        Random { available_colors: available_colors.clone(), solution_length }
    }
}

impl Solver for Random {
    closed spec fn ready(&self) -> bool {
        self.solution_length == 0 || self.available_colors@.len() > 0
    }

    closed spec fn palette(&self) -> Seq<Color> {
        self.available_colors@
    }

    closed spec fn length(&self) -> nat {
        self.solution_length as nat
    }

    /// This solver holds its candidates against nothing.
    open spec fn history(&self) -> Seq<Attempt> {
        Seq::empty()
    }

    /// This solver keeps nothing of what it is told.
    open spec fn keeps_history(&self) -> bool {
        false
    }

    /// This solver always has a candidate to offer.
    open spec fn will_offer(&self, secret: Seq<Color>) -> bool {
        true
    }

    /// This solver has no search to do.
    open spec fn work_left(&self) -> nat {
        0
    }

    /// This solver never gives up.
    open spec fn gave_up(&self, work_before: nat) -> bool {
        false
    }

    open spec fn label(&self) -> Seq<char> {
        "random"@
    }

    /// Always proposes a candidate, and changes nothing in the solver.
    fn generate_candidate(&mut self) -> (candidate: Option<Code>)
        ensures
            candidate is Some,
            *final(self) == *old(self),
    {
        let mut code: Vec<Color> = Vec::new();
        let mut filled: usize = 0;
        while filled < self.solution_length
            invariant
                *self == *old(self),
                self.ready(),
                filled <= self.solution_length,
                code@.len() == filled,
                drawn_from(code@, self.available_colors@),
            decreases self.solution_length - filled,
        {
            let index: usize = select_random_index(&self.available_colors).unwrap();
            code.push(self.available_colors[index]);
            filled += 1;
        }
        Some(Code { code })
    }

    fn name(&self) -> (name: &str) {
        "random"
    }

    /// Ignores what it is told.
    fn record_attempt(&mut self, attempt: &Code, score: Score)
        ensures
            *final(self) == *old(self),
    {
    }
}

} // verus!
