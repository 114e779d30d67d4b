//! The strategies that propose candidate codes, under one contract, and
//! the registry that names them.

pub mod node;
pub mod probing;
pub mod random;
pub mod tree_with_surrender;

use crate::attempt::{admitted_by_all, extended_by, is_feedback, Attempt, Score};
use crate::code::{Code, Color, OPEN};
use crate::solver::node::full_tree_size;
use crate::solver::random::Random;
use crate::solver::tree_with_surrender::{TreeWithSurrender, MAX_ATTEMPT_GENERATIONS};
use vstd::prelude::*;

verus! {

/// Every peg of `code` is a color of `palette`.
pub open spec fn drawn_from(code: Seq<Color>, palette: Seq<Color>) -> bool {
    forall|i: int| 0 <= i < code.len() ==> palette.contains(#[trigger] code[i])
}

/// A strategy that proposes candidates and is told how they scored.
pub trait Solver {
    /// The solver can be used: it was made with a palette and a length
    /// that it can work with.
    spec fn ready(&self) -> bool;

    /// The colors of which candidates are made.
    spec fn palette(&self) -> Seq<Color>;

    /// The number of pegs of a candidate.
    spec fn length(&self) -> nat;

    /// The attempts that the solver holds its candidates against.
    spec fn history(&self) -> Seq<Attempt>;

    /// Whether the solver keeps the attempts that it is told.
    spec fn keeps_history(&self) -> bool;

    /// Whether the solver is bound to offer a candidate, now and as long as
    /// it is told nothing but the feedback that `secret` gives on guesses
    /// made of its palette.
    spec fn will_offer(&self, secret: Seq<Color>) -> bool;

    /// A measure of the search that is left to the solver. It never grows.
    spec fn work_left(&self) -> nat;

    /// Whether the solver has found nothing: since its work left was
    /// `work_before`, it has spent the budget of a request in vain, or
    /// nothing is left for it to find.
    spec fn gave_up(&self, work_before: nat) -> bool;

    /// The name under which the solver is registered.
    spec fn label(&self) -> Seq<char>;

    /// Proposes a candidate, or reports with `None` that it found none
    /// within its budget. A candidate has the solver's length, is made of
    /// its palette, and is admitted by every attempt the solver holds.
    fn generate_candidate(&mut self) -> (candidate: Option<Code>)
        requires
            old(self).ready(),
        ensures
            final(self).ready(),
            final(self).palette() == old(self).palette(),
            final(self).length() == old(self).length(),
            final(self).history() == old(self).history(),
            final(self).keeps_history() == old(self).keeps_history(),
            final(self).label() == old(self).label(),
            candidate matches Some(code) ==> {
                &&& code@.len() == old(self).length()
                &&& drawn_from(code@, old(self).palette())
                &&& admitted_by_all(old(self).history(), code@)
            },
            forall|secret: Seq<Color>| #[trigger]
                old(self).will_offer(secret) ==> candidate is Some && final(self).will_offer(
                    secret,
                ),
            final(self).work_left() <= old(self).work_left(),
            candidate is None ==> forall|work_before: nat|
                work_before >= old(self).work_left() ==> #[trigger] final(self).gave_up(
                    work_before,
                ),
    ;

    /// The name under which the solver is registered.
    fn name(&self) -> (name: &str)
        ensures
            name@ == self.label(),
    ;

    /// Tells the solver that the guess `attempt` was answered by `score`.
    fn record_attempt(&mut self, attempt: &Code, score: Score)
        requires
            old(self).ready(),
            attempt@.len() == old(self).length(),
        ensures
            final(self).ready(),
            final(self).palette() == old(self).palette(),
            final(self).length() == old(self).length(),
            final(self).label() == old(self).label(),
            final(self).keeps_history() == old(self).keeps_history(),
            if old(self).keeps_history() {
                extended_by(old(self).history(), final(self).history(), attempt@, score)
            } else {
                final(self).history() == old(self).history()
            },
            forall|secret: Seq<Color>| #[trigger]
                old(self).will_offer(secret) && drawn_from(attempt@, old(self).palette())
                    && is_feedback(score, attempt@, secret) ==> final(self).will_offer(secret),
            final(self).work_left() <= old(self).work_left(),
    ;
}

/// The solvers of the registry, each by the way to make it.
#[derive(Clone, Copy, PartialEq, Eq, Debug, Structural)]
pub enum SolverConstructor {
    /// Makes a `Random`.
    Random,
    /// Makes a `TreeWithSurrender`.
    TreeWithSurrender,
}

/// One of the registered solvers.
pub enum AnySolver {
    Random(Random),
    TreeWithSurrender(TreeWithSurrender),
}

impl SolverConstructor {
    /// The name under which the solver is registered.
    pub open spec fn label(&self) -> Seq<char> {
        match self {
            SolverConstructor::Random => "random"@,
            SolverConstructor::TreeWithSurrender => "tree_with_surrender"@,
        }
    }

    /// The name under which the solver is registered.
    pub fn name(&self) -> (name: &'static str)
        ensures
            name@ == self.label(),
    {
        match self {
            SolverConstructor::Random => "random",
            SolverConstructor::TreeWithSurrender => "tree_with_surrender",
        }
    }

    /// Makes the solver, for codes of `solution_length` pegs over
    /// `available_colors`.
    pub fn construct(&self, available_colors: &Vec<Color>, solution_length: usize) -> (solver:
        AnySolver)
        ensures
            solver.label() == self.label(),
            solver.palette() == available_colors@,
            solver.length() == solution_length,
            solver.history() == Seq::<Attempt>::empty(),
            match self {
                SolverConstructor::Random => solver is Random && (solver.ready() <==> (
                solution_length == 0 || available_colors@.len() > 0)),
                SolverConstructor::TreeWithSurrender => solver is TreeWithSurrender && (
                solver.ready() <==> (!available_colors@.contains(OPEN) && 2 * solution_length
                    <= usize::MAX)),
            },
            forall|secret: Seq<Color>| #[trigger]
                solver.will_offer(secret) <==> (self is Random || (secret.len() == solution_length
                    && drawn_from(secret, available_colors@) && full_tree_size(
                    solution_length as nat,
                    available_colors@.len(),
                ) <= MAX_ATTEMPT_GENERATIONS)),
    {
        match self {
            SolverConstructor::Random => AnySolver::Random(
                Random::new(available_colors, solution_length),
            ),
            SolverConstructor::TreeWithSurrender => AnySolver::TreeWithSurrender(
                TreeWithSurrender::new(available_colors, solution_length),
            ),
        }
    }
}

/// The registry of solvers, in the order of their names.
pub fn solver_constructors() -> (registry: Vec<SolverConstructor>)
    ensures
        registry@ == seq![SolverConstructor::Random, SolverConstructor::TreeWithSurrender],
{
    let mut registry: Vec<SolverConstructor> = Vec::new();
    registry.push(SolverConstructor::Random);
    registry.push(SolverConstructor::TreeWithSurrender);
    proof {
        assert(registry@ =~= seq![
            SolverConstructor::Random,
            SolverConstructor::TreeWithSurrender,
        ]);
    }
    registry
}

impl Solver for AnySolver {
    open spec fn ready(&self) -> bool {
        match self {
            AnySolver::Random(solver) => solver.ready(),
            AnySolver::TreeWithSurrender(solver) => solver.ready(),
        }
    }

    open spec fn palette(&self) -> Seq<Color> {
        match self {
            AnySolver::Random(solver) => solver.palette(),
            AnySolver::TreeWithSurrender(solver) => solver.palette(),
        }
    }

    open spec fn length(&self) -> nat {
        match self {
            AnySolver::Random(solver) => solver.length(),
            AnySolver::TreeWithSurrender(solver) => solver.length(),
        }
    }

    open spec fn history(&self) -> Seq<Attempt> {
        match self {
            AnySolver::Random(solver) => solver.history(),
            AnySolver::TreeWithSurrender(solver) => solver.history(),
        }
    }

    open spec fn keeps_history(&self) -> bool {
        match self {
            AnySolver::Random(solver) => solver.keeps_history(),
            AnySolver::TreeWithSurrender(solver) => solver.keeps_history(),
        }
    }

    open spec fn will_offer(&self, secret: Seq<Color>) -> bool {
        match self {
            AnySolver::Random(solver) => solver.will_offer(secret),
            AnySolver::TreeWithSurrender(solver) => solver.will_offer(secret),
        }
    }

    open spec fn work_left(&self) -> nat {
        match self {
            AnySolver::Random(solver) => solver.work_left(),
            AnySolver::TreeWithSurrender(solver) => solver.work_left(),
        }
    }

    open spec fn gave_up(&self, work_before: nat) -> bool {
        match self {
            AnySolver::Random(solver) => solver.gave_up(work_before),
            AnySolver::TreeWithSurrender(solver) => solver.gave_up(work_before),
        }
    }

    open spec fn label(&self) -> Seq<char> {
        match self {
            AnySolver::Random(solver) => solver.label(),
            AnySolver::TreeWithSurrender(solver) => solver.label(),
        }
    }

    /// Asks the solver it holds.
    fn generate_candidate(&mut self) -> (candidate: Option<Code>)
        ensures
            *old(self) is Random ==> *final(self) is Random && candidate is Some,
            *old(self) is TreeWithSurrender ==> *final(self) is TreeWithSurrender,
    {
        match self {
            AnySolver::Random(solver) => solver.generate_candidate(),
            AnySolver::TreeWithSurrender(solver) => solver.generate_candidate(),
        }
    }

    fn name(&self) -> (name: &str) {
        match self {
            AnySolver::Random(solver) => solver.name(),
            AnySolver::TreeWithSurrender(solver) => solver.name(),
        }
    }

    /// Tells the solver it holds.
    fn record_attempt(&mut self, attempt: &Code, score: Score)
        ensures
            *old(self) is Random ==> *final(self) is Random,
            *old(self) is TreeWithSurrender ==> *final(self) is TreeWithSurrender,
    {
        match self {
            AnySolver::Random(solver) => solver.record_attempt(attempt, score),
            AnySolver::TreeWithSurrender(solver) => solver.record_attempt(attempt, score),
        }
    }
}

} // verus!
