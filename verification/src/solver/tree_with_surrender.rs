//! The principal strategy: one search tree for the whole session, walked
//! again for every candidate and held against all attempts recorded so far.

use crate::attempt::{
    admits_all_below, admitted_by_all, all_comparable, extended_by, guesses_complete, is_feedback,
    Attempt, Score,
};
use crate::scoring::lemma_secret_is_admitted;
use crate::code::{completes, is_complete, lemma_all_open, Code, Color, OPEN};
use crate::solver::node::{full_tree_size, Node, SelectionResult};
use crate::solver::{drawn_from, Solver};
use vstd::prelude::*;

verus! {

/// The number of walks into the tree that one request for a candidate may
/// take.
pub const MAX_ATTEMPT_GENERATIONS: usize = 10000;

/// The surrender depth of every walk: after a dead branch the walk climbs
/// this many levels, less one, before it goes on.
pub const SURRENDER_DEPTH: usize = 2;

/// A solver that keeps a search tree and the attempts made so far.
pub struct TreeWithSurrender {
    tree: Node,
    available_colors: Vec<Color>,
    attempts: Vec<Attempt>,
}

impl TreeWithSurrender {
    /// Whether the candidate `full` is still in the solver's tree.
    pub closed spec fn holds(&self, full: Seq<Color>) -> bool {
        self.tree.covers(self.available_colors@, full)
    }

    /// The number of nodes that the solver's tree can still come to hold.
    pub closed spec fn search_space(&self) -> nat {
        self.tree.potential(self.available_colors@.len())
    }

    /// The cached size of the solver's tree.
    pub closed spec fn cached_tree_size(&self) -> usize {
        self.tree.cached_count()
    }

    /// Nothing is left to find: an attempt rules out the code with every
    /// position open, or the root of the tree has lost every child.
    pub closed spec fn dead(&self) -> bool {
        !admitted_by_all(self.attempts@, self.tree.partial()) || self.tree.exhausted()
    }

    /// `only` is the one candidate in the tree that every attempt admits.
    pub open spec fn only_candidate(&self, only: Seq<Color>) -> bool {
        &&& self.holds(only)
        &&& admitted_by_all(self.history(), only)
        &&& forall|full: Seq<Color>|
            self.holds(full) && #[trigger] admitted_by_all(self.history(), full) ==> full == only
    }

    /// A dead tree holds no candidate that every attempt admits, as long as
    /// nothing but submitted guesses was recorded. Where it is the root
    /// that lost every child, the tree holds nothing at all and has shrunk
    /// to its root.
    pub proof fn lemma_dead(solver: TreeWithSurrender)
        requires
            solver.ready(),
            solver.dead(),
        ensures
            guesses_complete(solver.history()) ==> forall|full: Seq<Color>|
                solver.holds(full) ==> !#[trigger] admitted_by_all(solver.history(), full),
            admitted_by_all(solver.history(), Seq::new(solver.length(), |i: int| OPEN)) ==> {
                &&& solver.cached_tree_size() == 1
                &&& solver.search_space() == 1
                &&& forall|full: Seq<Color>| !#[trigger] solver.holds(full)
            },
    {
        let palette = solver.available_colors@;
        let history = solver.attempts@;
        assert(solver.tree.partial() =~= Seq::new(solver.length(), |i: int| OPEN));
        if solver.tree.exhausted() {
            Node::lemma_exhausted(solver.tree, palette);
        } else if guesses_complete(history) {
            assert forall|full: Seq<Color>| solver.holds(full) implies !#[trigger] admitted_by_all(
                history,
                full,
            ) by {
                assert(all_comparable(history, solver.tree.partial()));
                Node::lemma_rejected_holds_none(solver.tree, palette, history, full);
            }
        }
    }

    /// The number of nodes of the solver's tree.
    pub closed spec fn tree_nodes(&self) -> nat {
        self.tree.size()
    }

    /// Nobody has looked into the solver's tree yet.
    pub closed spec fn untouched(&self) -> bool {
        self.tree.unexpanded()
    }

    /// The cached size of the tree is the number of its nodes, as long as
    /// the search space fits a machine word. The search space never grows,
    /// so it is enough that it fitted when the solver was made.
    pub proof fn lemma_tree_size_is_exact(solver: TreeWithSurrender)
        requires
            solver.ready(),
            solver.search_space() <= usize::MAX,
        ensures
            solver.cached_tree_size() == solver.tree_nodes(),
    {
        Node::lemma_size_within_potential(solver.tree, solver.available_colors@.len());
        Node::lemma_count_is_size(solver.tree, solver.available_colors@);
    }

    /// A solver for codes of `solution_length` pegs over `available_colors`,
    /// with nothing recorded and every such code in its tree. It is ready
    /// if the palette does not hold the open marker and two codes of that
    /// length can be scored within a machine word.
    pub fn new(available_colors: &Vec<Color>, solution_length: usize) -> (made: Self)
        ensures
            made.palette() == available_colors@,
            made.length() == solution_length,
            made.history() == Seq::<Attempt>::empty(),
            made.ready() <==> (!available_colors@.contains(OPEN) && 2 * solution_length
                <= usize::MAX),
            made.cached_tree_size() == 1,
            made.tree_nodes() == 1,
            made.untouched(),
            made.search_space() == full_tree_size(
                solution_length as nat,
                available_colors@.len(),
            ),
            forall|full: Seq<Color>| #[trigger]
                made.holds(full) <==> full.len() == solution_length && drawn_from(
                    full,
                    available_colors@,
                ),
            forall|secret: Seq<Color>| #[trigger]
                made.will_offer(secret) <==> made.holds(secret) && made.search_space()
                    <= MAX_ATTEMPT_GENERATIONS,
    {
        let made = TreeWithSurrender {
            tree: Node::new(Code::with_length(solution_length)),
            available_colors: available_colors.clone(),
            attempts: Vec::new(),
        };
        proof {
            let open = made.tree.partial();
            let palette = available_colors@;
            lemma_all_open(open, open.len() as int);
            assert forall|full: Seq<Color>| #[trigger]
                made.holds(full) <==> full.len() == solution_length && drawn_from(
                    full,
                    palette,
                ) by {
                assert(made.tree.covers(palette, full) <==> completes(open, palette, full));
            }
        }
        made
    }

    /// The cached size of the tree: the number of its nodes, as the search
    /// has grown and pruned it.
    pub fn tree_size(&self) -> (size: usize)
        ensures
            size == self.cached_tree_size(),
    {
        self.tree.code_count()
    }
}

impl Solver for TreeWithSurrender {
    closed spec fn ready(&self) -> bool {
        &&& self.tree.well_formed(self.available_colors@)
        &&& !self.available_colors@.contains(OPEN)
        &&& 2 * self.tree.partial().len() <= usize::MAX
        &&& forall|i: int| 0 <= i < self.tree.partial().len() ==> self.tree.partial()[i] == OPEN
        &&& self.attempts@.len() == 0 && self.available_colors@.len() > 0 ==> self.tree.unpruned(
            self.available_colors@,
        )
        &&& forall|k: int|
            0 <= k < self.attempts@.len() ==> (#[trigger] self.attempts@[k]).guess().len()
                == self.tree.partial().len()
    }

    closed spec fn palette(&self) -> Seq<Color> {
        self.available_colors@
    }

    closed spec fn length(&self) -> nat {
        self.tree.partial().len()
    }

    closed spec fn history(&self) -> Seq<Attempt> {
        self.attempts@
    }

    /// This solver keeps every attempt that it is told.
    open spec fn keeps_history(&self) -> bool {
        true
    }

    /// This solver is bound to offer a candidate as long as its tree holds
    /// the secret, every attempt admits the secret, nothing but submitted
    /// guesses was recorded, and the search space is no larger than the
    /// number of walks of one request.
    closed spec fn will_offer(&self, secret: Seq<Color>) -> bool {
        &&& guesses_complete(self.attempts@)
        &&& self.search_space() <= MAX_ATTEMPT_GENERATIONS
        &&& self.holds(secret)
        &&& admitted_by_all(self.attempts@, secret)
    }

    /// The search space of the solver's tree.
    open spec fn work_left(&self) -> nat {
        self.search_space()
    }

    /// The tree is dead, or its search space has shrunk by the number of
    /// walks of one request: every walk that fails cuts a node off it.
    open spec fn gave_up(&self, work_before: nat) -> bool {
        self.dead() || self.search_space() + MAX_ATTEMPT_GENERATIONS <= work_before
    }

    open spec fn label(&self) -> Seq<char> {
        "tree_with_surrender"@
    }

    /// Walks into the tree until a walk ends at a candidate, at most
    /// `MAX_ATTEMPT_GENERATIONS` times. The tree only loses candidates, and
    /// as long as nothing but submitted guesses was recorded it loses none
    /// that every attempt admits.
    ///
    /// A candidate is owed where the tree holds one that every attempt
    /// admits and the search space is no larger than the number of walks:
    /// every walk that fails cuts a node off the search space.
    #[verifier::spinoff_prover]
    #[verifier::rlimit(50)]
    fn generate_candidate(&mut self) -> (candidate: Option<Code>)
        ensures
            candidate matches Some(code) ==> is_complete(code@) && final(self).holds(code@),
            final(self).search_space() <= old(self).search_space(),
            forall|full: Seq<Color>| #[trigger] final(self).holds(full) ==> old(self).holds(full),
            guesses_complete(old(self).history()) ==> forall|full: Seq<Color>|
                old(self).holds(full) && #[trigger] admitted_by_all(old(self).history(), full)
                    ==> final(self).holds(full),
            guesses_complete(old(self).history()) && old(self).search_space()
                <= MAX_ATTEMPT_GENERATIONS ==> (candidate is Some <==> exists|full: Seq<Color>|
                old(self).holds(full) && admitted_by_all(old(self).history(), full)),
            forall|only: Seq<Color>|
                guesses_complete(old(self).history()) && old(self).search_space()
                    <= MAX_ATTEMPT_GENERATIONS && #[trigger] old(self).only_candidate(only) ==> (
                candidate matches Some(code) && code@ == only),
            old(self).dead() ==> candidate is None && final(self).dead(),
            old(self).search_space() <= MAX_ATTEMPT_GENERATIONS && candidate is None
                ==> final(self).dead(),
            candidate is None ==> final(self).dead() || final(self).search_space()
                + MAX_ATTEMPT_GENERATIONS <= old(self).search_space(),
            old(self).history().len() == 0 && (old(self).length() == 0 || old(self).palette().len()
                > 0) ==> candidate is Some,
            old(self).history().len() == 0 && old(self).palette().len() > 0 && old(
                self,
            ).untouched() ==> final(self).tree_nodes() == 1 + old(self).length() * old(
                self,
            ).palette().len(),
    {
        let ghost certain = self.attempts@.len() == 0 && (self.tree.partial().len() == 0
            || self.available_colors@.len() > 0);
        let ghost mut seen_dead: bool = self.dead();
        let ghost owed = guesses_complete(old(self).history()) && exists|full: Seq<Color>|
            old(self).holds(full) && admitted_by_all(old(self).history(), full);
        let mut attempt_generation: usize = 0;
        while attempt_generation < MAX_ATTEMPT_GENERATIONS
            invariant
                self.ready(),
                attempt_generation <= MAX_ATTEMPT_GENERATIONS,
                owed == (guesses_complete(old(self).history()) && exists|full: Seq<Color>|
                    old(self).holds(full) && admitted_by_all(old(self).history(), full)),
                owed ==> self.search_space() + attempt_generation <= old(self).search_space(),
                seen_dead ==> self.dead(),
                old(self).dead() ==> seen_dead,
                certain == (self.attempts@.len() == 0 && (self.tree.partial().len() == 0
                    || self.available_colors@.len() > 0)),
                certain ==> attempt_generation == 0,
                attempt_generation == 0 ==> self.tree == old(self).tree,
                !seen_dead ==> self.search_space() + attempt_generation <= old(
                    self,
                ).search_space(),
                self.available_colors == old(self).available_colors,
                self.attempts == old(self).attempts,
                self.tree.partial() == old(self).tree.partial(),
                self.search_space() <= old(self).search_space(),
                forall|full: Seq<Color>| #[trigger] self.holds(full) ==> old(self).holds(full),
                guesses_complete(old(self).history()) ==> forall|full: Seq<Color>|
                    old(self).holds(full) && #[trigger] admitted_by_all(old(self).history(), full)
                        ==> self.holds(full),
            decreases MAX_ATTEMPT_GENERATIONS - attempt_generation,
        {
            proof {
                assert(all_comparable(self.attempts@, self.tree.partial()));
                if self.attempts@.len() == 0 {
                    assert(admits_all_below(self.attempts@, self.tree.partial()));
                    assert(admitted_by_all(self.attempts@, self.tree.partial()));
                    lemma_all_open(self.tree.partial(), self.tree.partial().len() as int);
                }
            }
            let ghost palette = self.available_colors@;
            let ghost history = self.attempts@;
            let ghost before = *self;
            let result = self.tree.select_code(
                &self.attempts,
                &self.available_colors,
                SURRENDER_DEPTH,
            );
            proof {
                assert forall|full: Seq<Color>| #[trigger] self.holds(full) implies old(
                    self,
                ).holds(full) by {
                    assert(before.tree.covers(palette, full));
                    assert(before.holds(full));
                }
                if guesses_complete(history) {
                    assert forall|full: Seq<Color>|
                        old(self).holds(full) && #[trigger] admitted_by_all(
                            history,
                            full,
                        ) implies self.holds(full) by {
                        assert(before.holds(full));
                        assert(before.tree.covers(palette, full));
                    }
                }
            }
            proof {
                if before.dead() {
                    assert(result is DeadBranch);
                }
                if result is DeadBranch {
                    seen_dead = true;
                }
            }
            if let SelectionResult::Selection(attempt) = result {
                proof {
                    assert(before.tree.covers(palette, attempt@));
                    assert(before.holds(attempt@));
                    assert forall|secret: Seq<Color>| #[trigger]
                        old(self).will_offer(secret) implies self.will_offer(secret) by {
                        assert(admitted_by_all(history, secret));
                    }
                }
                return Some(attempt);
            }
            proof {
                if owed {
                    let held = choose|full: Seq<Color>|
                        old(self).holds(full) && admitted_by_all(old(self).history(), full);
                    assert(before.holds(held));
                    assert(before.tree.covers(palette, held));
                    assert(result is Surrender);
                }
            }
            attempt_generation += 1;
        }
        proof {
            Node::lemma_potential_positive(self.tree, self.available_colors@.len());
            assert forall|secret: Seq<Color>| #[trigger] old(self).will_offer(secret) implies false by {
                assert(old(self).holds(secret) && admitted_by_all(old(self).history(), secret));
            }
        }
        None
    }

    fn name(&self) -> (name: &str) {
        "tree_with_surrender"
    }

    /// Appends the attempt to the history. The tree is left as it is: the
    /// next walks hold it against the longer history.
    fn record_attempt(&mut self, attempt: &Code, score: Score)
        ensures
            final(self).search_space() == old(self).search_space(),
            final(self).cached_tree_size() == old(self).cached_tree_size(),
            final(self).tree_nodes() == old(self).tree_nodes(),
            forall|full: Seq<Color>| #[trigger] final(self).holds(full) <==> old(self).holds(full),
    {
        let ghost before = self.attempts@;
        self.attempts.push(Attempt::new(attempt.clone(), score));
        proof {
            assert(self.attempts@.drop_last() =~= before);
            assert forall|secret: Seq<Color>| #[trigger]
                old(self).will_offer(secret) && drawn_from(attempt@, old(self).palette())
                    && is_feedback(score, attempt@, secret) implies self.will_offer(secret) by {
                lemma_secret_is_admitted(attempt@, secret, score);
                assert forall|k: int| 0 <= k < self.attempts@.len() implies is_complete(
                    (#[trigger] self.attempts@[k]).guess(),
                ) && self.attempts@[k].admits(secret) by {
                    if k < before.len() {
                        assert(self.attempts@[k] == before[k]);
                    }
                }
            }
        }
    }
}

} // verus!
