//! A Mastermind code breaker: scoring of guesses, the consistency test that
//! a score imposes on candidate codes, and a randomized search tree that
//! enumerates candidates and prunes itself against the recorded attempts.

pub mod attempt;
pub mod code;
pub mod game;
pub mod overlap;
pub mod random_index;
pub mod scoring;
pub mod solver;

pub use attempt::{compute_score, Attempt, Score};
pub use code::{Code, Color, OPEN};
pub use solver::node::{Node, SelectionResult};
pub use solver::random::Random;
pub use solver::tree_with_surrender::TreeWithSurrender;
pub use solver::{solver_constructors, AnySolver, Solver, SolverConstructor};
