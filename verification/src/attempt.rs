//! Scores, and attempts: guesses together with the score they received.

use crate::code::{
    count_color, is_complete, lemma_occurrences_bound, occurrences, open_count, refines, Code,
    Color, OPEN,
};
use crate::scoring::{
    black_pegs, comparable, lemma_palette_total, lemma_score_bounds, lemma_score_symmetric,
    lemma_self_score, lemma_shared_bound, lemma_white_by_positions, matches_upto, open_pegs,
    shared_positions, shared_upto, white_pegs,
};
use vstd::prelude::*;

verus! {

/// The feedback on a comparison of two codes.
#[derive(PartialEq, Eq, Clone, Copy, Debug, Structural)]
pub struct Score {
    /// The open positions of both codes together.
    pub num_dots: usize,
    /// The positions at which the codes agree.
    pub black: usize,
    /// The colors that the codes share, wherever they stand.
    pub white: usize,
}

/// A guess that was submitted, with the score it received.
#[derive(Debug)]
pub struct Attempt {
    code: Code,
    score: Score,
}

/// Whether the feedback `feedback` on `guess` leaves `candidate` possible.
/// The candidate may still have open positions, each of which can yet
/// become a black or a white peg; so it is ruled out when, even with every
/// open position counted in its favor, it stays below the black or the
/// white pegs of the feedback, or when it already exceeds either of them.
pub open spec fn consistent(guess: Seq<Color>, feedback: Score, candidate: Seq<Color>) -> bool {
    &&& black_pegs(guess, candidate) + open_pegs(guess, candidate) >= feedback.black
        + feedback.num_dots
    &&& white_pegs(guess, candidate) + open_pegs(guess, candidate) >= feedback.white
        + feedback.num_dots
    &&& black_pegs(guess, candidate) <= feedback.black
    &&& white_pegs(guess, candidate) <= feedback.white
}

impl View for Attempt {
    type V = (Seq<Color>, Score);

    /// The guess and its feedback.
    closed spec fn view(&self) -> (Seq<Color>, Score) {
        (self.code@, self.score)
    }
}

impl Attempt {
    /// The guess of this attempt.
    pub open spec fn guess(&self) -> Seq<Color> {
        self@.0
    }

    /// The feedback of this attempt.
    pub open spec fn feedback(&self) -> Score {
        self@.1
    }

    /// Whether this attempt leaves `candidate` possible.
    pub open spec fn admits(&self, candidate: Seq<Color>) -> bool {
        consistent(self.guess(), self.feedback(), candidate)
    }

    /// Records that `code` was answered by `score`.
    pub fn new(code: Code, score: Score) -> (made: Self)
        ensures
            made@ == (code@, score),
    {
        Attempt { code, score }
    }

    /// A copy of the guess.
    pub fn code(&self) -> (guess: Code)
        ensures
            guess@ == self.guess(),
    {
        self.code.clone()
    }

    /// The feedback that the guess received.
    pub fn score(&self) -> (feedback: Score)
        ensures
            feedback == self.feedback(),
    {
        self.score
    }

    /// Tests whether `code` is still possible after this attempt.
    pub fn matches(&self, code: &Code) -> (possible: bool)
        requires
            comparable(self.guess(), code@),
        ensures
            possible == self.admits(code@),
    {
        let score: Score = compute_score(&self.code, code);
        let black: u128 = score.black as u128;
        let white: u128 = score.white as u128;
        let open: u128 = score.num_dots as u128;
        let asked_black: u128 = self.score.black as u128;
        let asked_white: u128 = self.score.white as u128;
        let asked_open: u128 = self.score.num_dots as u128;

        if black + open < asked_black + asked_open {
            return false;
        }
        if white + open < asked_white + asked_open {
            return false;
        }
        if black > asked_black {
            return false;
        }
        if white > asked_white {
            return false;
        }
        true
    }
}

/// Every attempt of `history` leaves `candidate` possible.
pub open spec fn admitted_by_all(history: Seq<Attempt>, candidate: Seq<Color>) -> bool {
    forall|k: int| 0 <= k < history.len() ==> (#[trigger] history[k]).admits(candidate)
}

/// `feedback` is the score of `guess` against `secret`.
pub open spec fn is_feedback(feedback: Score, guess: Seq<Color>, secret: Seq<Color>) -> bool {
    &&& feedback.black == black_pegs(guess, secret)
    &&& feedback.white == white_pegs(guess, secret)
    &&& feedback.num_dots == open_pegs(guess, secret)
}

/// `after` is `before` with one more attempt at its end, which holds
/// `guess` and `feedback`.
pub open spec fn extended_by(
    before: Seq<Attempt>,
    after: Seq<Attempt>,
    guess: Seq<Color>,
    feedback: Score,
) -> bool {
    &&& after.len() == before.len() + 1
    &&& after.drop_last() == before
    &&& after.last()@ == (guess, feedback)
}

/// The attempts of `history` rule out nothing that can come of `partial`:
/// they admit every code that decides open positions of it, and `partial`
/// itself. A history without attempts does so.
pub open spec fn admits_all_below(history: Seq<Attempt>, partial: Seq<Color>) -> bool {
    forall|code: Seq<Color>| refines(partial, code) ==> #[trigger] admitted_by_all(history, code)
}

/// No guess of `history` has an open position: each is a code that was
/// submitted.
pub open spec fn guesses_complete(history: Seq<Attempt>) -> bool {
    forall|k: int| 0 <= k < history.len() ==> is_complete((#[trigger] history[k]).guess())
}

/// Every guess of `history` can be scored against `candidate`.
pub open spec fn all_comparable(history: Seq<Attempt>, candidate: Seq<Color>) -> bool {
    forall|k: int| 0 <= k < history.len() ==> comparable((#[trigger] history[k]).guess(), candidate)
}

/// Tests `code` against every attempt of `history`.
pub fn matches_all(history: &Vec<Attempt>, code: &Code) -> (possible: bool)
    requires
        all_comparable(history@, code@),
    ensures
        possible == admitted_by_all(history@, code@),
{
    let mut checked: usize = 0;
    while checked < history.len()
        invariant
            checked <= history@.len(),
            all_comparable(history@, code@),
            forall|k: int| 0 <= k < checked ==> (#[trigger] history@[k]).admits(code@),
        decreases history@.len() - checked,
    {
        if !history[checked].matches(code) {
            return false;
        }
        checked += 1;
    }
    true
}

/// A table with one count, still zero, for each value of a peg.
fn empty_tally() -> (tally: Vec<usize>)
    ensures
        tally@.len() == 256,
        forall|c: int| 0 <= c < 256 ==> tally@[c] == 0,
{
    let mut tally: Vec<usize> = Vec::new();
    while tally.len() < 256
        invariant
            tally@.len() <= 256,
            forall|c: int| 0 <= c < tally@.len() ==> tally@[c] == 0,
        decreases 256 - tally@.len(),
    {
        tally.push(0);
    }
    tally
}

/// Scores `a` against `b`: one pass over the paired positions that counts
/// the agreeing positions and tallies each code's values, then one pass
/// over the colors.
///
/// Neither the black nor the white pegs exceed the length. Between codes
/// without open positions every black peg is a white peg too, so the black
/// pegs and the white pegs beyond them together stay within the length. A
/// code scored against itself has a black peg at every position and a white
/// peg at every colored one.
pub fn compute_score(a: &Code, b: &Code) -> (score: Score)
    requires
        comparable(a@, b@),
    ensures
        score.black == black_pegs(a@, b@),
        score.white == white_pegs(a@, b@),
        score.white == shared_positions(a@, b@, a@.len() as int),
        score.num_dots == open_pegs(a@, b@),
        score.black <= a@.len(),
        score.white + open_count(a@) <= a@.len(),
        score.white + open_count(b@) <= a@.len(),
        is_complete(a@) || is_complete(b@) ==> score.black <= score.white,
        a@ == b@ ==> score.black == a@.len() && score.white + open_count(a@) == a@.len()
            && score.num_dots == 2 * open_count(a@),
{
    let length: usize = a.code.len();
    let mut black: usize = 0;
    let mut a_counts: Vec<usize> = empty_tally();
    let mut b_counts: Vec<usize> = empty_tally();
    let mut position: usize = 0;
    while position < length
        invariant
            position <= length,
            length == a@.len(),
            length == b@.len(),
            a_counts@.len() == 256,
            b_counts@.len() == 256,
            black == matches_upto(a@, b@, position as int),
            black <= position,
            forall|c: int|
                0 <= c < 256 ==> a_counts@[c] == occurrences(a@, c as Color, position as int),
            forall|c: int|
                0 <= c < 256 ==> b_counts@[c] == occurrences(b@, c as Color, position as int),
        decreases length - position,
    {
        let ac: Color = a.code[position];
        let bc: Color = b.code[position];
        if ac == bc {
            black += 1;
        }
        proof {
            lemma_occurrences_bound(a@, ac, position as int);
            lemma_occurrences_bound(b@, bc, position as int);
        }
        let a_seen: usize = a_counts[ac as usize];
        a_counts.set(ac as usize, a_seen + 1);
        let b_seen: usize = b_counts[bc as usize];
        b_counts.set(bc as usize, b_seen + 1);
        position += 1;
    }

    let mut white: usize = 0;
    let mut color: usize = 0;
    while color < 256
        invariant
            color <= 256,
            length == a@.len(),
            length == b@.len(),
            a_counts@.len() == 256,
            b_counts@.len() == 256,
            white == shared_upto(a@, b@, color as int),
            forall|c: int| 0 <= c < 256 ==> a_counts@[c] == count_color(a@, c as Color),
            forall|c: int| 0 <= c < 256 ==> b_counts@[c] == count_color(b@, c as Color),
        decreases 256 - color,
    {
        proof {
            lemma_shared_bound(a@, b@, color as int + 1);
            lemma_palette_total(a@, color as int + 1, length as int);
        }
        if color != OPEN as usize {
            let a_count: usize = a_counts[color];
            let b_count: usize = b_counts[color];
            white += if a_count <= b_count {
                a_count
            } else {
                b_count
            };
        }
        color += 1;
    }

    proof {
        lemma_occurrences_bound(a@, OPEN, length as int);
        lemma_occurrences_bound(b@, OPEN, length as int);
    }
    let num_dots: usize = a_counts[OPEN as usize] + b_counts[OPEN as usize];
    proof {
        lemma_score_bounds(a@, b@);
        lemma_score_bounds(b@, a@);
        lemma_score_symmetric(a@, b@);
        lemma_self_score(a@);
        lemma_white_by_positions(a@, b@);
    }
    Score { num_dots, black, white }
}

} // verus!
