//! The mathematical model of a score: what the three numbers of the
//! feedback are, as functions of the two codes that are compared.

use crate::attempt::{consistent, Score};
use crate::code::{
    count_color, is_complete, lemma_complete_iff_none_open, occurrences, open_count, refines,
    Color, OPEN,
};
use vstd::prelude::*;

verus! {

/// The number of positions below `n` at which `a` and `b` hold the same
/// value. Two open positions count as the same value.
pub open spec fn matches_upto(a: Seq<Color>, b: Seq<Color>, n: int) -> nat
    decreases n,
{
    if n <= 0 {
        0
    } else {
        matches_upto(a, b, n - 1) + if a[n - 1] == b[n - 1] {
            1nat
        } else {
            0nat
        }
    }
}

/// The smaller of two counts.
pub open spec fn smaller(x: nat, y: nat) -> nat {
    if x <= y {
        x
    } else {
        y
    }
}

/// The colors below `bound` that `a` and `b` share, each counted as often
/// as it occurs in both; the open marker is no color and is left out.
pub open spec fn shared_upto(a: Seq<Color>, b: Seq<Color>, bound: int) -> nat
    decreases bound,
{
    if bound <= 0 {
        0
    } else {
        shared_upto(a, b, bound - 1) + if bound - 1 == OPEN {
            0nat
        } else {
            smaller(count_color(a, (bound - 1) as Color), count_color(b, (bound - 1) as Color))
        }
    }
}

/// Black pegs: the positions at which the two codes agree.
pub open spec fn black_pegs(a: Seq<Color>, b: Seq<Color>) -> nat {
    matches_upto(a, b, a.len() as int)
}

/// White pegs: the size of the intersection of the two codes as multisets
/// of colors, the open marker left out. A position that counts as black
/// contributes to this number as well, unless it is open. The same number
/// counted position by position is `shared_positions`.
pub open spec fn white_pegs(a: Seq<Color>, b: Seq<Color>) -> nat {
    shared_upto(a, b, 256)
}

/// The open positions of both codes together.
pub open spec fn open_pegs(a: Seq<Color>, b: Seq<Color>) -> nat {
    open_count(a) + open_count(b)
}

/// Two codes can be scored against each other: they have the same length,
/// and the number of their positions together fits the machine word that
/// holds the count of open positions.
pub open spec fn comparable(a: Seq<Color>, b: Seq<Color>) -> bool {
    a.len() == b.len() && a.len() + b.len() <= usize::MAX
}

/// The number of positions below `n` that hold a color below `bound`; the
/// open marker is no color.
pub open spec fn colored_upto(s: Seq<Color>, bound: int, n: int) -> nat
    decreases n,
{
    if n <= 0 {
        0
    } else {
        colored_upto(s, bound, n - 1) + if s[n - 1] < bound && s[n - 1] != OPEN {
            1nat
        } else {
            0nat
        }
    }
}

/// The occurrences among the first `n` positions of `s`, summed over the
/// colors below `bound`.
pub open spec fn palette_total(s: Seq<Color>, bound: int, n: int) -> nat
    decreases bound,
{
    if bound <= 0 {
        0
    } else {
        palette_total(s, bound - 1, n) + if bound - 1 == OPEN {
            0nat
        } else {
            occurrences(s, (bound - 1) as Color, n)
        }
    }
}

proof fn lemma_palette_total_step(s: Seq<Color>, bound: int, n: int)
    requires
        0 <= bound <= 256,
        0 < n,
    ensures
        palette_total(s, bound, n) == palette_total(s, bound, n - 1) + if s[n - 1] < bound && s[n
            - 1] != OPEN {
            1nat
        } else {
            0nat
        },
    decreases bound,
{
    if bound > 0 {
        lemma_palette_total_step(s, bound - 1, n);
    }
}

proof fn lemma_palette_total_empty(s: Seq<Color>, bound: int)
    requires
        0 <= bound <= 256,
    ensures
        palette_total(s, bound, 0) == 0,
    decreases bound,
{
    if bound > 0 {
        lemma_palette_total_empty(s, bound - 1);
    }
}

/// Summing the occurrences color by color counts every colored position
/// once.
pub proof fn lemma_palette_total(s: Seq<Color>, bound: int, n: int)
    requires
        0 <= bound <= 256,
        0 <= n,
    ensures
        palette_total(s, bound, n) == colored_upto(s, bound, n),
        colored_upto(s, bound, n) <= n,
    decreases n,
{
    if n == 0 {
        lemma_palette_total_empty(s, bound);
    } else {
        lemma_palette_total(s, bound, n - 1);
        lemma_palette_total_step(s, bound, n);
    }
}

/// Every position is open or holds a color.
pub proof fn lemma_colored_and_open(s: Seq<Color>, n: int)
    requires
        0 <= n,
    ensures
        colored_upto(s, 256, n) + occurrences(s, OPEN, n) == n,
    decreases n,
{
    if n > 0 {
        lemma_colored_and_open(s, n - 1);
    }
}

/// Two codes share no more colors than either of them holds.
pub proof fn lemma_shared_bound(a: Seq<Color>, b: Seq<Color>, bound: int)
    requires
        0 <= bound <= 256,
    ensures
        shared_upto(a, b, bound) <= palette_total(a, bound, a.len() as int),
        shared_upto(a, b, bound) <= palette_total(b, bound, b.len() as int),
    decreases bound,
{
    if bound > 0 {
        lemma_shared_bound(a, b, bound - 1);
    }
}

/// The positions of `a` below `n` that find a partner in `b`: a position
/// counts if it holds a color that `b` holds more often than `a` holds it
/// before that position. This counts each color as often as both codes hold
/// it, position by position.
pub open spec fn shared_positions(a: Seq<Color>, b: Seq<Color>, n: int) -> nat
    decreases n,
{
    if n <= 0 {
        0
    } else {
        shared_positions(a, b, n - 1) + if a[n - 1] != OPEN && occurrences(a, a[n - 1], n - 1)
            < count_color(b, a[n - 1]) {
            1nat
        } else {
            0nat
        }
    }
}

/// The colors below `bound` that the first `n` positions of `a` share with
/// `b`.
pub open spec fn shared_prefix(a: Seq<Color>, b: Seq<Color>, bound: int, n: int) -> nat
    decreases bound,
{
    if bound <= 0 {
        0
    } else {
        shared_prefix(a, b, bound - 1, n) + if bound - 1 == OPEN {
            0nat
        } else {
            smaller(occurrences(a, (bound - 1) as Color, n), count_color(b, (bound - 1) as Color))
        }
    }
}

proof fn lemma_shared_prefix_empty(a: Seq<Color>, b: Seq<Color>, bound: int)
    requires
        0 <= bound <= 256,
    ensures
        shared_prefix(a, b, bound, 0) == 0,
    decreases bound,
{
    if bound > 0 {
        lemma_shared_prefix_empty(a, b, bound - 1);
    }
}

proof fn lemma_shared_prefix_step(a: Seq<Color>, b: Seq<Color>, bound: int, n: int)
    requires
        0 <= bound <= 256,
        0 < n,
    ensures
        shared_prefix(a, b, bound, n) == shared_prefix(a, b, bound, n - 1) + if a[n - 1] < bound
            && a[n - 1] != OPEN && occurrences(a, a[n - 1], n - 1) < count_color(b, a[n - 1]) {
            1nat
        } else {
            0nat
        },
    decreases bound,
{
    if bound > 0 {
        lemma_shared_prefix_step(a, b, bound - 1, n);
    }
}

proof fn lemma_shared_prefix_positions(a: Seq<Color>, b: Seq<Color>, n: int)
    requires
        0 <= n,
    ensures
        shared_prefix(a, b, 256, n) == shared_positions(a, b, n),
    decreases n,
{
    if n == 0 {
        lemma_shared_prefix_empty(a, b, 256);
    } else {
        lemma_shared_prefix_positions(a, b, n - 1);
        lemma_shared_prefix_step(a, b, 256, n);
    }
}

proof fn lemma_shared_prefix_whole(a: Seq<Color>, b: Seq<Color>, bound: int)
    requires
        0 <= bound <= 256,
    ensures
        shared_prefix(a, b, bound, a.len() as int) == shared_upto(a, b, bound),
    decreases bound,
{
    if bound > 0 {
        lemma_shared_prefix_whole(a, b, bound - 1);
    }
}

/// The white pegs, counted position by position instead of color by
/// color.
pub proof fn lemma_white_by_positions(a: Seq<Color>, b: Seq<Color>)
    ensures
        white_pegs(a, b) == shared_positions(a, b, a.len() as int),
{
    lemma_shared_prefix_whole(a, b, 256);
    lemma_shared_prefix_positions(a, b, a.len() as int);
}

/// No more positions agree than there are positions.
proof fn lemma_matches_bound(a: Seq<Color>, b: Seq<Color>, n: int)
    requires
        0 <= n,
    ensures
        matches_upto(a, b, n) <= n,
    decreases n,
{
    if n > 0 {
        lemma_matches_bound(a, b, n - 1);
    }
}

/// The positions below `n` at which `a` and `b` both hold `color`.
pub open spec fn matches_of(a: Seq<Color>, b: Seq<Color>, color: Color, n: int) -> nat
    decreases n,
{
    if n <= 0 {
        0
    } else {
        matches_of(a, b, color, n - 1) + if a[n - 1] == color && b[n - 1] == color {
            1nat
        } else {
            0nat
        }
    }
}

/// The positions below `n` at which `a` and `b` hold the same color below
/// `bound`; the open marker is no color.
pub open spec fn colored_matches(a: Seq<Color>, b: Seq<Color>, bound: int, n: int) -> nat
    decreases n,
{
    if n <= 0 {
        0
    } else {
        colored_matches(a, b, bound, n - 1) + if a[n - 1] == b[n - 1] && a[n - 1] < bound && a[n
            - 1] != OPEN {
            1nat
        } else {
            0nat
        }
    }
}

/// The agreeing positions, summed color by color over the colors below
/// `bound`.
pub open spec fn matches_total(a: Seq<Color>, b: Seq<Color>, bound: int, n: int) -> nat
    decreases bound,
{
    if bound <= 0 {
        0
    } else {
        matches_total(a, b, bound - 1, n) + if bound - 1 == OPEN {
            0nat
        } else {
            matches_of(a, b, (bound - 1) as Color, n)
        }
    }
}

proof fn lemma_matches_of_bound(a: Seq<Color>, b: Seq<Color>, color: Color, n: int)
    requires
        0 <= n,
    ensures
        matches_of(a, b, color, n) <= occurrences(a, color, n),
        matches_of(a, b, color, n) <= occurrences(b, color, n),
    decreases n,
{
    if n > 0 {
        lemma_matches_of_bound(a, b, color, n - 1);
    }
}

proof fn lemma_matches_total_step(a: Seq<Color>, b: Seq<Color>, bound: int, n: int)
    requires
        0 <= bound <= 256,
        0 < n,
    ensures
        matches_total(a, b, bound, n) == matches_total(a, b, bound, n - 1) + if a[n - 1] == b[n
            - 1] && a[n - 1] < bound && a[n - 1] != OPEN {
            1nat
        } else {
            0nat
        },
    decreases bound,
{
    if bound > 0 {
        lemma_matches_total_step(a, b, bound - 1, n);
    }
}

proof fn lemma_matches_total_empty(a: Seq<Color>, b: Seq<Color>, bound: int)
    requires
        0 <= bound <= 256,
    ensures
        matches_total(a, b, bound, 0) == 0,
    decreases bound,
{
    if bound > 0 {
        lemma_matches_total_empty(a, b, bound - 1);
    }
}

proof fn lemma_matches_total(a: Seq<Color>, b: Seq<Color>, bound: int, n: int)
    requires
        0 <= bound <= 256,
        0 <= n,
    ensures
        matches_total(a, b, bound, n) == colored_matches(a, b, bound, n),
    decreases n,
{
    if n == 0 {
        lemma_matches_total_empty(a, b, bound);
    } else {
        lemma_matches_total(a, b, bound, n - 1);
        lemma_matches_total_step(a, b, bound, n);
    }
}

proof fn lemma_matches_total_shared(a: Seq<Color>, b: Seq<Color>, bound: int)
    requires
        0 <= bound <= 256,
        a.len() == b.len(),
    ensures
        matches_total(a, b, bound, a.len() as int) <= shared_upto(a, b, bound),
    decreases bound,
{
    if bound > 0 {
        lemma_matches_total_shared(a, b, bound - 1);
        if bound - 1 != OPEN {
            lemma_matches_of_bound(a, b, (bound - 1) as Color, a.len() as int);
        }
    }
}

proof fn lemma_colored_matches_complete(a: Seq<Color>, b: Seq<Color>, n: int)
    requires
        is_complete(a),
        0 <= n <= a.len(),
    ensures
        colored_matches(a, b, 256, n) == matches_upto(a, b, n),
    decreases n,
{
    if n > 0 {
        lemma_colored_matches_complete(a, b, n - 1);
    }
}

/// The bounds of a score. Neither the black nor the white pegs exceed the
/// length of the codes, the white pegs not even the colored positions of
/// either code. Where the first code has no open position, every black peg
/// is among the white pegs: the shared colors beyond the agreeing positions
/// are `white_pegs - black_pegs`, and black pegs and these together do not
/// exceed the length.
pub proof fn lemma_score_bounds(a: Seq<Color>, b: Seq<Color>)
    requires
        a.len() == b.len(),
    ensures
        black_pegs(a, b) <= a.len(),
        white_pegs(a, b) + open_count(a) <= a.len(),
        white_pegs(a, b) + open_count(b) <= a.len(),
        open_pegs(a, b) <= 2 * a.len(),
        is_complete(a) ==> black_pegs(a, b) <= white_pegs(a, b),
{
    let n = a.len() as int;
    lemma_matches_bound(a, b, n);
    lemma_shared_bound(a, b, 256);
    lemma_palette_total(a, 256, n);
    lemma_palette_total(b, 256, n);
    lemma_colored_and_open(a, n);
    lemma_colored_and_open(b, n);
    if is_complete(a) {
        lemma_colored_matches_complete(a, b, n);
        lemma_matches_total(a, b, 256, n);
        lemma_matches_total_shared(a, b, 256);
    }
}

proof fn lemma_matches_symmetric(a: Seq<Color>, b: Seq<Color>, n: int)
    ensures
        matches_upto(a, b, n) == matches_upto(b, a, n),
    decreases n,
{
    if n > 0 {
        lemma_matches_symmetric(a, b, n - 1);
    }
}

proof fn lemma_shared_symmetric(a: Seq<Color>, b: Seq<Color>, bound: int)
    ensures
        shared_upto(a, b, bound) == shared_upto(b, a, bound),
    decreases bound,
{
    if bound > 0 {
        lemma_shared_symmetric(a, b, bound - 1);
    }
}

/// A score does not depend on which of the two codes comes first.
pub proof fn lemma_score_symmetric(a: Seq<Color>, b: Seq<Color>)
    requires
        a.len() == b.len(),
    ensures
        black_pegs(a, b) == black_pegs(b, a),
        white_pegs(a, b) == white_pegs(b, a),
        open_pegs(a, b) == open_pegs(b, a),
{
    lemma_matches_symmetric(a, b, a.len() as int);
    lemma_shared_symmetric(a, b, 256);
}

proof fn lemma_matches_self(a: Seq<Color>, n: int)
    requires
        0 <= n,
    ensures
        matches_upto(a, a, n) == n,
    decreases n,
{
    if n > 0 {
        lemma_matches_self(a, n - 1);
    }
}

proof fn lemma_shared_self(a: Seq<Color>, bound: int)
    requires
        0 <= bound <= 256,
    ensures
        shared_upto(a, a, bound) == palette_total(a, bound, a.len() as int),
    decreases bound,
{
    if bound > 0 {
        lemma_shared_self(a, bound - 1);
    }
}

/// A code scored against itself: every position is a black peg, every
/// colored position a white peg, and each open position counts twice. For a
/// code without open positions that is the length, the length, and zero.
pub proof fn lemma_self_score(a: Seq<Color>)
    ensures
        black_pegs(a, a) == a.len(),
        white_pegs(a, a) == a.len() - open_count(a),
        open_pegs(a, a) == 2 * open_count(a),
        is_complete(a) ==> white_pegs(a, a) == a.len() && open_pegs(a, a) == 0,
{
    let n = a.len() as int;
    lemma_matches_self(a, n);
    lemma_shared_self(a, 256);
    lemma_palette_total(a, 256, n);
    lemma_colored_and_open(a, n);
    lemma_complete_iff_none_open(a);
}

proof fn lemma_all_match(a: Seq<Color>, b: Seq<Color>, n: int)
    requires
        0 <= n,
        matches_upto(a, b, n) == n,
    ensures
        forall|i: int| 0 <= i < n ==> a[i] == b[i],
    decreases n,
{
    if n > 0 {
        lemma_matches_bound(a, b, n - 1);
        lemma_all_match(a, b, n - 1);
    }
}

/// Two codes of one length agree at every position exactly when their
/// black pegs are as many as their positions.
pub proof fn lemma_all_black_iff_equal(a: Seq<Color>, b: Seq<Color>)
    requires
        a.len() == b.len(),
    ensures
        black_pegs(a, b) == a.len() <==> a == b,
{
    if black_pegs(a, b) == a.len() {
        lemma_all_match(a, b, a.len() as int);
        assert(a =~= b);
    }
    if a == b {
        lemma_matches_self(a, a.len() as int);
    }
}

/// The secret is never ruled out: the feedback that it gives on a guess
/// admits it.
pub proof fn lemma_secret_is_admitted(guess: Seq<Color>, secret: Seq<Color>, feedback: Score)
    requires
        feedback.black == black_pegs(guess, secret),
        feedback.white == white_pegs(guess, secret),
        feedback.num_dots == open_pegs(guess, secret),
    ensures
        consistent(guess, feedback, secret),
{
}

/// A guess is admitted by its own attempt exactly when it was the secret:
/// scored against itself it has a black peg at every position, and the
/// feedback grants that many only to the secret.
pub proof fn lemma_own_attempt(guess: Seq<Color>, secret: Seq<Color>, feedback: Score)
    requires
        guess.len() == secret.len(),
        feedback.black == black_pegs(guess, secret),
        feedback.white == white_pegs(guess, secret),
        feedback.num_dots == open_pegs(guess, secret),
    ensures
        consistent(guess, feedback, guess) <==> guess == secret,
{
    lemma_self_score(guess);
    lemma_all_black_iff_equal(guess, secret);
    lemma_score_bounds(guess, secret);
}

proof fn lemma_matches_refine(guess: Seq<Color>, earlier: Seq<Color>, later: Seq<Color>, n: int)
    requires
        is_complete(guess),
        guess.len() == earlier.len(),
        refines(earlier, later),
        0 <= n <= earlier.len(),
    ensures
        matches_upto(guess, earlier, n) <= matches_upto(guess, later, n),
        matches_upto(guess, later, n) + occurrences(later, OPEN, n) <= matches_upto(
            guess,
            earlier,
            n,
        ) + occurrences(earlier, OPEN, n),
    decreases n,
{
    if n > 0 {
        lemma_matches_refine(guess, earlier, later, n - 1);
    }
}

proof fn lemma_occurrences_refine(earlier: Seq<Color>, later: Seq<Color>, color: Color, n: int)
    requires
        refines(earlier, later),
        color != OPEN,
        0 <= n <= earlier.len(),
    ensures
        occurrences(earlier, color, n) <= occurrences(later, color, n),
    decreases n,
{
    if n > 0 {
        lemma_occurrences_refine(earlier, later, color, n - 1);
    }
}

proof fn lemma_shared_refine(guess: Seq<Color>, earlier: Seq<Color>, later: Seq<Color>, bound: int)
    requires
        refines(earlier, later),
        0 <= bound <= 256,
    ensures
        shared_upto(guess, earlier, bound) <= shared_upto(guess, later, bound),
        palette_total(earlier, bound, earlier.len() as int) <= palette_total(
            later,
            bound,
            later.len() as int,
        ),
        shared_upto(guess, later, bound) - shared_upto(guess, earlier, bound) <= palette_total(
            later,
            bound,
            later.len() as int,
        ) - palette_total(earlier, bound, earlier.len() as int),
    decreases bound,
{
    if bound > 0 {
        lemma_shared_refine(guess, earlier, later, bound - 1);
        if bound - 1 != OPEN {
            lemma_occurrences_refine(earlier, later, (bound - 1) as Color, earlier.len() as int);
        }
    }
}

/// Deciding open positions of a candidate can only add pegs, and no more
/// pegs than positions are decided: against a guess without open positions,
/// the black and the white pegs of the later code are at least those of the
/// earlier one, and exceed them by no more than the open positions that
/// were decided.
pub proof fn lemma_refinement_bounds(guess: Seq<Color>, earlier: Seq<Color>, later: Seq<Color>)
    requires
        is_complete(guess),
        guess.len() == earlier.len(),
        refines(earlier, later),
    ensures
        open_count(later) <= open_count(earlier),
        black_pegs(guess, earlier) <= black_pegs(guess, later),
        black_pegs(guess, later) + open_count(later) <= black_pegs(guess, earlier) + open_count(
            earlier,
        ),
        white_pegs(guess, earlier) <= white_pegs(guess, later),
        white_pegs(guess, later) + open_count(later) <= white_pegs(guess, earlier) + open_count(
            earlier,
        ),
{
    let n = earlier.len() as int;
    lemma_matches_refine(guess, earlier, later, n);
    lemma_shared_refine(guess, earlier, later, 256);
    lemma_palette_total(earlier, 256, n);
    lemma_palette_total(later, 256, n);
    lemma_colored_and_open(earlier, n);
    lemma_colored_and_open(later, n);
}

/// Pruning is monotonic: a code that the feedback on a guess rules out
/// stays ruled out however its open positions are decided. The guess is one
/// that was submitted, so it has no open position.
pub proof fn lemma_rejection_is_final(
    guess: Seq<Color>,
    feedback: Score,
    earlier: Seq<Color>,
    later: Seq<Color>,
)
    requires
        is_complete(guess),
        guess.len() == earlier.len(),
        refines(earlier, later),
        !consistent(guess, feedback, earlier),
    ensures
        !consistent(guess, feedback, later),
{
    lemma_refinement_bounds(guess, earlier, later);
}

} // verus!
