//! Codes: fixed-length sequences of colors, possibly with open positions.

use crate::random_index::select_random_index;
use vstd::prelude::*;
use vstd::string::StrSliceExecFns;
use vstd::string::StringSliceAdditionalSpecFns;

verus! {

/// One peg of a code.
pub type Color = u8;

/// The marker of a position that is not decided yet (the byte of `.`).
/// It is no color of any palette.
pub const OPEN: Color = 46;

/// How often `color` occurs among the first `n` positions of `s`.
pub open spec fn occurrences(s: Seq<Color>, color: Color, n: int) -> nat
    decreases n,
{
    if n <= 0 {
        0
    } else {
        occurrences(s, color, n - 1) + if s[n - 1] == color {
            1nat
        } else {
            0nat
        }
    }
}

/// How often `color` occurs in `s`.
pub open spec fn count_color(s: Seq<Color>, color: Color) -> nat {
    occurrences(s, color, s.len() as int)
}

/// The number of open positions of `s`.
pub open spec fn open_count(s: Seq<Color>) -> nat {
    count_color(s, OPEN)
}

/// No position of `s` is open.
pub open spec fn is_complete(s: Seq<Color>) -> bool {
    forall|i: int| 0 <= i < s.len() ==> s[i] != OPEN
}

/// `later` decides positions that `earlier` leaves open, and changes no
/// position that `earlier` has decided.
pub open spec fn refines(earlier: Seq<Color>, later: Seq<Color>) -> bool {
    &&& later.len() == earlier.len()
    &&& forall|i: int| 0 <= i < earlier.len() && earlier[i] != OPEN ==> later[i] == earlier[i]
}

/// `full` fills every open position of `partial` with a color of `palette`
/// and agrees with `partial` elsewhere.
pub open spec fn completes(partial: Seq<Color>, palette: Seq<Color>, full: Seq<Color>) -> bool {
    &&& full.len() == partial.len()
    &&& forall|i: int|
        0 <= i < partial.len() ==> if partial[i] == OPEN {
            palette.contains(#[trigger] full[i])
        } else {
            full[i] == partial[i]
        }
}

/// `later` is `earlier` with one of its open positions decided by a color
/// of `palette`.
pub open spec fn decides_one(earlier: Seq<Color>, palette: Seq<Color>, later: Seq<Color>) -> bool {
    exists|position: int, j: int|
        0 <= position < earlier.len() && earlier[position] == OPEN && 0 <= j < palette.len()
            && later == #[trigger] earlier.update(position, palette[j])
}

/// A color cannot occur more often among `n` positions than there are
/// positions.
pub proof fn lemma_occurrences_bound(s: Seq<Color>, color: Color, n: int)
    requires
        0 <= n,
    ensures
        occurrences(s, color, n) <= n,
    decreases n,
{
    if n > 0 {
        lemma_occurrences_bound(s, color, n - 1);
    }
}

/// A code is complete exactly when it has no open position.
pub proof fn lemma_complete_iff_none_open(s: Seq<Color>)
    ensures
        is_complete(s) <==> open_count(s) == 0,
{
    lemma_none_open_upto(s, s.len() as int);
}

proof fn lemma_none_open_upto(s: Seq<Color>, n: int)
    requires
        0 <= n <= s.len(),
    ensures
        occurrences(s, OPEN, n) == 0 <==> forall|i: int| 0 <= i < n ==> s[i] != OPEN,
    decreases n,
{
    if n > 0 {
        lemma_none_open_upto(s, n - 1);
        if occurrences(s, OPEN, n) == 0 {
            assert forall|i: int| 0 <= i < n implies s[i] != OPEN by {
                if i < n - 1 {
                }
            }
        }
    }
}

/// A code whose positions are all open has as many open positions as
/// pegs.
pub proof fn lemma_all_open(s: Seq<Color>, n: int)
    requires
        0 <= n <= s.len(),
        forall|i: int| 0 <= i < s.len() ==> s[i] == OPEN,
    ensures
        occurrences(s, OPEN, n) == n,
    decreases n,
{
    if n > 0 {
        lemma_all_open(s, n - 1);
    }
}

/// Replacing the value at one position changes the count of the value
/// that leaves and of the value that enters, and no other.
pub proof fn lemma_occurrences_update(
    s: Seq<Color>,
    position: int,
    value: Color,
    color: Color,
    n: int,
)
    requires
        0 <= position < s.len(),
        0 <= n <= s.len(),
    ensures
        occurrences(s.update(position, value), color, n) == occurrences(s, color, n) + (if position
            < n && value == color {
            1int
        } else {
            0int
        }) - (if position < n && s[position] == color {
            1int
        } else {
            0int
        }),
    decreases n,
{
    if n > 0 {
        lemma_occurrences_update(s, position, value, color, n - 1);
    }
}

/// A sequence of pegs. Its view is the sequence of its colors.
#[derive(Debug)]
pub struct Code {
    pub code: Vec<Color>,
}

impl View for Code {
    type V = Seq<Color>;

    open spec fn view(&self) -> Seq<Color> {
        self.code@
    }
}

impl Clone for Code {
    fn clone(&self) -> (copy: Self)
        ensures
            copy@ == self@,
    {
        Code { code: self.code.clone() }
    }
}

impl Code {
    /// Wraps a sequence of colors.
    pub fn new(code: Vec<Color>) -> (made: Self)
        ensures
            made.code == code,
    {
        Code { code }
    }

    /// The code of `length` pegs in which every position is open.
    pub fn with_length(length: usize) -> (made: Code)
        ensures
            made@.len() == length,
            forall|i: int| 0 <= i < length ==> made@[i] == OPEN,
    {
        let mut code: Vec<Color> = Vec::new();
        code.resize(length, OPEN);
        Self::new(code)
    }

    /// The code whose pegs are the bytes of `s`.
    pub fn from_str(s: &str) -> (made: Code)
        ensures
            made@ == s.spec_bytes(),
    {
        Self::new(s.as_bytes_vec())
    }

    /// A code of `length` pegs, each drawn at random from `available_colors`.
    /// With no color to draw from, only the empty code can be made.
    pub fn generate(length: usize, available_colors: &Vec<Color>) -> (made: Code)
        requires
            length == 0 || available_colors@.len() > 0,
        ensures
            made@.len() == length,
            forall|i: int| 0 <= i < length ==> available_colors@.contains(#[trigger] made@[i]),
    {
        let mut code: Vec<Color> = Vec::new();
        let mut filled: usize = 0;
        while filled < length
            invariant
                filled <= length,
                length == 0 || available_colors@.len() > 0,
                code@.len() == filled,
                forall|i: int| 0 <= i < filled ==> available_colors@.contains(#[trigger] code@[i]),
            decreases length - filled,
        {
            let index: usize = select_random_index(available_colors).unwrap();
            code.push(available_colors[index]);
            filled += 1;
        }
        Self::new(code)
    }

    /// The number of pegs.
    pub fn len(&self) -> (n: usize)
        ensures
            n == self@.len(),
    {
        self.code.len()
    }
}

} // verus!
