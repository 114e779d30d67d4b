//! White pegs as the overlap of two codes taken as multisets of colors.

use crate::code::{occurrences, open_count, Color, OPEN};
use crate::scoring::{shared_upto, smaller, white_pegs};
use vstd::multiset::{
    group_multiset_axioms, lemma_intersection_count, lemma_multiset_empty_len, Multiset,
};
use vstd::prelude::*;
use vstd::seq_lib::to_multiset_build;

verus! {

/// The counts in `m` of the values below `bound`, added up.
pub open spec fn count_sum(m: Multiset<Color>, bound: int) -> nat
    decreases bound,
{
    if bound <= 0 {
        0
    } else {
        count_sum(m, bound - 1) + m.count((bound - 1) as Color)
    }
}

proof fn lemma_count_sum_empty(m: Multiset<Color>, bound: int)
    requires
        0 <= bound <= 256,
        m.len() == 0,
    ensures
        count_sum(m, bound) == 0,
    decreases bound,
{
    broadcast use group_multiset_axioms;

    lemma_multiset_empty_len(m);
    if bound > 0 {
        lemma_count_sum_empty(m, bound - 1);
    }
}

proof fn lemma_count_sum_remove(m: Multiset<Color>, x: Color, bound: int)
    requires
        0 <= bound <= 256,
        m.count(x) > 0,
    ensures
        count_sum(m.remove(x), bound) == count_sum(m, bound) - if x < bound {
            1int
        } else {
            0int
        },
    decreases bound,
{
    broadcast use group_multiset_axioms;

    if bound > 0 {
        lemma_count_sum_remove(m, x, bound - 1);
    }
}

/// A multiset of pegs has as many members as its counts add up to.
pub proof fn lemma_len_is_count_sum(m: Multiset<Color>)
    ensures
        m.len() == count_sum(m, 256),
    decreases m.len(),
{
    broadcast use group_multiset_axioms;

    if m.len() == 0 {
        lemma_count_sum_empty(m, 256);
    } else {
        let x = m.choose();
        assert(m.count(x) > 0);
        assert(Multiset::singleton(x).subset_of(m));
        lemma_len_is_count_sum(m.remove(x));
        lemma_count_sum_remove(m, x, 256);
    }
}

/// The multiset of a code counts each value as often as it occurs.
pub proof fn lemma_multiset_counts(s: Seq<Color>, color: Color, n: int)
    requires
        0 <= n <= s.len(),
    ensures
        s.take(n).to_multiset().count(color) == occurrences(s, color, n),
    decreases n,
{
    broadcast use group_multiset_axioms;

    if n == 0 {
        assert(s.take(0).to_multiset().len() == 0) by {
            s.take(0).to_multiset_ensures();
        }
        lemma_multiset_empty_len(s.take(0).to_multiset());
    } else {
        lemma_multiset_counts(s, color, n - 1);
        assert(s.take(n) =~= s.take(n - 1).push(s[n - 1]));
        to_multiset_build(s.take(n - 1), s[n - 1]);
    }
}

proof fn lemma_shared_is_count_sum(a: Seq<Color>, b: Seq<Color>, bound: int)
    requires
        0 <= bound <= 256,
    ensures
        count_sum(a.to_multiset().intersection_with(b.to_multiset()), bound) == shared_upto(
            a,
            b,
            bound,
        ) + if OPEN < bound {
            smaller(open_count(a), open_count(b))
        } else {
            0nat
        },
    decreases bound,
{
    if bound > 0 {
        let color = (bound - 1) as Color;
        lemma_shared_is_count_sum(a, b, bound - 1);
        lemma_intersection_count(a.to_multiset(), b.to_multiset(), color);
        lemma_multiset_counts(a, color, a.len() as int);
        lemma_multiset_counts(b, color, b.len() as int);
        assert(a.take(a.len() as int) =~= a);
        assert(b.take(b.len() as int) =~= b);
    }
}

/// The white pegs are the overlap of the two codes as multisets, less the
/// open positions in it: each color counts as often as it occurs in both
/// codes, wherever it stands.
pub proof fn lemma_white_is_overlap(a: Seq<Color>, b: Seq<Color>)
    ensures
        white_pegs(a, b) + smaller(open_count(a), open_count(b)) == a.to_multiset().intersection_with(
            b.to_multiset(),
        ).len(),
        a.to_multiset().intersection_with(b.to_multiset()).count(OPEN) == smaller(
            open_count(a),
            open_count(b),
        ),
{
    let overlap = a.to_multiset().intersection_with(b.to_multiset());
    lemma_len_is_count_sum(overlap);
    lemma_shared_is_count_sum(a, b, 256);
    lemma_intersection_count(a.to_multiset(), b.to_multiset(), OPEN);
    lemma_multiset_counts(a, OPEN, a.len() as int);
    lemma_multiset_counts(b, OPEN, b.len() as int);
    assert(a.take(a.len() as int) =~= a);
    assert(b.take(b.len() as int) =~= b);
}

} // verus!
