//! The search tree. Its root is the code with every position open; each
//! level decides one more position; a node without open positions is a
//! candidate. The tree grows where the search walks and loses every subtree
//! that the recorded attempts rule out.

use crate::attempt::{
    admits_all_below, admitted_by_all, all_comparable, guesses_complete, matches_all, Attempt,
};
use crate::code::{
    completes, decides_one, is_complete, lemma_complete_iff_none_open, lemma_occurrences_update,
    open_count, refines, Code, Color, OPEN,
};
use crate::random_index::{select_random_index, select_random_matching_index};
use crate::scoring::lemma_rejection_is_final;
use vstd::pervasive::unreached;
use vstd::prelude::*;
use vstd::wrapping::usize_specs::{wrapping_add, wrapping_sub};

verus! {

/// What is known of the nodes below a node.
#[derive(Debug)]
enum NodeChildren {
    /// One child for each color that is left, each with one more position
    /// decided.
    Expanded(Vec<Node>),
    /// The node's code has no open position: it is a candidate.
    NoChildren,
    /// Nobody has looked yet.
    Unexpanded,
}

/// A node of the search tree.
#[derive(Debug)]
pub struct Node {
    code: Code,
    code_count: usize,
    children: NodeChildren,
}

/// The outcome of one walk into the tree.
pub enum SelectionResult {
    /// A candidate that every recorded attempt admits.
    Selection(Code),
    /// Nothing below the node is left.
    DeadBranch,
    /// A subtree was cut off; the walk gives up for the number of levels
    /// that is left.
    Surrender(usize),
}

/// The number of nodes of a tree in which every node with `open` open
/// positions has `colors` children with one open position less.
pub open spec fn full_tree_size(open: nat, colors: nat) -> nat
    decreases open,
{
    if open == 0 {
        1
    } else {
        1 + colors * full_tree_size((open - 1) as nat, colors)
    }
}

impl Node {
    /// The code of this node, open where no position is decided yet.
    pub closed spec fn partial(&self) -> Seq<Color> {
        self.code@
    }

    /// Nobody has looked into this node yet.
    pub closed spec fn unexpanded(&self) -> bool {
        self.children is Unexpanded
    }

    /// This node was looked into and has lost every child.
    pub closed spec fn exhausted(&self) -> bool {
        self.children matches NodeChildren::Expanded(children) && children@.len() == 0
    }

    /// No node of the tree has lost a child: every node that was looked
    /// into has one child for each color of `palette`.
    pub closed spec fn unpruned(&self, palette: Seq<Color>) -> bool
        decreases self,
    {
        match self.children {
            NodeChildren::Expanded(children) => children@.len() == palette.len() && forall|j: int|
                0 <= j < children@.len() ==> (#[trigger] children@[j]).unpruned(palette),
            _ => true,
        }
    }

    /// `code` is the code of a child that a walk into this node may enter:
    /// of one of its children, or, where nobody has looked into the node
    /// yet, of a child that a look into it can make.
    pub closed spec fn may_enter(&self, palette: Seq<Color>, code: Seq<Color>) -> bool {
        match self.children {
            NodeChildren::Unexpanded => decides_one(self.code@, palette, code),
            NodeChildren::NoChildren => false,
            NodeChildren::Expanded(children) => exists|j: int|
                0 <= j < children@.len() && (#[trigger] children@[j]).code@ == code,
        }
    }

    /// The number of nodes of the tree below and including this node.
    pub closed spec fn size(&self) -> nat
        decreases self,
    {
        match self.children {
            NodeChildren::Expanded(children) => 1 + Self::sizes(children@, children@.len() as int),
            _ => 1,
        }
    }

    /// The sizes of the first `n` of `children`, added up.
    closed spec fn sizes(children: Seq<Node>, n: int) -> nat
        decreases children, n,
    {
        if n <= 0 || n > children.len() {
            0
        } else {
            Self::sizes(children, n - 1) + children[n - 1].size()
        }
    }

    /// The count that the node caches.
    pub closed spec fn cached_count(&self) -> usize {
        self.code_count
    }

    /// The cached counts of the first `n` of `children`, added up in
    /// machine words.
    closed spec fn cached_total(children: Seq<Node>, n: int) -> usize
        decreases n,
    {
        if n <= 0 {
            0
        } else {
            wrapping_add(Self::cached_total(children, n - 1), children[n - 1].code_count)
        }
    }

    /// Every one of `children` is `code` with its open position `position`
    /// decided by a color of `palette`.
    closed spec fn branches_at(
        code: Seq<Color>,
        children: Seq<Node>,
        palette: Seq<Color>,
        position: int,
    ) -> bool {
        &&& 0 <= position < code.len()
        &&& code[position] == OPEN
        &&& forall|j: int|
            #![trigger children[j]]
            0 <= j < children.len() ==> {
                &&& palette.contains(children[j].code@[position])
                &&& children[j].code@ == code.update(position, children[j].code@[position])
            }
    }

    /// The invariant of the tree, for a search with the colors `palette`:
    /// a node is expanded only where a position is open, its children
    /// decide that position, and each node caches the number of nodes of
    /// its subtree (in a machine word).
    pub closed spec fn well_formed(&self, palette: Seq<Color>) -> bool
        decreases self,
    {
        match self.children {
            NodeChildren::Unexpanded => self.code_count == 1,
            NodeChildren::NoChildren => self.code_count == 1 && is_complete(self.code@),
            NodeChildren::Expanded(children) => {
                &&& self.code_count == wrapping_add(
                    1,
                    Self::cached_total(children@, children@.len() as int),
                )
                &&& exists|position: int|
                    Self::branches_at(self.code@, children@, palette, position)
                &&& forall|j: int|
                    0 <= j < children@.len() ==> (#[trigger] children@[j]).well_formed(palette)
            },
        }
    }

    /// Whether the candidate `full` is still in the tree below this node:
    /// it is the node's own code, or completes a node that nobody has
    /// looked into yet.
    pub closed spec fn covers(&self, palette: Seq<Color>, full: Seq<Color>) -> bool
        decreases self,
    {
        match self.children {
            NodeChildren::Unexpanded => completes(self.code@, palette, full),
            NodeChildren::NoChildren => full == self.code@,
            NodeChildren::Expanded(children) => exists|j: int|
                0 <= j < children@.len() && (#[trigger] children@[j]).covers(palette, full),
        }
    }

    /// Some node of `children` still holds the candidate `full`.
    closed spec fn covered(children: Seq<Node>, palette: Seq<Color>, full: Seq<Color>) -> bool {
        exists|j: int| 0 <= j < children.len() && (#[trigger] children[j]).covers(palette, full)
    }

    /// The number of nodes that the tree below this node can still come to
    /// hold: the nodes it has, and under each node that nobody has looked
    /// into yet the full tree over its open positions.
    pub closed spec fn potential(&self, colors: nat) -> nat
        decreases self,
    {
        match self.children {
            NodeChildren::Unexpanded => full_tree_size(open_count(self.code@), colors),
            NodeChildren::NoChildren => 1,
            NodeChildren::Expanded(children) => 1 + Self::potentials(
                children@,
                colors,
                children@.len() as int,
            ),
        }
    }

    /// The potentials of the first `n` of `children`, added up.
    closed spec fn potentials(children: Seq<Node>, colors: nat, n: int) -> nat
        decreases children, n,
    {
        if n <= 0 || n > children.len() {
            0
        } else {
            Self::potentials(children, colors, n - 1) + children[n - 1].potential(colors)
        }
    }

    /// `after` is `before` after a first look into it that decided the open
    /// position `position`: one child for each color of `palette`, in its
    /// order, that nobody has looked into yet, and a cached count that grew
    /// by their number.
    pub closed spec fn freshly_branched(
        before: Node,
        after: Node,
        palette: Seq<Color>,
        position: int,
    ) -> bool {
        &&& 0 <= position < before.code@.len()
        &&& before.code@[position] == OPEN
        &&& after.children matches NodeChildren::Expanded(children)
        &&& children@.len() == palette.len()
        &&& forall|j: int|
            #![trigger children@[j]]
            0 <= j < children@.len() ==> {
                &&& children@[j].children is Unexpanded
                &&& children@[j].code_count == 1
                &&& children@[j].code@ == before.code@.update(position, palette[j])
            }
        &&& after.code_count == wrapping_add(before.code_count, palette.len() as usize)
    }

    /// What holds of the children of a node while the search walks among
    /// them: `start` is the node when the walk began, `count` its cached
    /// count now.
    closed spec fn walking(
        start: Node,
        children: Seq<Node>,
        count: usize,
        palette: Seq<Color>,
        history: Seq<Attempt>,
        position: int,
    ) -> bool {
        &&& Self::branches_at(start.code@, children, palette, position)
        &&& forall|j: int| 0 <= j < children.len() ==> (#[trigger] children[j]).well_formed(palette)
        &&& count == wrapping_add(1, Self::cached_total(children, children.len() as int))
        &&& 1 + Self::potentials(children, palette.len(), children.len() as int)
            <= start.potential(palette.len())
        &&& forall|full: Seq<Color>| #[trigger]
            Self::covered(children, palette, full) ==> start.covers(palette, full)
        &&& guesses_complete(history) ==> forall|full: Seq<Color>|
            start.covers(palette, full) && #[trigger] admitted_by_all(history, full)
                ==> Self::covered(children, palette, full)
    }
}

impl Node {
    /// A tree of one node that stands for every completion of `code`.
    pub fn new(code: Code) -> (made: Self)
        ensures
            made.partial() == code@,
            made.unexpanded(),
            made.cached_count() == 1,
            made.size() == 1,
            forall|palette: Seq<Color>| #[trigger] made.unpruned(palette),
            forall|palette: Seq<Color>, next: Seq<Color>| #[trigger]
                made.may_enter(palette, next) <==> decides_one(code@, palette, next),
            forall|palette: Seq<Color>| #[trigger] made.well_formed(palette),
            forall|palette: Seq<Color>, full: Seq<Color>| #[trigger]
                made.covers(palette, full) <==> completes(code@, palette, full),
            forall|colors: nat| #[trigger]
                made.potential(colors) == full_tree_size(open_count(code@), colors),
    {
        Node { code, children: NodeChildren::Unexpanded, code_count: 1 }
    }

    /// The cached number of nodes of the tree below and including this
    /// node.
    pub fn code_count(&self) -> (count: usize)
        ensures
            count == self.cached_count(),
    {
        self.code_count
    }

    /// One walk into the tree below this node, in search of a candidate
    /// that every attempt of `previous_guesses` admits.
    ///
    /// A node whose own code an attempt rules out is a dead branch. Else
    /// the node is looked into; without open positions it is the candidate.
    /// Else the walk goes on into a child picked at random, as long as
    /// children are left. A child that turns out dead is removed; with a
    /// surrender depth above zero the walk then gives up and climbs that
    /// many levels less one before it goes on, with depth zero it tries the
    /// next child at once. A node that has lost every child is dead.
    ///
    /// Which child is entered is drawn; what follows from the draw is
    /// `settle`, and what a first look makes is `branch`. Where the draws
    /// decide nothing the outcome is fixed: a walk through a tree that has
    /// lost no child, under attempts that rule out nothing below the node,
    /// ends at a candidate whatever the surrender depth; a walk into a node
    /// all of whose children are ruled out loses one child and surrenders
    /// with the depth less one, or with depth zero loses them all. A
    /// surrender with a smaller depth comes from below a child that was
    /// admitted, and a walk under a depth above zero reports a dead branch
    /// only from a node that is ruled out or has no child to enter.
    #[verifier::loop_isolation(false)]
    #[verifier::spinoff_prover]
    #[verifier::rlimit(50)]
    pub fn select_code(
        &mut self,
        previous_guesses: &Vec<Attempt>,
        available_colors: &Vec<Color>,
        surrender_depth_on_dead_branch: usize,
    ) -> (result: SelectionResult)
        requires
            old(self).well_formed(available_colors@),
            !available_colors@.contains(OPEN),
            all_comparable(previous_guesses@, old(self).partial()),
        ensures
            final(self).well_formed(available_colors@),
            final(self).partial() == old(self).partial(),
            final(self).potential(available_colors@.len()) <= old(self).potential(
                available_colors@.len(),
            ),
            forall|full: Seq<Color>| #[trigger]
                final(self).covers(available_colors@, full) ==> old(self).covers(
                    available_colors@,
                    full,
                ),
            guesses_complete(previous_guesses@) ==> forall|full: Seq<Color>|
                old(self).covers(available_colors@, full) && #[trigger] admitted_by_all(
                    previous_guesses@,
                    full,
                ) ==> final(self).covers(available_colors@, full),
            !admitted_by_all(previous_guesses@, old(self).partial()) ==> result is DeadBranch
                && *final(self) == *old(self),
            admitted_by_all(previous_guesses@, old(self).partial()) && is_complete(
                old(self).partial(),
            ) ==> (result matches SelectionResult::Selection(code) && code@ == old(self).partial()),
            old(self).exhausted() ==> result is DeadBranch && final(self).exhausted(),
            available_colors@.len() > 0 && old(self).unpruned(available_colors@)
                && admits_all_below(previous_guesses@, old(self).partial()) ==> {
                &&& result is Selection
                &&& final(self).unpruned(available_colors@)
                &&& old(self).unexpanded() ==> final(self).size() == 1 + open_count(
                    old(self).partial(),
                ) * available_colors@.len()
            },
            result matches SelectionResult::Surrender(depth) && depth + 1
                < surrender_depth_on_dead_branch ==> exists|next: Seq<Color>|
                #[trigger] old(self).may_enter(available_colors@, next) && admitted_by_all(
                    previous_guesses@,
                    next,
                ),
            result is DeadBranch && surrender_depth_on_dead_branch > 0 && admitted_by_all(
                previous_guesses@,
                old(self).partial(),
            ) ==> forall|next: Seq<Color>| !#[trigger] old(self).may_enter(available_colors@, next),
            admitted_by_all(previous_guesses@, old(self).partial()) && !is_complete(
                old(self).partial(),
            ) && (forall|next: Seq<Color>| #[trigger]
                old(self).may_enter(available_colors@, next) ==> !admitted_by_all(
                    previous_guesses@,
                    next,
                )) ==> {
                &&& surrender_depth_on_dead_branch == 0 ==> result is DeadBranch
                &&& surrender_depth_on_dead_branch > 0 && (exists|next: Seq<Color>| #[trigger]
                    old(self).may_enter(available_colors@, next)) ==> {
                    &&& result == SelectionResult::Surrender(
                        (surrender_depth_on_dead_branch - 1) as usize,
                    )
                    &&& old(self).unexpanded() ==> final(self).size() == available_colors@.len()
                }
            },
            surrender_depth_on_dead_branch == 0 && guesses_complete(previous_guesses@) && (exists|
                full: Seq<Color>,
            |
                old(self).covers(available_colors@, full) && admitted_by_all(
                    previous_guesses@,
                    full,
                )) ==> result is Selection,
            match result {
                SelectionResult::Selection(code) => {
                    &&& is_complete(code@)
                    &&& completes(old(self).partial(), available_colors@, code@)
                    &&& admitted_by_all(previous_guesses@, code@)
                    &&& final(self).covers(available_colors@, code@)
                },
                SelectionResult::DeadBranch => {
                    &&& !admitted_by_all(previous_guesses@, old(self).partial())
                        || final(self).exhausted()
                    &&& guesses_complete(previous_guesses@) ==> forall|full: Seq<Color>| #[trigger]
                        old(self).covers(available_colors@, full) ==> !admitted_by_all(
                            previous_guesses@,
                            full,
                        )
                },
                SelectionResult::Surrender(depth) => {
                    &&& depth < surrender_depth_on_dead_branch
                    &&& final(self).potential(available_colors@.len()) < old(self).potential(
                        available_colors@.len(),
                    )
                },
            },
        decreases open_count(old(self).partial()),
    {
        let ghost palette = available_colors@;
        let ghost history = previous_guesses@;
        let ghost entered = *self;

        let ghost unharmed = palette.len() > 0 && entered.unpruned(palette) && admits_all_below(
            history,
            entered.code@,
        );
        let ghost hopeless = !is_complete(entered.code@) && forall|next: Seq<Color>| #[trigger]
            entered.may_enter(palette, next) ==> !admitted_by_all(history, next);
        proof {
            assert(refines(entered.code@, entered.code@));
        }

        if !matches_all(previous_guesses, &self.code) {
            proof {
                if guesses_complete(history) {
                    assert forall|full: Seq<Color>| #[trigger]
                        entered.covers(palette, full) implies !admitted_by_all(history, full) by {
                        Self::lemma_rejected_holds_none(entered, palette, history, full);
                    }
                }
            }
            return SelectionResult::DeadBranch;
        }
        self.expand(available_colors);
        let ghost start = *self;

        match &mut self.children {
            NodeChildren::NoChildren => {
                let code = self.code.clone();
                proof {
                    assert(code@ =~= start.code@);
                    lemma_complete_iff_none_open(start.code@);
                    assert(start.size() == 1);
                    assert(start.unpruned(palette));
                }
                SelectionResult::Selection(code)
            },
            NodeChildren::Unexpanded => unreached(),
            NodeChildren::Expanded(children) => {
                let ghost position = Self::lemma_walk_begins(start, palette, history);
                let ghost mut first = true;
                proof {
                    Self::lemma_expanded_unpruned(start, palette);
                    assert forall|j: int| 0 <= j < children@.len() implies entered.may_enter(
                        palette,
                        (#[trigger] children@[j]).code@,
                    ) by {
                        assert(start.may_enter(palette, children@[j].code@));
                    }
                }
                while children.len() > 0
                    invariant
                        after_borrow(self.children) == NodeChildren::Expanded(*final(children)),
                        self.code@ == start.code@,
                        entered.exhausted() ==> children@.len() == 0,
                        first ==> children@ == start.children->0@,
                        unharmed ==> first,
                        hopeless && surrender_depth_on_dead_branch > 0 ==> first,
                        surrender_depth_on_dead_branch > 0 ==> children@.len()
                            == start.children->0@.len(),
                        forall|j: int|
                            0 <= j < children@.len() ==> entered.may_enter(
                                palette,
                                (#[trigger] children@[j]).code@,
                            ),
                        Self::walking(
                            start,
                            children@,
                            self.code_count,
                            palette,
                            history,
                            position,
                        ),
                    decreases Self::potentials(children@, palette.len(), children@.len() as int),
                {
                    let index: usize = select_random_index(children).unwrap();
                    let ghost before = children@;
                    let ghost count_before = self.code_count;
                    proof {
                        lemma_occurrences_update(
                            start.code@,
                            position,
                            before[index as int].code@[position],
                            OPEN,
                            start.code@.len() as int,
                        );
                    }
                    proof {
                        assert(entered.may_enter(palette, before[index as int].code@));
                        if unharmed {
                            Self::lemma_child_admits_below(
                                history,
                                start.code@,
                                position,
                                before[index as int].code@,
                            );
                        }
                    }
                    self.code_count = self.code_count.wrapping_sub(children[index].code_count());
                    let found = children[index].select_code(
                        previous_guesses,
                        available_colors,
                        surrender_depth_on_dead_branch,
                    );
                    let ghost child = children@[index as int];
                    let ghost outcome = found;
                    proof {
                        assert(children@ =~= before.update(index as int, child));
                    }
                    let report = Self::settle(
                        &mut self.code_count,
                        children,
                        index,
                        found,
                        surrender_depth_on_dead_branch,
                    );
                    proof {
                        Self::lemma_walk_update(
                            start,
                            before,
                            count_before,
                            palette,
                            history,
                            position,
                            index as int,
                            child,
                        );
                        if outcome is DeadBranch {
                            Self::lemma_walk_remove(
                                start,
                                before.update(index as int, child),
                                wrapping_add(
                                    wrapping_sub(count_before, before[index as int].code_count),
                                    child.code_count,
                                ),
                                palette,
                                history,
                                position,
                                index as int,
                            );
                            Self::lemma_potential_positive(child, palette.len());
                        }
                    }
                    match report {
                        Some(result) => {
                            proof {
                                let now = Node {
                                    code: self.code,
                                    code_count: self.code_count,
                                    children: NodeChildren::Expanded(*children),
                                };
                                Self::lemma_walk_ends(now, start, palette, history, position);
                                Self::lemma_expanded_unpruned(now, palette);
                                Self::lemma_expanded_size(now);
                                if first && entered.children is Unexpanded {
                                    let n = before.len() as int;
                                    Self::lemma_sizes_fresh(before, n);
                                    if outcome is DeadBranch {
                                        Self::lemma_sizes_fresh(children@, n - 1);
                                    } else {
                                        Self::lemma_sizes_update(before, index as int, child, n);
                                        assert(before[index as int].size() == 1);
                                        let below = open_count(before[index as int].code@);
                                        assert(below * palette.len() + palette.len() == (below
                                            + 1) * palette.len()) by (nonlinear_arith);
                                    }
                                }
                            }
                            return result;
                        },
                        None => {},
                    }
                    proof {
                        first = false;
                    }
                }
                proof {
                    let now = Node {
                        code: self.code,
                        code_count: self.code_count,
                        children: NodeChildren::Expanded(*children),
                    };
                    Self::lemma_walk_ends(now, start, palette, history, position);
                }
                SelectionResult::DeadBranch
            },
        }
    }

    /// What a walk does once it has looked into the child `index` and found
    /// `found` there; `count` is the cached count of the node above the
    /// children, less the count that the child had before the look.
    ///
    /// A child that holds a candidate is counted again, and the candidate
    /// is reported. A dead child is removed, and with a surrender depth
    /// above zero the walk surrenders with that depth less one. A child
    /// that surrendered is counted again; the walk goes on where its depth
    /// was zero, and else surrenders with the depth less one. `None` says
    /// that the walk goes on among the children.
    pub fn settle(
        count: &mut usize,
        children: &mut Vec<Node>,
        index: usize,
        found: SelectionResult,
        surrender_depth_on_dead_branch: usize,
    ) -> (report: Option<SelectionResult>)
        requires
            index < old(children)@.len(),
        ensures
            match found {
                SelectionResult::Selection(_) => {
                    &&& report == Some(found)
                    &&& final(children)@ == old(children)@
                    &&& *final(count) == wrapping_add(
                        *old(count),
                        old(children)@[index as int].cached_count(),
                    )
                },
                SelectionResult::DeadBranch => {
                    &&& final(children)@ == old(children)@.remove(index as int)
                    &&& *final(count) == *old(count)
                    &&& report == if surrender_depth_on_dead_branch > 0 {
                        Some(
                            SelectionResult::Surrender(
                                (surrender_depth_on_dead_branch - 1) as usize,
                            ),
                        )
                    } else {
                        None::<SelectionResult>
                    }
                },
                SelectionResult::Surrender(depth) => {
                    &&& final(children)@ == old(children)@
                    &&& *final(count) == wrapping_add(
                        *old(count),
                        old(children)@[index as int].cached_count(),
                    )
                    &&& report == if depth > 0 {
                        Some(SelectionResult::Surrender((depth - 1) as usize))
                    } else {
                        None::<SelectionResult>
                    }
                },
            },
    {
        match found {
            SelectionResult::Selection(code) => {
                *count = count.wrapping_add(children[index].code_count());
                Some(SelectionResult::Selection(code))
            },
            SelectionResult::DeadBranch => {
                children.remove(index);
                if surrender_depth_on_dead_branch > 0 {
                    Some(SelectionResult::Surrender(surrender_depth_on_dead_branch - 1))
                } else {
                    None
                }
            },
            SelectionResult::Surrender(0) => {
                *count = count.wrapping_add(children[index].code_count());
                None
            },
            SelectionResult::Surrender(depth) => {
                *count = count.wrapping_add(children[index].code_count());
                Some(SelectionResult::Surrender(depth - 1))
            },
        }
    }

    /// Looks into a node that nobody has looked into yet, at its open
    /// position `position`: gives the node one child for each color, in the
    /// order of the palette, with that position decided; the cached count
    /// grows by the number of children.
    pub fn branch(&mut self, available_colors: &Vec<Color>, position: usize)
        requires
            old(self).unexpanded(),
            old(self).well_formed(available_colors@),
            !available_colors@.contains(OPEN),
            position < old(self).partial().len(),
            old(self).partial()[position as int] == OPEN,
        ensures
            final(self).well_formed(available_colors@),
            final(self).partial() == old(self).partial(),
            Self::freshly_branched(*old(self), *final(self), available_colors@, position as int),
            final(self).unpruned(available_colors@),
            forall|next: Seq<Color>| #[trigger]
                final(self).may_enter(available_colors@, next) <==> exists|j: int|
                    0 <= j < available_colors@.len() && next == #[trigger] old(
                        self,
                    ).partial().update(position as int, available_colors@[j]),
            final(self).size() == 1 + available_colors@.len(),
            final(self).cached_count() == wrapping_add(
                old(self).cached_count(),
                available_colors@.len() as usize,
            ),
            forall|full: Seq<Color>|
                final(self).covers(available_colors@, full) <==> old(self).covers(
                    available_colors@,
                    full,
                ),
            final(self).potential(available_colors@.len()) == old(self).potential(
                available_colors@.len(),
            ),
    {
        let ghost palette = available_colors@;
        let ghost code = self.code@;
        proof {
            lemma_complete_iff_none_open(code);
            assert(!is_complete(code));
        }
        let ghost below = full_tree_size((open_count(code) - 1) as nat, palette.len());
        let mut children: Vec<Node> = Vec::new();
        let mut next: usize = 0;
        while next < available_colors.len()
            invariant
                next <= available_colors@.len(),
                palette == available_colors@,
                !palette.contains(OPEN),
                self.code@ == code,
                self.children is Unexpanded,
                position < code.len(),
                code[position as int] == OPEN,
                open_count(code) > 0,
                below == full_tree_size((open_count(code) - 1) as nat, palette.len()),
                children@.len() == next,
                forall|j: int|
                    #![trigger children@[j]]
                    0 <= j < next ==> children@[j].children is Unexpanded
                        && children@[j].code_count == 1 && children@[j].code@
                        == code.update(position as int, palette[j]),
                self.code_count == wrapping_add(
                    1,
                    Self::cached_total(children@, next as int),
                ),
                self.code_count == wrapping_add(old(self).code_count, next),
                Self::potentials(children@, palette.len(), next as int) == next * below,
            decreases available_colors@.len() - next,
        {
            let color: Color = available_colors[next];
            let mut new_code = self.code.clone();
            new_code.code.set(position, color);
            let ghost before = children@;
            children.push(Node::new(new_code));
            self.code_count = self.code_count.wrapping_add(1);
            proof {
                let child = children@[next as int];
                assert(palette.contains(palette[next as int]));
                lemma_occurrences_update(
                    code,
                    position as int,
                    color,
                    OPEN,
                    code.len() as int,
                );
                assert(child.potential(palette.len()) == below);
                Self::lemma_cached_total_prefix(before, children@, next as int);
                Self::lemma_potentials_prefix(
                    before,
                    children@,
                    palette.len(),
                    next as int,
                );
                assert((next + 1) * below == next * below + below)
                    by (nonlinear_arith);
            }
            next += 1;
        }
        proof {
            assert(Self::branches_at(code, children@, palette, position as int)) by {
                assert forall|j: int|
                    #![trigger children@[j]]
                    0 <= j < children@.len() implies palette.contains(
                    children@[j].code@[position as int],
                ) && children@[j].code@ == code.update(
                    position as int,
                    children@[j].code@[position as int],
                ) by {
                    assert(palette.contains(palette[j]));
                }
            }
            assert forall|full: Seq<Color>|
                completes(code, palette, full) <==> exists|j: int|
                    0 <= j < children@.len() && (#[trigger] children@[j]).covers(
                        palette,
                        full,
                    ) by {
                Self::lemma_expansion_covers(
                    code,
                    children@,
                    palette,
                    position as int,
                    full,
                );
            }
        }
        self.children = NodeChildren::Expanded(children);
        proof {
            assert(Self::branches_at(
                self.code@,
                self.children->0@,
                palette,
                position as int,
            ));
            Self::lemma_expanded_well_formed(*self, palette);
            assert(Self::freshly_branched(*old(self), *self, palette, position as int));
            Self::lemma_expanded_unpruned(*self, palette);
            Self::lemma_expanded_size(*self);
            Self::lemma_sizes_fresh(self.children->0@, palette.len() as int);
            assert forall|next: Seq<Color>| #[trigger]
                self.may_enter(palette, next) <==> exists|j: int|
                    0 <= j < palette.len() && next == #[trigger] code.update(
                        position as int,
                        palette[j],
                    ) by {
                if self.may_enter(palette, next) {
                    let j = choose|j: int|
                        0 <= j < self.children->0@.len() && (
                        #[trigger] self.children->0@[j]).code@ == next;
                    assert(next == code.update(position as int, palette[j]));
                }
                if exists|j: int|
                    0 <= j < palette.len() && next == #[trigger] code.update(
                        position as int,
                        palette[j],
                    ) {
                    let j = choose|j: int|
                        0 <= j < palette.len() && next == #[trigger] code.update(
                            position as int,
                            palette[j],
                        );
                    assert(self.children->0@[j].code@ == next);
                }
            }
        }
    }

    /// Looks into a node for the first time: picks one of its open
    /// positions at random and gives the node one child for each color, in
    /// the order of the palette, with that position decided; the cached
    /// count grows by the number of children. A node without open positions
    /// becomes a candidate. A node that was looked into before stays as it
    /// is.
    fn expand(&mut self, available_colors: &Vec<Color>)
        requires
            old(self).well_formed(available_colors@),
            !available_colors@.contains(OPEN),
        ensures
            final(self).well_formed(available_colors@),
            final(self).partial() == old(self).partial(),
            !(final(self).children is Unexpanded),
            !(old(self).children is Unexpanded) ==> *final(self) == *old(self),
            final(self).children is NoChildren ==> is_complete(final(self).partial()),
            old(self).children is Unexpanded && is_complete(old(self).partial())
                ==> final(self).children is NoChildren && final(self).code_count == old(
                self,
            ).code_count,
            old(self).children is Unexpanded && !is_complete(old(self).partial()) ==> exists|
                position: int,
            |
                Self::freshly_branched(*old(self), *final(self), available_colors@, position),
            old(self).unpruned(available_colors@) ==> final(self).unpruned(available_colors@),
            forall|next: Seq<Color>| #[trigger]
                final(self).may_enter(available_colors@, next) ==> old(self).may_enter(
                    available_colors@,
                    next,
                ),
            forall|full: Seq<Color>|
                final(self).covers(available_colors@, full) <==> old(self).covers(
                    available_colors@,
                    full,
                ),
            final(self).potential(available_colors@.len()) == old(self).potential(
                available_colors@.len(),
            ),
    {
        if let NodeChildren::Unexpanded = self.children {
            let ghost palette = available_colors@;
            let ghost code = self.code@;
            proof {
                lemma_complete_iff_none_open(code);
            }
            match select_random_matching_index(&self.code.code, OPEN) {
                None => {
                    self.children = NodeChildren::NoChildren;
                    proof {
                        assert forall|full: Seq<Color>|
                            completes(code, palette, full) <==> full == code by {
                            if completes(code, palette, full) {
                                assert(full =~= code);
                            }
                        }
                    }
                },
                Some(index) => {
                    self.branch(available_colors, index);
                    proof {
                        assert forall|next: Seq<Color>| #[trigger]
                            self.may_enter(palette, next) implies old(self).may_enter(
                            palette,
                            next,
                        ) by {
                            let j = choose|j: int|
                                0 <= j < palette.len() && next == #[trigger] code.update(
                                    index as int,
                                    palette[j],
                                );
                            assert(decides_one(code, palette, next));
                        }
                    }
                },
            }
        }
    }
}

/// What holds of the tree.
impl Node {
    /// The cached count of a well-formed node is the number of nodes of its
    /// tree, as long as that number fits a machine word.
    pub proof fn lemma_count_is_size(node: Node, palette: Seq<Color>)
        requires
            node.well_formed(palette),
            node.size() <= usize::MAX,
        ensures
            node.cached_count() == node.size(),
        decreases node, 0int,
    {
        match node.children {
            NodeChildren::Expanded(children) => {
                Self::lemma_total_is_sizes(children@, palette, children@.len() as int);
            },
            NodeChildren::NoChildren => {},
            NodeChildren::Unexpanded => {},
        }
    }

    /// A tree has no more nodes than it can come to hold. So the cached
    /// count is the number of nodes wherever the potential fits a machine
    /// word.
    pub proof fn lemma_size_within_potential(node: Node, colors: nat)
        ensures
            node.size() <= node.potential(colors),
        decreases node, 0int,
    {
        match node.children {
            NodeChildren::Expanded(children) => {
                Self::lemma_sizes_within_potentials(children@, colors, children@.len() as int);
            },
            NodeChildren::NoChildren => {},
            NodeChildren::Unexpanded => {},
        }
    }

    /// A candidate that is in the tree below a node completes the node's
    /// code.
    pub proof fn lemma_covered_completes(node: Node, palette: Seq<Color>, full: Seq<Color>)
        requires
            node.well_formed(palette),
            node.covers(palette, full),
        ensures
            completes(node.partial(), palette, full),
        decreases node,
    {
        match node.children {
            NodeChildren::Expanded(children) => {
                let j = choose|j: int|
                    0 <= j < children@.len() && (#[trigger] children@[j]).covers(palette, full);
                let child = children@[j];
                Self::lemma_covered_completes(child, palette, full);
                let position = choose|position: int|
                    Self::branches_at(node.code@, children@, palette, position);
                assert forall|i: int| 0 <= i < node.code@.len() implies if node.code@[i] == OPEN {
                    palette.contains(#[trigger] full[i])
                } else {
                    full[i] == node.code@[i]
                } by {
                    if i == position {
                        assert(palette.contains(child.code@[position]));
                    } else {
                        assert(child.code@[i] == node.code@[i]);
                    }
                }
            },
            NodeChildren::NoChildren => {},
            NodeChildren::Unexpanded => {},
        }
    }

    /// A node whose own code an attempt rules out holds no candidate that
    /// every attempt admits.
    pub proof fn lemma_rejected_holds_none(
        node: Node,
        palette: Seq<Color>,
        history: Seq<Attempt>,
        full: Seq<Color>,
    )
        requires
            node.well_formed(palette),
            guesses_complete(history),
            all_comparable(history, node.partial()),
            !admitted_by_all(history, node.partial()),
            node.covers(palette, full),
        ensures
            !admitted_by_all(history, full),
    {
        Self::lemma_covered_completes(node, palette, full);
        let k = choose|k: int| 0 <= k < history.len() && !(#[trigger] history[k]).admits(node.code@);
        assert(refines(node.code@, full));
        lemma_rejection_is_final(history[k].guess(), history[k].feedback(), node.code@, full);
    }

    /// A node that has lost every child holds no candidate and has nothing
    /// left to grow; it counts itself alone.
    pub proof fn lemma_exhausted(node: Node, palette: Seq<Color>)
        requires
            node.exhausted(),
        ensures
            forall|full: Seq<Color>| !#[trigger] node.covers(palette, full),
            node.potential(palette.len()) == 1,
            node.size() == 1,
            node.well_formed(palette) ==> node.cached_count() == 1,
    {
    }

    /// A node can still grow to at least itself.
    pub proof fn lemma_potential_positive(node: Node, colors: nat)
        ensures
            node.potential(colors) >= 1,
    {
    }
}

/// The steps of the proofs.
impl Node {
    proof fn lemma_expanded_unpruned(node: Node, palette: Seq<Color>)
        requires
            node.children is Expanded,
        ensures
            node.unpruned(palette) <==> (node.children->0@.len() == palette.len() && forall|
                j: int,
            |
                0 <= j < node.children->0@.len() ==> (#[trigger] node.children->0@[j]).unpruned(
                    palette,
                )),
    {
    }

    proof fn lemma_expanded_size(node: Node)
        requires
            node.children is Expanded,
        ensures
            node.size() == 1 + Self::sizes(node.children->0@, node.children->0@.len() as int),
    {
    }

    proof fn lemma_sizes_fresh(children: Seq<Node>, n: int)
        requires
            0 <= n <= children.len(),
            forall|j: int| 0 <= j < n ==> (#[trigger] children[j]).children is Unexpanded,
        ensures
            Self::sizes(children, n) == n,
        decreases n,
    {
        if n > 0 {
            Self::lemma_sizes_fresh(children, n - 1);
            assert(children[n - 1].children is Unexpanded);
            assert(children[n - 1].size() == 1);
        }
    }

    proof fn lemma_sizes_prefix(before: Seq<Node>, after: Seq<Node>, n: int)
        requires
            0 <= n <= before.len(),
            n <= after.len(),
            forall|j: int| 0 <= j < n ==> before[j] == after[j],
        ensures
            Self::sizes(before, n) == Self::sizes(after, n),
        decreases n,
    {
        if n > 0 {
            Self::lemma_sizes_prefix(before, after, n - 1);
        }
    }

    proof fn lemma_sizes_update(children: Seq<Node>, index: int, child: Node, n: int)
        requires
            0 <= index < children.len(),
            0 <= n <= children.len(),
        ensures
            Self::sizes(children.update(index, child), n) == if index < n {
                Self::sizes(children, n) - children[index].size() + child.size()
            } else {
                Self::sizes(children, n) as int
            },
        decreases n,
    {
        if n > 0 {
            Self::lemma_sizes_update(children, index, child, n - 1);
        }
    }

    /// What the attempts admit below a node they admit below its children.
    proof fn lemma_child_admits_below(
        history: Seq<Attempt>,
        code: Seq<Color>,
        position: int,
        child: Seq<Color>,
    )
        requires
            0 <= position < code.len(),
            code[position] == OPEN,
            child == code.update(position, child[position]),
            admits_all_below(history, code),
        ensures
            admits_all_below(history, child),
    {
        assert forall|full: Seq<Color>| refines(child, full) implies #[trigger] admitted_by_all(
            history,
            full,
        ) by {
            assert forall|i: int| 0 <= i < code.len() && code[i] != OPEN implies full[i]
                == code[i] by {
                assert(child[i] == code[i]);
            }
            assert(refines(code, full));
        }
    }

    /// What makes an expanded node well formed.
    proof fn lemma_expanded_well_formed(node: Node, palette: Seq<Color>)
        requires
            node.children is Expanded,
            node.code_count == wrapping_add(
                1,
                Self::cached_total(node.children->0@, node.children->0@.len() as int),
            ),
            exists|position: int|
                Self::branches_at(node.code@, node.children->0@, palette, position),
            forall|j: int|
                0 <= j < node.children->0@.len() ==> (#[trigger] node.children->0@[j]).well_formed(
                    palette,
                ),
        ensures
            node.well_formed(palette),
    {
    }

    /// The cached total of a prefix does not depend on what follows it.
    proof fn lemma_cached_total_prefix(before: Seq<Node>, after: Seq<Node>, n: int)
        requires
            0 <= n <= before.len(),
            n <= after.len(),
            forall|j: int| 0 <= j < n ==> before[j].code_count == after[j].code_count,
        ensures
            Self::cached_total(before, n) == Self::cached_total(after, n),
        decreases n,
    {
        if n > 0 {
            Self::lemma_cached_total_prefix(before, after, n - 1);
        }
    }

    /// The potential of a prefix does not depend on what follows it.
    proof fn lemma_potentials_prefix(before: Seq<Node>, after: Seq<Node>, colors: nat, n: int)
        requires
            0 <= n <= before.len(),
            n <= after.len(),
            forall|j: int| 0 <= j < n ==> before[j] == after[j],
        ensures
            Self::potentials(before, colors, n) == Self::potentials(after, colors, n),
        decreases n,
    {
        if n > 0 {
            Self::lemma_potentials_prefix(before, after, colors, n - 1);
        }
    }

    /// The children that an expansion makes stand together for what the
    /// node stood for before.
    proof fn lemma_expansion_covers(
        code: Seq<Color>,
        children: Seq<Node>,
        palette: Seq<Color>,
        position: int,
        full: Seq<Color>,
    )
        requires
            0 <= position < code.len(),
            code[position] == OPEN,
            !palette.contains(OPEN),
            children.len() == palette.len(),
            forall|j: int|
                #![trigger children[j]]
                0 <= j < children.len() ==> children[j].children is Unexpanded
                    && children[j].code@ == code.update(position, palette[j]),
        ensures
            completes(code, palette, full) <==> exists|j: int|
                0 <= j < children.len() && (#[trigger] children[j]).covers(palette, full),
    {
        if completes(code, palette, full) {
            assert(palette.contains(full[position]));
            let j = choose|j: int| 0 <= j < palette.len() && palette[j] == full[position];
            assert(completes(children[j].code@, palette, full));
            assert(children[j].covers(palette, full));
        }
        if exists|j: int| 0 <= j < children.len() && (#[trigger] children[j]).covers(palette, full) {
            let j = choose|j: int|
                0 <= j < children.len() && (#[trigger] children[j]).covers(palette, full);
            let child = children[j].code@;
            assert(completes(child, palette, full));
            assert forall|i: int| 0 <= i < code.len() implies if code[i] == OPEN {
                palette.contains(#[trigger] full[i])
            } else {
                full[i] == code[i]
            } by {
                if i == position {
                    assert(child[i] == palette[j]);
                    assert(palette.contains(palette[j]));
                } else {
                    assert(child[i] == code[i]);
                }
            }
        }
    }

    proof fn lemma_total_is_sizes(children: Seq<Node>, palette: Seq<Color>, n: int)
        requires
            0 <= n <= children.len(),
            forall|j: int| 0 <= j < children.len() ==> (#[trigger] children[j]).well_formed(palette),
            Self::sizes(children, n) <= usize::MAX,
        ensures
            Self::cached_total(children, n) == Self::sizes(children, n),
        decreases children, n,
    {
        if n > 0 {
            Self::lemma_total_is_sizes(children, palette, n - 1);
            Self::lemma_count_is_size(children[n - 1], palette);
        }
    }

    proof fn lemma_sizes_within_potentials(children: Seq<Node>, colors: nat, n: int)
        requires
            0 <= n <= children.len(),
        ensures
            Self::sizes(children, n) <= Self::potentials(children, colors, n),
        decreases children, n,
    {
        if n > 0 {
            Self::lemma_sizes_within_potentials(children, colors, n - 1);
            Self::lemma_size_within_potential(children[n - 1], colors);
        }
    }

    proof fn lemma_expanded_covers(node: Node, palette: Seq<Color>, full: Seq<Color>)
        requires
            node.children is Expanded,
        ensures
            node.covers(palette, full) <==> Self::covered(node.children->0@, palette, full),
    {
    }

    proof fn lemma_expanded_potential(node: Node, colors: nat)
        requires
            node.children is Expanded,
        ensures
            node.potential(colors) == 1 + Self::potentials(
                node.children->0@,
                colors,
                node.children->0@.len() as int,
            ),
    {
    }

    proof fn lemma_cached_total_update(children: Seq<Node>, index: int, child: Node, n: int)
        requires
            0 <= index < children.len(),
            0 <= n <= children.len(),
        ensures
            Self::cached_total(children.update(index, child), n) == if index < n {
                wrapping_add(
                    wrapping_sub(Self::cached_total(children, n), children[index].code_count),
                    child.code_count,
                )
            } else {
                Self::cached_total(children, n)
            },
        decreases n,
    {
        if n > 0 {
            Self::lemma_cached_total_update(children, index, child, n - 1);
        }
    }

    proof fn lemma_cached_total_remove(children: Seq<Node>, index: int, n: int)
        requires
            0 <= index < children.len(),
            0 <= n < children.len(),
        ensures
            Self::cached_total(children.remove(index), n) == if index < n {
                wrapping_sub(Self::cached_total(children, n + 1), children[index].code_count)
            } else {
                Self::cached_total(children, n)
            },
        decreases n,
    {
        if n > 0 {
            Self::lemma_cached_total_remove(children, index, n - 1);
        }
    }

    proof fn lemma_potentials_update(
        children: Seq<Node>,
        colors: nat,
        index: int,
        child: Node,
        n: int,
    )
        requires
            0 <= index < children.len(),
            0 <= n <= children.len(),
        ensures
            Self::potentials(children.update(index, child), colors, n) == if index < n {
                Self::potentials(children, colors, n) - children[index].potential(colors)
                    + child.potential(colors)
            } else {
                Self::potentials(children, colors, n) as int
            },
        decreases n,
    {
        if n > 0 {
            Self::lemma_potentials_update(children, colors, index, child, n - 1);
        }
    }

    proof fn lemma_potentials_remove(children: Seq<Node>, colors: nat, index: int, n: int)
        requires
            0 <= index < children.len(),
            0 <= n < children.len(),
        ensures
            Self::potentials(children.remove(index), colors, n) == if index < n {
                Self::potentials(children, colors, n + 1) - children[index].potential(colors)
            } else {
                Self::potentials(children, colors, n) as int
            },
        decreases n,
    {
        if n > 0 {
            Self::lemma_potentials_remove(children, colors, index, n - 1);
        }
    }

    /// Replacing one child by a node that holds no more candidates leaves
    /// no more candidates among the children.
    proof fn lemma_update_shrinks(
        children: Seq<Node>,
        index: int,
        child: Node,
        palette: Seq<Color>,
        full: Seq<Color>,
    )
        requires
            0 <= index < children.len(),
            child.covers(palette, full) ==> children[index].covers(palette, full),
            Self::covered(children.update(index, child), palette, full),
        ensures
            Self::covered(children, palette, full),
    {
        let after = children.update(index, child);
        let j = choose|j: int| 0 <= j < after.len() && (#[trigger] after[j]).covers(palette, full);
        assert(children[j].covers(palette, full));
    }

    /// Replacing one child by a node that holds the candidate whenever the
    /// child held it keeps the candidate among the children.
    proof fn lemma_update_keeps(
        children: Seq<Node>,
        index: int,
        child: Node,
        palette: Seq<Color>,
        full: Seq<Color>,
    )
        requires
            0 <= index < children.len(),
            children[index].covers(palette, full) ==> child.covers(palette, full),
            Self::covered(children, palette, full),
        ensures
            Self::covered(children.update(index, child), palette, full),
    {
        let after = children.update(index, child);
        let j = choose|j: int|
            0 <= j < children.len() && (#[trigger] children[j]).covers(palette, full);
        assert(after[j].covers(palette, full));
    }

    /// Removing a child leaves no more candidates among the children, and
    /// loses none but those of the child.
    proof fn lemma_remove_covered(
        children: Seq<Node>,
        index: int,
        palette: Seq<Color>,
        full: Seq<Color>,
    )
        requires
            0 <= index < children.len(),
        ensures
            Self::covered(children.remove(index), palette, full) ==> Self::covered(
                children,
                palette,
                full,
            ),
            Self::covered(children, palette, full) && !children[index].covers(palette, full)
                ==> Self::covered(children.remove(index), palette, full),
    {
        let after = children.remove(index);
        if Self::covered(after, palette, full) {
            let j = choose|j: int|
                0 <= j < after.len() && (#[trigger] after[j]).covers(palette, full);
            if j < index {
                assert(children[j].covers(palette, full));
            } else {
                assert(children[j + 1].covers(palette, full));
            }
        }
        if Self::covered(children, palette, full) && !children[index].covers(palette, full) {
            let j = choose|j: int|
                0 <= j < children.len() && (#[trigger] children[j]).covers(palette, full);
            if j < index {
                assert(after[j].covers(palette, full));
            } else {
                assert(after[j - 1].covers(palette, full));
            }
        }
    }

    /// The walk begins at a well-formed expanded node.
    proof fn lemma_walk_begins(start: Node, palette: Seq<Color>, history: Seq<Attempt>) -> (position:
        int)
        requires
            start.well_formed(palette),
            start.children is Expanded,
        ensures
            Self::walking(
                start,
                start.children->0@,
                start.code_count,
                palette,
                history,
                position,
            ),
    {
        let children = start.children->0@;
        let position = choose|position: int|
            Self::branches_at(start.code@, children, palette, position);
        assert forall|full: Seq<Color>| #[trigger]
            Self::covered(children, palette, full) <==> start.covers(palette, full) by {
            Self::lemma_expanded_covers(start, palette, full);
        }
        position
    }

    /// The walk goes on after a look into the child `index`, which left
    /// `child` in its place.
    proof fn lemma_walk_update(
        start: Node,
        children: Seq<Node>,
        count: usize,
        palette: Seq<Color>,
        history: Seq<Attempt>,
        position: int,
        index: int,
        child: Node,
    )
        requires
            Self::walking(start, children, count, palette, history, position),
            0 <= index < children.len(),
            child.well_formed(palette),
            child.code@ == children[index].code@,
            child.potential(palette.len()) <= children[index].potential(palette.len()),
            forall|full: Seq<Color>| #[trigger]
                child.covers(palette, full) ==> children[index].covers(palette, full),
            guesses_complete(history) ==> forall|full: Seq<Color>|
                children[index].covers(palette, full) && #[trigger] admitted_by_all(history, full)
                    ==> child.covers(palette, full),
        ensures
            Self::walking(
                start,
                children.update(index, child),
                wrapping_add(wrapping_sub(count, children[index].code_count), child.code_count),
                palette,
                history,
                position,
            ),
            Self::potentials(children.update(index, child), palette.len(), children.len() as int)
                == Self::potentials(children, palette.len(), children.len() as int)
                - children[index].potential(palette.len()) + child.potential(palette.len()),
    {
        let after = children.update(index, child);
        let n = children.len() as int;
        Self::lemma_cached_total_update(children, index, child, n);
        Self::lemma_potentials_update(children, palette.len(), index, child, n);
        assert(Self::branches_at(start.code@, after, palette, position));
        assert forall|full: Seq<Color>| #[trigger]
            Self::covered(after, palette, full) implies start.covers(palette, full) by {
            Self::lemma_update_shrinks(children, index, child, palette, full);
        }
        if guesses_complete(history) {
            assert forall|full: Seq<Color>|
                start.covers(palette, full) && #[trigger] admitted_by_all(
                    history,
                    full,
                ) implies Self::covered(after, palette, full) by {
                assert(Self::covered(children, palette, full));
                Self::lemma_update_keeps(children, index, child, palette, full);
            }
        }
    }

    /// The walk goes on after the child `index` was found dead and was
    /// removed.
    proof fn lemma_walk_remove(
        start: Node,
        children: Seq<Node>,
        count: usize,
        palette: Seq<Color>,
        history: Seq<Attempt>,
        position: int,
        index: int,
    )
        requires
            Self::walking(start, children, count, palette, history, position),
            0 <= index < children.len(),
            guesses_complete(history) ==> forall|full: Seq<Color>|
                children[index].covers(palette, full) ==> !#[trigger] admitted_by_all(
                    history,
                    full,
                ),
        ensures
            Self::walking(
                start,
                children.remove(index),
                wrapping_sub(count, children[index].code_count),
                palette,
                history,
                position,
            ),
            Self::potentials(children.remove(index), palette.len(), children.len() - 1)
                == Self::potentials(children, palette.len(), children.len() as int)
                - children[index].potential(palette.len()),
    {
        let after = children.remove(index);
        let n = children.len() as int;
        Self::lemma_cached_total_remove(children, index, n - 1);
        Self::lemma_potentials_remove(children, palette.len(), index, n - 1);
        if index == n - 1 {
            Self::lemma_cached_total_prefix(children, after, n - 1);
            Self::lemma_potentials_prefix(children, after, palette.len(), n - 1);
        }
        assert(Self::branches_at(start.code@, after, palette, position));
        assert forall|full: Seq<Color>| #[trigger]
            Self::covered(after, palette, full) implies start.covers(palette, full) by {
            Self::lemma_remove_covered(children, index, palette, full);
        }
        if guesses_complete(history) {
            assert forall|full: Seq<Color>|
                start.covers(palette, full) && #[trigger] admitted_by_all(
                    history,
                    full,
                ) implies Self::covered(after, palette, full) by {
                assert(Self::covered(children, palette, full));
                Self::lemma_remove_covered(children, index, palette, full);
            }
        }
    }

    /// What the walk leaves behind, in a node whose children are those of
    /// the walk.
    proof fn lemma_walk_ends(
        node: Node,
        start: Node,
        palette: Seq<Color>,
        history: Seq<Attempt>,
        position: int,
    )
        requires
            node.children is Expanded,
            node.code@ == start.code@,
            Self::walking(start, node.children->0@, node.code_count, palette, history, position),
        ensures
            node.well_formed(palette),
            node.potential(palette.len()) <= start.potential(palette.len()),
            node.potential(palette.len()) == 1 + Self::potentials(
                node.children->0@,
                palette.len(),
                node.children->0@.len() as int,
            ),
            forall|full: Seq<Color>| #[trigger]
                node.covers(palette, full) ==> start.covers(palette, full),
            guesses_complete(history) ==> forall|full: Seq<Color>|
                start.covers(palette, full) && #[trigger] admitted_by_all(history, full)
                    ==> node.covers(palette, full),
            forall|full: Seq<Color>| #[trigger]
                node.covers(palette, full) <==> Self::covered(node.children->0@, palette, full),
    {
        Self::lemma_expanded_well_formed(node, palette);
        Self::lemma_expanded_potential(node, palette.len());
        assert forall|full: Seq<Color>| #[trigger]
            node.covers(palette, full) <==> Self::covered(node.children->0@, palette, full) by {
            Self::lemma_expanded_covers(node, palette, full);
        }
    }
}

} // verus!
