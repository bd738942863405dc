//! The control-flow tree: a tree of guarded paths.
//!
//! A [`CFT::Switch`] names a guard node and the subtrees that execution can
//! continue with: one of them, selected by `hot_index`, is the expected
//! (hot) continuation, and the others are cold.  A [`CFT::Merge`] is a leaf
//! carrying an exit [`Node`] and client leaf metadata.

use vstd::prelude::*;

use crate::dataflow::Node;

verus! {

/// A tree of guarded paths.
#[derive(Debug)]
pub enum CFT<L> {
    /// A leaf: executing the hot path ends at `exit`.
    Merge { exit: Node, leaf: L },
    /// A guarded branch.  `cases` followed by `default_` are the possible
    /// continuations; the one at position `hot_index` is the hot one.
    Switch { guard: Node, cases: Vec<CFT<L>>, default_: Box<CFT<L>>, hot_index: usize },
}

/// The height of a control-flow tree: `Merge` leaves have height zero.
pub open spec fn cft_height<L>(cft: CFT<L>) -> nat
    decreases cft,
{
    match cft {
        CFT::Merge { .. } => 0,
        CFT::Switch { cases, default_, .. } => {
            let ch = cases_height(cases@);
            let dh = cft_height(*default_);
            1 + if ch > dh {
                ch
            } else {
                dh
            }
        },
    }
}

/// The greatest height among a sequence of control-flow trees.
pub open spec fn cases_height<L>(cases: Seq<CFT<L>>) -> nat
    decreases cases,
{
    if cases.len() == 0 {
        0
    } else {
        let rest = cases_height(cases.drop_last());
        let last = cft_height(cases.last());
        if last > rest {
            last
        } else {
            rest
        }
    }
}

/// Every tree of a sequence is no taller than the sequence's height.
pub proof fn lemma_cases_height<L>(cases: Seq<CFT<L>>, i: int)
    requires
        0 <= i < cases.len(),
    ensures
        cft_height(cases[i]) <= cases_height(cases),
    decreases cases.len(),
{
    if i == cases.len() - 1 {
    } else {
        lemma_cases_height(cases.drop_last(), i);
    }
}

impl<L> CFT<L> {
    /// Constructs a `Switch`.  `hot_index` selects the expected
    /// continuation: a position in `cases`, or `cases.len()` for
    /// `default_`.
    pub fn switch(guard: Node, cases: Vec<CFT<L>>, default_: CFT<L>, hot_index: usize) -> (cft:
        CFT<L>)
        requires
            hot_index <= cases@.len(),
        ensures
            cft == (CFT::Switch {
                guard,
                cases,
                default_: Box::new(default_),
                hot_index,
            }),
    {
        CFT::Switch { guard, cases, default_: Box::new(default_), hot_index }
    }
}

/// The record of a guarded branch with its hot continuation removed:
/// the guard, the position the hot branch held, and the cold subtrees.
#[derive(Debug)]
pub struct Cold<T> {
    /// The guard node.
    pub guard: Node,
    /// The position of the hot branch among the successors.
    pub hot_index: usize,
    /// The cold successors, in order, with the hot branch removed.
    pub colds: Vec<T>,
}

/// A guarded branch with every successor present.
#[derive(Debug)]
pub struct Switch<T> {
    /// The guard node.
    pub guard: Node,
    /// The non-default successors.
    pub cases: Vec<T>,
    /// The default successor.
    pub default_: Box<T>,
}

impl<T> Cold<T> {
    /// Re-inserts the hot branch at position `hot_index`, restoring a full
    /// [`Switch`].  The last successor becomes the default.
    pub fn insert_hot(self, hot: T) -> (sw: Switch<T>)
        requires
            self.hot_index <= self.colds@.len(),
        ensures
            sw.guard == self.guard,
            sw.cases@.len() == self.colds@.len(),
            ({
                let full = self.colds@.insert(self.hot_index as int, hot);
                sw.cases@ =~= full.drop_last() && *sw.default_ == full.last()
            }),
    {
        let Cold { guard, hot_index, colds } = self;
        let mut full: Vec<T> = colds;
        full.insert(hot_index, hot);
        let default_ = Box::new(full.pop().unwrap());
        Switch { guard, cases: full, default_ }
    }
}

} // verus!
