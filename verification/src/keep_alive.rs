//! Keep-alive analysis.
//!
//! For each guard on the hot path of a control-flow tree, this pass
//! computes the set of values that are defined on a hotter path and read
//! by some colder path, and which must therefore stay alive past the
//! guard.  The result is a [`HotPathTree`].

use vstd::prelude::*;

use crate::cft::{cases_height, cft_height, lemma_cases_height, Cold, CFT};
use crate::dataflow::{Dataflow, Node, Op, Out};
use crate::flood::{
    clear_marks, conventions_are_sinks, flood, listed_nodes_wf, marked_iff_listed, marks_extend, only_hotter_marks, unmark_ok,
};
use crate::util::{NodeSet, OutSet};

verus! {

/// What happens when a guard fails: the cold subtrees that could be
/// entered, and the values that must be kept alive for them.
pub struct GuardFailure<L> {
    /// The guard, the position of the hot branch, and the cold subtrees.
    pub cold: Cold<HotPathTree<L>>,
    /// The values, defined on this or a hotter path, that some cold
    /// subtree reads.  They must stay alive until the guard executes.
    pub keep_alives: OutSet,
}

/// A tree of hot paths.  A hot path is the set of nodes executed if every
/// guard takes its expected outcome; each guard failure starts a new,
/// colder hot path, which is a child of this one.
pub struct HotPathTree<L> {
    /// The exit node of the hot path.
    pub exit: Node,
    /// The leaf metadata of the hot path.
    pub leaf: L,
    /// One [`GuardFailure`] for each guard on the hot path.
    pub children: Vec<GuardFailure<L>>,
    /// The nodes of this hot path, in dependency order.
    pub nodes: Ghost<Seq<Node>>,
}

impl<L> HotPathTree<L> {
    /// Constructs a tree from its exit, its leaf and its guard failures.
    pub fn new(exit: Node, leaf: L, children: Vec<GuardFailure<L>>) -> (t: HotPathTree<L>)
        ensures
            t.exit == exit,
            t.leaf == leaf,
            t.children == children,
    {
        HotPathTree { exit, leaf, children, nodes: Ghost(Seq::empty()) }
    }
}

// ------------------------------------------------------------------
// The nodes of a tree and of its descendants.

/// The nodes of `tree`'s own hot path together with those of every
/// descendant cold path.
pub open spec fn tree_all_nodes<L>(tree: HotPathTree<L>) -> Set<Node>
    decreases tree,
{
    Set::new(|n: Node| tree.nodes@.contains(n)).union(children_all_nodes(tree.children@))
}

/// The nodes of the cold paths of a sequence of guard failures.
pub open spec fn children_all_nodes<L>(children: Seq<GuardFailure<L>>) -> Set<Node>
    decreases children,
{
    if children.len() == 0 {
        Set::empty()
    } else {
        children_all_nodes(children.drop_last()).union(
            colds_all_nodes(children.last().cold.colds@),
        )
    }
}

/// The nodes of a sequence of cold subtrees.
pub open spec fn colds_all_nodes<L>(colds: Seq<HotPathTree<L>>) -> Set<Node>
    decreases colds,
{
    if colds.len() == 0 {
        Set::empty()
    } else {
        colds_all_nodes(colds.drop_last()).union(tree_all_nodes(colds.last()))
    }
}

// ------------------------------------------------------------------
// The keep-alive closure property.

/// Every value read by a node of `scope` is defined inside `scope` or
/// listed in `keep`.
pub open spec fn reads_covered(df: Dataflow, scope: Set<Node>, keep: Seq<Out>) -> bool {
    forall|n: Node, j: int|
        scope.contains(n) && 0 <= j < df.ins(n).len() ==> (scope.contains(
            (#[trigger] df.ins(n)[j]).node,
        ) || keep.contains(df.ins(n)[j]))
}

/// The keep-alive closure: at every guard of `tree`, every value read by
/// a descendant cold path is either in that guard's `keep_alives` set or
/// is defined on that cold subtree.
pub open spec fn keep_alive_closed<L>(df: Dataflow, tree: HotPathTree<L>) -> bool
    decreases tree,
{
    children_closed(df, tree.children@)
}

/// [`keep_alive_closed`] over a sequence of guard failures.
pub open spec fn children_closed<L>(df: Dataflow, children: Seq<GuardFailure<L>>) -> bool
    decreases children,
{
    if children.len() == 0 {
        true
    } else {
        &&& children_closed(df, children.drop_last())
        &&& colds_closed(df, children.last().cold.colds@)
        &&& colds_covered(df, children.last().cold.colds@, children.last().keep_alives@)
    }
}

/// [`keep_alive_closed`] holds of every tree in the sequence.
pub open spec fn colds_closed<L>(df: Dataflow, colds: Seq<HotPathTree<L>>) -> bool
    decreases colds,
{
    if colds.len() == 0 {
        true
    } else {
        colds_closed(df, colds.drop_last()) && keep_alive_closed(df, colds.last())
    }
}

/// The reads of every tree in the sequence are covered by its own nodes
/// or by `keep`.
pub open spec fn colds_covered<L>(df: Dataflow, colds: Seq<HotPathTree<L>>, keep: Seq<Out>) -> bool
    decreases colds,
{
    if colds.len() == 0 {
        true
    } else {
        colds_covered(df, colds.drop_last(), keep) && reads_covered(
            df,
            tree_all_nodes(colds.last()),
            keep,
        )
    }
}

// ------------------------------------------------------------------
// Structure of a control-flow tree: exits, guards, hot exit.

/// The exit nodes of every `Merge` leaf of `cft`.
pub open spec fn cft_exit_set<L>(cft: CFT<L>) -> Set<Node>
    decreases cft,
{
    match cft {
        CFT::Merge { exit, .. } => Set::empty().insert(exit),
        CFT::Switch { cases, default_, .. } => cases_exit_set(cases@).union(
            cft_exit_set(*default_),
        ),
    }
}

/// The exit nodes of a sequence of control-flow trees.
pub open spec fn cases_exit_set<L>(s: Seq<CFT<L>>) -> Set<Node>
    decreases s,
{
    if s.len() == 0 {
        Set::empty()
    } else {
        cases_exit_set(s.drop_last()).union(cft_exit_set(s.last()))
    }
}

/// Structural well-formedness of a control-flow tree against a graph:
/// exits are `Convention` nodes, guards are nodes, and every `hot_index`
/// is in range.
pub open spec fn cft_wf<L>(df: Dataflow, cft: CFT<L>) -> bool
    decreases cft,
{
    match cft {
        CFT::Merge { exit, .. } => df.is_node(exit) && df.op(exit) == Op::Convention,
        CFT::Switch { guard, cases, default_, hot_index } => {
            &&& df.is_node(guard)
            &&& hot_index <= cases@.len()
            &&& cases@.len() < usize::MAX
            &&& cases_wf(df, cases@)
            &&& cft_wf(df, *default_)
        },
    }
}

/// [`cft_wf`] over a sequence of trees.
pub open spec fn cases_wf<L>(df: Dataflow, s: Seq<CFT<L>>) -> bool
    decreases s,
{
    if s.len() == 0 {
        true
    } else {
        cases_wf(df, s.drop_last()) && cft_wf(df, s.last())
    }
}

/// The exits of distinct branches are distinct, throughout the tree.
pub open spec fn exits_distinct<L>(cft: CFT<L>) -> bool
    decreases cft,
{
    match cft {
        CFT::Merge { .. } => true,
        CFT::Switch { cases, default_, .. } => {
            &&& cases_exits_distinct(cases@)
            &&& exits_distinct(*default_)
            &&& cases_pairwise_disjoint(cases@)
            &&& cases_exit_set(cases@).disjoint(cft_exit_set(*default_))
        },
    }
}

/// [`exits_distinct`] over a sequence of trees.
pub open spec fn cases_exits_distinct<L>(s: Seq<CFT<L>>) -> bool
    decreases s,
{
    if s.len() == 0 {
        true
    } else {
        cases_exits_distinct(s.drop_last()) && exits_distinct(s.last())
    }
}

/// The exit sets of the trees of a sequence are pairwise disjoint.
pub open spec fn cases_pairwise_disjoint<L>(s: Seq<CFT<L>>) -> bool
    decreases s,
{
    if s.len() == 0 {
        true
    } else {
        cases_pairwise_disjoint(s.drop_last()) && cases_exit_set(s.drop_last()).disjoint(
            cft_exit_set(s.last()),
        )
    }
}

/// Every exit of `cft` is unmarked in `m`.
pub open spec fn exits_unmarked<L>(m: Seq<usize>, cft: CFT<L>) -> bool {
    forall|e: Node| cft_exit_set(cft).contains(e) ==> m[e.index as int] == 0
}

/// The exit reached when every guard takes its expected outcome.
pub open spec fn cft_hot_exit<L>(cft: CFT<L>) -> Node
    decreases cft,
{
    match cft {
        CFT::Merge { exit, .. } => exit,
        CFT::Switch { cases, default_, hot_index, .. } => {
            if hot_index < cases@.len() {
                cft_hot_exit(cases@[hot_index as int])
            } else {
                cft_hot_exit(*default_)
            }
        },
    }
}

/// Everything [`walk`] requires of the graph, the marks and the tree.
///
/// [`walk`]: KeepAlive::walk
pub open spec fn walk_pre<L>(df: Dataflow, m: Seq<usize>, cft: CFT<L>, coldness: usize) -> bool {
    &&& df.wf()
    &&& conventions_are_sinks(df)
    &&& m.len() == df.len()
    &&& m[0] == 1
    &&& 2 <= coldness
    &&& coldness + cft_height(cft) < usize::MAX
    &&& only_hotter_marks(m, coldness)
    &&& cft_wf(df, cft)
    &&& exits_distinct(cft)
    &&& exits_unmarked(m, cft)
}

// ------------------------------------------------------------------
// Lemmas about the sequence-structured spec functions.

/// A member of a sequence of trees contributes its exits to the
/// sequence's exit set, and inherits the sequence-wide properties.
proof fn lemma_case_facts<L>(df: Dataflow, s: Seq<CFT<L>>, i: int)
    requires
        0 <= i < s.len(),
    ensures
        forall|e: Node|
            cft_exit_set(s[i]).contains(e) ==> #[trigger] cases_exit_set(s).contains(e),
        cases_wf(df, s) ==> cft_wf(df, s[i]),
        cases_exits_distinct(s) ==> exits_distinct(s[i]),
    decreases s.len(),
{
    if i == s.len() - 1 {
        assert(s.last() == s[i]);
        assert forall|e: Node| cft_exit_set(s[i]).contains(e) implies #[trigger] cases_exit_set(
            s,
        ).contains(e) by {
            assert(cft_exit_set(s.last()).contains(e));
        }
    } else {
        lemma_case_facts(df, s.drop_last(), i);
        assert(s.drop_last()[i] == s[i]);
        assert forall|e: Node| cft_exit_set(s[i]).contains(e) implies #[trigger] cases_exit_set(
            s,
        ).contains(e) by {
            assert(cases_exit_set(s.drop_last()).contains(e));
        }
    }
}

/// Two distinct members of a pairwise-disjoint sequence have disjoint
/// exit sets.
proof fn lemma_cases_disjoint<L>(df: Dataflow, s: Seq<CFT<L>>, i: int, j: int)
    requires
        cases_pairwise_disjoint(s),
        0 <= i < j < s.len(),
    ensures
        cft_exit_set(s[i]).disjoint(cft_exit_set(s[j])),
    decreases s.len(),
{
    if j == s.len() - 1 {
        lemma_case_facts(df, s.drop_last(), i);
        assert(s.drop_last()[i] == s[i]);
        assert forall|e: Node| cft_exit_set(s[i]).contains(e) implies !cft_exit_set(
            s[j],
        ).contains(e) by {
            assert(cases_exit_set(s.drop_last()).contains(e));
            assert(s.last() == s[j]);
        }
    } else {
        lemma_cases_disjoint(df, s.drop_last(), i, j);
        assert(s.drop_last()[i] == s[i]);
        assert(s.drop_last()[j] == s[j]);
    }
}

/// Every exit of a well-formed tree is a `Convention` node of the graph.
proof fn lemma_exits_are_conventions<L>(df: Dataflow, cft: CFT<L>)
    requires
        cft_wf(df, cft),
    ensures
        forall|e: Node|
            #[trigger] cft_exit_set(cft).contains(e) ==> df.is_node(e) && df.op(e)
                == Op::Convention,
    decreases cft,
{
    match cft {
        CFT::Merge { exit, .. } => {
            assert(cft_exit_set(cft) == Set::empty().insert(exit));
            assert(df.is_node(exit) && df.op(exit) == Op::Convention);
            assert forall|e: Node| #[trigger] cft_exit_set(cft).contains(e) implies df.is_node(e)
                && df.op(e) == Op::Convention by {
                assert(Set::empty().insert(exit).contains(e));
                assert(e == exit);
            }
        },
        CFT::Switch { cases, default_, .. } => {
            lemma_cases_are_conventions(df, cases@);
            lemma_exits_are_conventions(df, *default_);
            assert forall|e: Node| #[trigger] cft_exit_set(cft).contains(e) implies df.is_node(e)
                && df.op(e) == Op::Convention by {
                if cases_exit_set(cases@).contains(e) {
                } else {
                    assert(cft_exit_set(*default_).contains(e));
                }
            }
        },
    }
}

/// Helper of [`lemma_exits_are_conventions`] for branch sequences.
proof fn lemma_cases_are_conventions<L>(df: Dataflow, s: Seq<CFT<L>>)
    requires
        cases_wf(df, s),
    ensures
        forall|e: Node|
            #[trigger] cases_exit_set(s).contains(e) ==> df.is_node(e) && df.op(e)
                == Op::Convention,
    decreases s,
{
    if s.len() > 0 {
        lemma_cases_are_conventions(df, s.drop_last());
        lemma_exits_are_conventions(df, s.last());
        assert forall|e: Node| #[trigger] cases_exit_set(s).contains(e) implies df.is_node(e)
            && df.op(e) == Op::Convention by {
            if cases_exit_set(s.drop_last()).contains(e) {
            } else {
                assert(cft_exit_set(s.last()).contains(e));
            }
        }
    }
}

/// The hot exit of a tree is among its exits.
proof fn lemma_hot_exit_in_set<L>(cft: CFT<L>)
    requires
        cft_wf_shallow_indexes(cft),
    ensures
        cft_exit_set(cft).contains(cft_hot_exit(cft)),
    decreases cft,
{
    match cft {
        CFT::Merge { exit, .. } => {
            assert(cft_hot_exit(cft) == exit);
            assert(cft_exit_set(cft).contains(exit));
        },
        CFT::Switch { cases, default_, hot_index, .. } => {
            if (hot_index as int) < cases@.len() {
                lemma_case_subset_only(cases@, hot_index as int);
                lemma_hot_exit_in_set(cases@[hot_index as int]);
                assert(cases_exit_set(cases@).contains(cft_hot_exit(cases@[hot_index as int])));
            } else {
                lemma_hot_exit_in_set(*default_);
            }
        },
    }
}

/// Every `hot_index` throughout the tree is in range.
pub open spec fn cft_wf_shallow_indexes<L>(cft: CFT<L>) -> bool
    decreases cft,
{
    match cft {
        CFT::Merge { .. } => true,
        CFT::Switch { cases, default_, hot_index, .. } => {
            &&& hot_index <= cases@.len()
            &&& cases_wf_shallow_indexes(cases@)
            &&& cft_wf_shallow_indexes(*default_)
        },
    }
}

/// [`cft_wf_shallow_indexes`] over a sequence of trees.
pub open spec fn cases_wf_shallow_indexes<L>(s: Seq<CFT<L>>) -> bool
    decreases s,
{
    if s.len() == 0 {
        true
    } else {
        cases_wf_shallow_indexes(s.drop_last()) && cft_wf_shallow_indexes(s.last())
    }
}

/// A member's exits are contained in the sequence's exit set.
proof fn lemma_case_subset_only<L>(s: Seq<CFT<L>>, i: int)
    requires
        0 <= i < s.len(),
    ensures
        forall|e: Node|
            cft_exit_set(s[i]).contains(e) ==> #[trigger] cases_exit_set(s).contains(e),
        cases_wf_shallow_indexes(s) ==> cft_wf_shallow_indexes(s[i]),
    decreases s.len(),
{
    if i == s.len() - 1 {
        assert(s.last() == s[i]);
        assert forall|e: Node| cft_exit_set(s[i]).contains(e) implies #[trigger] cases_exit_set(
            s,
        ).contains(e) by {
            assert(cft_exit_set(s.last()).contains(e));
        }
    } else {
        lemma_case_subset_only(s.drop_last(), i);
        assert(s.drop_last()[i] == s[i]);
        assert forall|e: Node| cft_exit_set(s[i]).contains(e) implies #[trigger] cases_exit_set(
            s,
        ).contains(e) by {
            assert(cases_exit_set(s.drop_last()).contains(e));
        }
    }
}

/// [`cft_wf`] implies that every `hot_index` is in range.
proof fn lemma_wf_gives_indexes<L>(df: Dataflow, cft: CFT<L>)
    requires
        cft_wf(df, cft),
    ensures
        cft_wf_shallow_indexes(cft),
    decreases cft,
{
    match cft {
        CFT::Merge { .. } => {},
        CFT::Switch { cases, default_, .. } => {
            lemma_cases_wf_gives_indexes(df, cases@);
            lemma_wf_gives_indexes(df, *default_);
        },
    }
}

/// Helper of [`lemma_wf_gives_indexes`] for branch sequences.
proof fn lemma_cases_wf_gives_indexes<L>(df: Dataflow, s: Seq<CFT<L>>)
    requires
        cases_wf(df, s),
    ensures
        cases_wf_shallow_indexes(s),
    decreases s,
{
    if s.len() > 0 {
        lemma_cases_wf_gives_indexes(df, s.drop_last());
        lemma_wf_gives_indexes(df, s.last());
    }
}

/// [`reads_covered`] is monotone in the scope and in the keep set.
proof fn lemma_reads_covered_mono(
    df: Dataflow,
    scope1: Set<Node>,
    scope2: Set<Node>,
    keep1: Seq<Out>,
    keep2: Seq<Out>,
)
    requires
        reads_covered(df, scope1, keep1),
        forall|n: Node| scope1.contains(n) ==> scope2.contains(n),
        forall|x: Out| keep1.contains(x) ==> keep2.contains(x),
    ensures
        forall|n: Node, j: int|
            scope1.contains(n) && 0 <= j < df.ins(n).len() ==> (scope2.contains(
                (#[trigger] df.ins(n)[j]).node,
            ) || keep2.contains(df.ins(n)[j])),
{
    assert forall|n: Node, j: int|
        scope1.contains(n) && 0 <= j < df.ins(n).len() implies (scope2.contains(
        (#[trigger] df.ins(n)[j]).node,
    ) || keep2.contains(df.ins(n)[j])) by {
        assert(scope1.contains(df.ins(n)[j].node) || keep1.contains(df.ins(n)[j]));
    }
}

/// [`colds_covered`] is monotone in the keep set.
proof fn lemma_colds_covered_mono<L>(
    df: Dataflow,
    colds: Seq<HotPathTree<L>>,
    keep1: Seq<Out>,
    keep2: Seq<Out>,
)
    requires
        colds_covered(df, colds, keep1),
        forall|x: Out| keep1.contains(x) ==> keep2.contains(x),
    ensures
        colds_covered(df, colds, keep2),
    decreases colds.len(),
{
    if colds.len() > 0 {
        lemma_colds_covered_mono(df, colds.drop_last(), keep1, keep2);
        let scope = tree_all_nodes(colds.last());
        lemma_reads_covered_mono(df, scope, scope, keep1, keep2);
    }
}

/// A member of a cold sequence contributes its nodes to the sequence's
/// node set, and the sequence-wide properties restrict to it.
proof fn lemma_colds_member<L>(df: Dataflow, colds: Seq<HotPathTree<L>>, keep: Seq<Out>, i: int)
    requires
        0 <= i < colds.len(),
    ensures
        forall|n: Node|
            tree_all_nodes(colds[i]).contains(n) ==> #[trigger] colds_all_nodes(colds).contains(n),
        colds_covered(df, colds, keep) ==> reads_covered(df, tree_all_nodes(colds[i]), keep),
        colds_closed(df, colds) ==> keep_alive_closed(df, colds[i]),
    decreases colds.len(),
{
    if i == colds.len() - 1 {
        assert(colds.last() == colds[i]);
        assert forall|n: Node| tree_all_nodes(colds[i]).contains(n) implies #[trigger]
            colds_all_nodes(colds).contains(n) by {
            assert(tree_all_nodes(colds.last()).contains(n));
        }
    } else {
        lemma_colds_member(df, colds.drop_last(), keep, i);
        assert(colds.drop_last()[i] == colds[i]);
        assert forall|n: Node| tree_all_nodes(colds[i]).contains(n) implies #[trigger]
            colds_all_nodes(colds).contains(n) by {
            assert(colds_all_nodes(colds.drop_last()).contains(n));
        }
    }
}

/// Every node of a cold sequence belongs to some member.
proof fn lemma_colds_node_member<L>(colds: Seq<HotPathTree<L>>, n: Node) -> (i: int)
    requires
        colds_all_nodes(colds).contains(n),
    ensures
        0 <= i < colds.len(),
        tree_all_nodes(colds[i]).contains(n),
    decreases colds.len(),
{
    if colds_all_nodes(colds.drop_last()).contains(n) {
        let i = lemma_colds_node_member(colds.drop_last(), n);
        assert(colds.drop_last()[i] == colds[i]);
        i
    } else {
        assert(tree_all_nodes(colds.last()).contains(n));
        colds.len() - 1
    }
}

// ------------------------------------------------------------------
// The analysis.

/// The state of one keep-alive analysis: the graph under analysis and
/// the marks of the nodes on the current chain of hot paths.
pub struct KeepAlive<'a> {
    /// The graph under analysis.
    pub dataflow: &'a Dataflow,
    /// `marks[n]` is the coldness of the path that computes `n`, `1` for
    /// the entry node, and `0` if `n` is not on the current chain.
    pub marks: Vec<usize>,
}

impl<'a> KeepAlive<'a> {
    /// Prepares an analysis of `dataflow`: only the entry node is marked.
    pub fn new(dataflow: &'a Dataflow) -> (ka: KeepAlive<'a>)
        requires
            dataflow.wf(),
        ensures
            ka.dataflow == dataflow,
            ka.marks@.len() == dataflow.len(),
            ka.marks@[0] == 1,
            forall|i: int| 1 <= i < ka.marks@.len() ==> ka.marks@[i] == 0,
    {
        let mut marks = dataflow.node_map();
        proof {
            dataflow.lemma_wf();
        }
        marks.set(0, 1);
        KeepAlive { dataflow, marks }
    }

    /// Converts `cft` into a [`HotPathTree`], recording in `inputs` every
    /// value that the tree reads from a hotter path.
    ///
    /// The marks are restored before returning: a call at the root sees
    /// `marks[entry] == 1` and `marks[n] == 0` for every other node both
    /// before and after the call.
    pub fn walk<L: Clone>(&mut self, cft: &CFT<L>, inputs: &mut OutSet, coldness: usize) -> (tree:
        HotPathTree<L>)
        requires
            walk_pre(*old(self).dataflow, old(self).marks@, *cft, coldness),
            old(inputs)@ =~= Seq::<Out>::empty(),
        ensures
            final(self).dataflow == old(self).dataflow,
            final(self).marks@ =~= old(self).marks@,
            tree.exit == cft_hot_exit(*cft),
            children_mirror_switches(tree.children@, *cft),
            keep_alive_closed(*old(self).dataflow, tree),
            reads_covered(*old(self).dataflow, tree_all_nodes(tree), final(inputs)@),
            forall|n: Node|
                #[trigger] tree_all_nodes(tree).contains(n) ==> old(self).dataflow.is_node(n),
            forall|x: Out|
                #[trigger] final(inputs)@.contains(x) ==> old(self).dataflow.is_out(x) && 1 <= old(
                    self,
                ).marks@[x.node.index as int] < coldness,
        decreases cft_height(*cft), 1int,
    {
        let (tree, nodes) = self.walk_hot(cft, inputs, coldness);
        let ghost m_entry = old(self).marks@;
        // Unmark everything this level marked, restoring the entry marks.
        proof {
            assert(unmark_ok(m_entry, self.marks@, nodes@, coldness)) by {
                assert forall|k: int|
                    0 <= k < nodes@.len() implies (#[trigger] nodes@[k]).index
                    < m_entry.len() by {
                    assert(self.dataflow.is_node(nodes@[k]));
                }
            }
        }
        clear_marks(&mut self.marks, &nodes, Ghost(m_entry), coldness);
        tree
    }

    /// The recursion of the analysis: like [`walk`], but marks are left in
    /// place for the caller, which receives the list of nodes this level
    /// marked.
    ///
    /// [`walk`]: KeepAlive::walk
    fn walk_hot<L: Clone>(&mut self, cft: &CFT<L>, inputs: &mut OutSet, coldness: usize) -> (r: (
        HotPathTree<L>,
        Vec<Node>,
    ))
        requires
            walk_pre(*old(self).dataflow, old(self).marks@, *cft, coldness),
            old(inputs)@ =~= Seq::<Out>::empty(),
        ensures
            final(self).dataflow == old(self).dataflow,
            ({
                let (tree, nodes) = r;
                let df = *old(self).dataflow;
                &&& marks_extend(old(self).marks@, final(self).marks@, coldness)
                &&& final(self).marks@.len() == old(self).marks@.len()
                &&& marked_iff_listed(final(self).marks@, coldness, nodes@)
                &&& listed_nodes_wf(df, nodes@)
                &&& forall|k: int|
                    0 <= k < nodes@.len() ==> old(self).marks@[(#[trigger] nodes@[k]).index
                        as int] == 0
                &&& forall|k: int|
                    0 <= k < nodes@.len() - 1 ==> df.op(#[trigger] nodes@[k]) != Op::Convention
                &&& nodes@.len() > 0
                &&& nodes@.last() == tree.exit
                &&& tree.nodes@ =~= nodes@
                &&& tree.exit == cft_hot_exit(*cft)
                &&& children_mirror_switches(tree.children@, *cft)
                &&& keep_alive_closed(df, tree)
                &&& reads_covered(df, tree_all_nodes(tree), final(inputs)@)
                &&& forall|n: Node|
                    #[trigger] tree_all_nodes(tree).contains(n) ==> df.is_node(n)
                &&& forall|x: Out|
                    #[trigger] final(inputs)@.contains(x) ==> df.is_out(x) && 1 <= old(
                        self,
                    ).marks@[x.node.index as int] < coldness
            }),
        decreases cft_height(*cft), 0int,
    {
        let df = self.dataflow;
        match cft {
            CFT::Merge { exit, leaf } => {
                let mut effects = NodeSet::new();
                proof {
                    assert(cft_exit_set(*cft).contains(*exit));
                }
                let nodes = flood(df, &mut self.marks, coldness, inputs, &mut effects, *exit);
                let tree = HotPathTree {
                    exit: *exit,
                    leaf: leaf.clone(),
                    children: Vec::new(),
                    nodes: Ghost(nodes@),
                };
                proof {
                    assert(children_all_nodes(tree.children@) =~= Set::<Node>::empty());
                    assert(tree_all_nodes(tree) =~= Set::new(|n: Node| nodes@.contains(n)));
                    let scope = tree_all_nodes(tree);
                    df.lemma_wf();
                    assert forall|n: Node, j: int|
                        scope.contains(n) && 0 <= j < df.ins(n).len() implies (scope.contains(
                        (#[trigger] df.ins(n)[j]).node,
                    ) || inputs@.contains(df.ins(n)[j])) by {
                        assert(nodes@.contains(n));
                        let k = choose|k: int| 0 <= k < nodes@.len() && nodes@[k] == n;
                        let o = df.ins(n)[j];
                        assert(df.ins(nodes@[k])[j] == o);
                        assert(self.marks@[o.node.index as int] != 0);
                        assert(df.is_out(o));
                        if self.marks@[o.node.index as int] == coldness {
                            assert(nodes@.contains(o.node));
                            assert(scope.contains(o.node));
                        } else {
                            assert(1 <= self.marks@[o.node.index as int] < coldness);
                            assert(inputs@.contains(o));
                        }
                    }
                }
                (tree, nodes)
            },
            CFT::Switch { guard, cases, default_, hot_index } => {
                let ghost m_entry = self.marks@;
                let n_cases = cases.len();
                let hot_ix = *hot_index;
                proof {
                    assert(cft_wf(*df, *cft));
                    if (hot_ix as int) < cases@.len() {
                        lemma_case_facts(*df, cases@, hot_ix as int);
                        lemma_cases_height(cases@, hot_ix as int);
                    }
                    lemma_wf_gives_indexes(*df, *cft);
                }
                let hot: &CFT<L> = if hot_ix < n_cases {
                    &cases[hot_ix]
                } else {
                    &**default_
                };
                proof {
                    // The hot branch satisfies the precondition.
                    assert(cft_height(*hot) < cft_height(*cft));
                    assert(cft_wf(*df, *hot));
                    assert(exits_distinct(*hot)) by {
                        if (hot_ix as int) < cases@.len() {
                            lemma_case_facts(*df, cases@, hot_ix as int);
                        }
                    }
                    assert(exits_unmarked(self.marks@, *hot)) by {
                        assert forall|e: Node| cft_exit_set(*hot).contains(e) implies self.marks@[e.index as int] == 0 by {
                            if (hot_ix as int) < cases@.len() {
                                lemma_case_facts(*df, cases@, hot_ix as int);
                                assert(cft_exit_set(*cft).contains(e));
                            } else {
                                assert(cft_exit_set(*cft).contains(e));
                            }
                        }
                    }
                }
                let (mut tree, nodes) = self.walk_hot(hot, inputs, coldness);
                let ghost m_hot = self.marks@;
                proof {
                    // The hot exit lies in the hot branch's exit set.
                    lemma_wf_gives_indexes(*df, *cft);
                    if (hot_ix as int) < cases@.len() {
                        lemma_case_subset_only(cases@, hot_ix as int);
                    }
                    lemma_hot_exit_in_set(*hot);
                    assert(cft_exit_set(*hot).contains(tree.exit));
                }

                let mut colds: Vec<HotPathTree<L>> = Vec::new();
                let mut keep_alives = OutSet::new();
                let mut p: usize = 0;
                while p < n_cases + 1
                    invariant
                        self.dataflow == df,
                        p <= n_cases + 1,
                        n_cases == cases@.len(),
                        n_cases < usize::MAX,
                        hot_ix == *hot_index,
                        hot_ix <= n_cases,
                        *cft == (CFT::Switch {
                            guard: *guard,
                            cases: *cases,
                            default_: *default_,
                            hot_index: hot_ix,
                        }),
                        walk_pre(*df, m_entry, *cft, coldness),
                        self.marks@ =~= m_hot,
                        marks_extend(m_entry, m_hot, coldness),
                        m_hot.len() == m_entry.len(),
                        marked_iff_listed(m_hot, coldness, nodes@),
                        listed_nodes_wf(*df, nodes@),
                        forall|k: int|
                            0 <= k < nodes@.len() ==> m_entry[(#[trigger] nodes@[k]).index
                                as int] == 0,
                        forall|k: int|
                            0 <= k < nodes@.len() - 1 ==> df.op(#[trigger] nodes@[k])
                                != Op::Convention,
                        nodes@.len() > 0,
                        nodes@.last() == tree.exit,
                        tree.nodes@ =~= nodes@,
                        tree.exit == cft_hot_exit(*cft),
                        cft_exit_set(hot_branch_spec(*cft)).contains(tree.exit),
                        keep_alive_closed(*df, tree),
                        reads_covered(*df, tree_all_nodes(tree), inputs@),
                        forall|n: Node|
                            #[trigger] tree_all_nodes(tree).contains(n) ==> df.is_node(n),
                        forall|x: Out|
                            #[trigger] inputs@.contains(x) ==> df.is_out(x) && 1
                                <= m_entry[x.node.index as int] < coldness,
                        // Accumulated cold subtrees.
                        colds@.len() == (if p <= hot_ix { p as int } else { p - 1 }),
                        colds_closed(*df, colds@),
                        colds_covered(*df, colds@, keep_alives@),
                        forall|n: Node|
                            #[trigger] colds_all_nodes(colds@).contains(n) ==> df.is_node(n),
                        forall|x: Out|
                            #[trigger] keep_alives@.contains(x) ==> df.is_out(x) && 1
                                <= m_hot[x.node.index as int] <= coldness,
                        forall|x: Out|
                            #[trigger] keep_alives@.contains(x) && m_hot[x.node.index as int]
                                < coldness ==> inputs@.contains(x),
                    decreases n_cases + 1 - p,
                {
                    if p != hot_ix {
                        let child: &CFT<L> = if p < n_cases {
                            &cases[p]
                        } else {
                            &**default_
                        };
                        proof {
                            lemma_child_pre(*df, m_entry, m_hot, *cft, coldness, p as int, nodes@, tree.exit);
                        }
                        let mut child_inputs = OutSet::new();
                        let ghost colds_before = colds@;
                        let ghost keep_before = keep_alives@;
                        let ghost inputs_before_child = inputs@;
                        let ct = self.walk(child, &mut child_inputs, coldness + 1);
                        // Record the child's inputs: they must be kept
                        // alive past the guard, and those defined on a
                        // strictly hotter path are inputs here too.
                        let n_ci = child_inputs.len();
                        let mut q: usize = 0;
                        while q < n_ci
                            invariant
                                self.dataflow == df,
                                q <= n_ci,
                                n_ci == child_inputs@.len(),
                                self.marks@ =~= m_hot,
                                m_hot.len() == m_entry.len(),
                                marks_extend(m_entry, m_hot, coldness),
                                (*df).wf(),
                                m_hot.len() == df.len(),
                                2 <= coldness < usize::MAX,
                                forall|x: Out|
                                    #[trigger] child_inputs@.contains(x) ==> df.is_out(x) && 1
                                        <= m_hot[x.node.index as int] <= coldness,
                                forall|x: Out|
                                    #[trigger] inputs@.contains(x) ==> df.is_out(x) && 1
                                        <= m_entry[x.node.index as int] < coldness,
                                forall|x: Out|
                                    #[trigger] keep_alives@.contains(x) ==> df.is_out(x) && 1
                                        <= m_hot[x.node.index as int] <= coldness,
                                forall|x: Out|
                                    #[trigger] keep_alives@.contains(x) && m_hot[x.node.index
                                        as int] < coldness ==> inputs@.contains(x),
                                forall|j: int|
                                    0 <= j < q ==> keep_alives@.contains(
                                        #[trigger] child_inputs@[j],
                                    ),
                                forall|x: Out|
                                    keep_before.contains(x) ==> #[trigger] keep_alives@.contains(
                                        x,
                                    ),
                                forall|x: Out|
                                    inputs_before_child.contains(x)
                                        ==> #[trigger] inputs@.contains(x),
                            decreases n_ci - q,
                        {
                            let o = child_inputs.get(q);
                            proof {
                                assert(child_inputs@.contains(child_inputs@[q as int]));
                            }
                            keep_alives.insert(o);
                            let m = self.marks[o.node.index];
                            if m < coldness {
                                inputs.insert(o);
                            }
                            q = q + 1;
                        }
                        colds.push(ct);
                        proof {
                            lemma_reads_covered_mono(
                                *df,
                                tree_all_nodes(tree),
                                tree_all_nodes(tree),
                                inputs_before_child,
                                inputs@,
                            );
                            lemma_colds_covered_mono(*df, colds_before, keep_before, keep_alives@);
                            assert(colds@.drop_last() =~= colds_before);
                            assert(colds@.last() == ct);
                            lemma_after_child(
                                *df,
                                colds@,
                                ct,
                                keep_alives@,
                                child_inputs@,
                                inputs@,
                                m_entry,
                                m_hot,
                                coldness,
                                nodes@,
                                tree,
                            );
                        }
                    }
                    p = p + 1;
                }
                let gf = GuardFailure {
                    cold: Cold { guard: *guard, hot_index: hot_ix, colds },
                    keep_alives,
                };
                let ghost children_before = tree.children@;
                let ghost tree_before = tree;
                tree.children.push(gf);
                proof {
                    assert(tree_all_nodes(tree_before) =~= Set::new(
                        |n: Node| nodes@.contains(n),
                    ).union(children_all_nodes(children_before)));
                    assert forall|n: Node| #[trigger]
                        children_all_nodes(children_before).contains(n) implies df.is_node(n) by {
                        assert(tree_all_nodes(tree_before).contains(n));
                    }
                    assert forall|k: int| 0 <= k < nodes@.len() implies df.is_node(
                        #[trigger] nodes@[k],
                    ) by {}
                    lemma_push_child(*df, tree, children_before, gf, inputs@, m_hot, coldness, nodes@);
                }
                (tree, nodes)
            },
        }
    }
}

/// The guarded branches passed along the hot path of `cft`, from the
/// root inwards: each guard with the position of its hot branch and its
/// number of cold successors.
pub open spec fn hot_switch_shapes<L>(cft: CFT<L>) -> Seq<(Node, usize, int)>
    decreases cft,
{
    match cft {
        CFT::Merge { .. } => Seq::empty(),
        CFT::Switch { guard, cases, default_, hot_index } => {
            let rest = if (hot_index as int) < cases@.len() {
                hot_switch_shapes(cases@[hot_index as int])
            } else {
                hot_switch_shapes(*default_)
            };
            seq![(guard, hot_index, cases@.len() as int)] + rest
        },
    }
}

/// The tree records one guard failure per guarded branch of the hot
/// path, deepest first: the guard, the hot position and the number of
/// cold subtrees all match the control-flow tree.
pub open spec fn children_mirror_switches<L>(children: Seq<GuardFailure<L>>, cft: CFT<L>) -> bool {
    &&& children.len() == hot_switch_shapes(cft).len()
    &&& forall|c: int|
        0 <= c < children.len() ==> {
            let sh = hot_switch_shapes(cft)[children.len() - 1 - c];
            &&& (#[trigger] children[c]).cold.guard == sh.0
            &&& children[c].cold.hot_index == sh.1
            &&& children[c].cold.colds@.len() == sh.2
        }
}

/// The hot branch of a `Switch`; a `Merge` is its own hot branch.
pub open spec fn hot_branch_spec<L>(cft: CFT<L>) -> CFT<L> {
    match cft {
        CFT::Merge { .. } => cft,
        CFT::Switch { cases, default_, hot_index, .. } => {
            if hot_index < cases@.len() {
                cases@[hot_index as int]
            } else {
                *default_
            }
        },
    }
}

/// The preconditions of the cold recursion: the child at branch `p`
/// (its cases first, then the default) satisfies [`walk_pre`] at
/// `coldness + 1` under the marks left by the hot flood.
proof fn lemma_child_pre<L>(
    df: Dataflow,
    m_entry: Seq<usize>,
    m_hot: Seq<usize>,
    cft: CFT<L>,
    coldness: usize,
    p: int,
    nodes: Seq<Node>,
    hot_exit: Node,
)
    requires
        cft matches CFT::Switch { .. },
        walk_pre(df, m_entry, cft, coldness),
        marks_extend(m_entry, m_hot, coldness),
        m_hot.len() == m_entry.len(),
        marked_iff_listed(m_hot, coldness, nodes),
        listed_nodes_wf(df, nodes),
        forall|k: int| 0 <= k < nodes.len() - 1 ==> df.op(#[trigger] nodes[k]) != Op::Convention,
        nodes.len() > 0,
        nodes.last() == hot_exit,
        cft_exit_set(hot_branch_spec(cft)).contains(hot_exit),
        0 <= p <= cft->Switch_cases@.len(),
        p != cft->Switch_hot_index as int,
    ensures
        walk_pre(
            df,
            m_hot,
            if p < cft->Switch_cases@.len() {
                cft->Switch_cases@[p]
            } else {
                *cft->Switch_default_
            },
            (coldness + 1) as usize,
        ),
        cft_height(
            if p < cft->Switch_cases@.len() {
                cft->Switch_cases@[p]
            } else {
                *cft->Switch_default_
            },
        ) < cft_height(cft),
{
    let cases = cft->Switch_cases@;
    let default_ = *cft->Switch_default_;
    let hot_index = cft->Switch_hot_index;
    let child = if p < cases.len() {
        cases[p]
    } else {
        default_
    };
    // Height.
    if p < cases.len() {
        lemma_cases_height(cases, p);
    }
    // Structure.
    if p < cases.len() {
        lemma_case_facts(df, cases, p);
    }
    assert(cft_wf(df, child));
    assert(exits_distinct(child));
    // Marks.
    assert(m_hot[0] == 1) by {
        if m_hot[0] != m_entry[0] {
            assert(m_entry[0] == 0);
        }
    }
    assert(only_hotter_marks(m_hot, (coldness + 1) as usize)) by {
        assert forall|i: int| 0 <= i < m_hot.len() implies m_hot[i] == 0 || (1 <= #[trigger] m_hot[i]
            < coldness + 1) by {
            if m_hot[i] != m_entry[i] {
                assert(m_hot[i] == coldness);
            } else {
                assert(m_entry[i] == 0 || 1 <= m_entry[i] < coldness);
            }
        }
    }
    // Heights for the bound.
    assert(coldness + 1 + cft_height(child) < usize::MAX);
    // Exits of the child are unmarked under `m_hot`.
    assert forall|e: Node| cft_exit_set(child).contains(e) implies m_hot[e.index as int] == 0 by {
        // The exit is an exit of the whole tree, unmarked on entry.
        if p < cases.len() {
            lemma_case_facts(df, cases, p);
            assert(cases_exit_set(cases).contains(e));
            assert(cft_exit_set(cft).contains(e));
        } else {
            assert(cft_exit_set(cft).contains(e));
        }
        assert(m_entry[e.index as int] == 0);
        // The flood marked only hot-path nodes; all of them except the
        // hot exit are not conventions, and `e` is a convention distinct
        // from the hot exit.
        lemma_exits_are_conventions(df, cft);
        assert(df.op(e) == Op::Convention);
        if m_hot[e.index as int] != 0 {
            assert(m_hot[e.index as int] == coldness);
            assert(nodes.contains(e));
            let k = choose|k: int| 0 <= k < nodes.len() && nodes[k] == e;
            if k < nodes.len() - 1 {
                assert(df.op(nodes[k]) != Op::Convention);
            } else {
                assert(e == hot_exit);
                // But the hot branch's exits and the child's exits are
                // disjoint.
                if (hot_index as int) < cases.len() {
                    if p < cases.len() {
                        if p < hot_index as int {
                            lemma_cases_disjoint(df, cases, p, hot_index as int);
                            assert(cft_exit_set(cases[hot_index as int]).disjoint(
                                cft_exit_set(cases[p]),
                            )) by {
                                assert(cft_exit_set(cases[p]).disjoint(
                                    cft_exit_set(cases[hot_index as int]),
                                ));
                                assert forall|x: Node|
                                    cft_exit_set(cases[hot_index as int]).contains(x) implies !cft_exit_set(cases[p]).contains(x) by {
                                    if cft_exit_set(cases[p]).contains(x) {
                                        assert(!cft_exit_set(cases[hot_index as int]).contains(x));
                                    }
                                }
                            }
                        } else {
                            lemma_cases_disjoint(df, cases, hot_index as int, p);
                        }
                        assert(false);
                    } else {
                        // child is the default; hot is a case.
                        lemma_case_facts(df, cases, hot_index as int);
                        assert(cases_exit_set(cases).contains(e));
                        assert(cases_exit_set(cases).disjoint(cft_exit_set(default_)));
                        assert(false);
                    }
                } else {
                    // hot is the default; child is a case.
                    assert(p < cases.len());
                    lemma_case_facts(df, cases, p);
                    assert(cases_exit_set(cases).contains(e));
                    assert(cft_exit_set(default_).contains(e));
                    assert(cases_exit_set(cases).disjoint(cft_exit_set(default_)));
                    assert(false);
                }
            }
        }
    }
}

/// After one cold child: the accumulated sequences keep their closure
/// properties.
#[verifier::rlimit(50)]
proof fn lemma_after_child<L>(
    df: Dataflow,
    colds: Seq<HotPathTree<L>>,
    ct: HotPathTree<L>,
    keep: Seq<Out>,
    child_inputs: Seq<Out>,
    inputs: Seq<Out>,
    m_entry: Seq<usize>,
    m_hot: Seq<usize>,
    coldness: usize,
    nodes: Seq<Node>,
    tree: HotPathTree<L>,
)
    requires
        colds.len() > 0,
        colds.last() == ct,
        colds_closed(df, colds.drop_last()),
        colds_covered(df, colds.drop_last(), keep),
        keep_alive_closed(df, ct),
        reads_covered(df, tree_all_nodes(ct), child_inputs),
        forall|j: int| 0 <= j < child_inputs.len() ==> keep.contains(#[trigger] child_inputs[j]),
        forall|n: Node| #[trigger] colds_all_nodes(colds.drop_last()).contains(n) ==> df.is_node(n),
        forall|n: Node| #[trigger] tree_all_nodes(ct).contains(n) ==> df.is_node(n),
    ensures
        colds_closed(df, colds),
        colds_covered(df, colds, keep),
        forall|n: Node| #[trigger] colds_all_nodes(colds).contains(n) ==> df.is_node(n),
{
    assert(colds.drop_last() =~= colds.drop_last());
    assert(colds_closed(df, colds));
    assert(reads_covered(df, tree_all_nodes(ct), keep)) by {
        assert forall|n: Node, j: int|
            tree_all_nodes(ct).contains(n) && 0 <= j < df.ins(n).len() implies (tree_all_nodes(
            ct,
        ).contains((#[trigger] df.ins(n)[j]).node) || keep.contains(df.ins(n)[j])) by {
            if !tree_all_nodes(ct).contains(df.ins(n)[j].node) {
                assert(child_inputs.contains(df.ins(n)[j]));
                let q = choose|q: int|
                    0 <= q < child_inputs.len() && child_inputs[q] == df.ins(n)[j];
                assert(keep.contains(child_inputs[q]));
            }
        }
    }
    assert(colds_covered(df, colds, keep));
    assert forall|n: Node| #[trigger] colds_all_nodes(colds).contains(n) implies df.is_node(n) by {
        if colds_all_nodes(colds.drop_last()).contains(n) {
        } else {
            assert(tree_all_nodes(colds.last()).contains(n));
        }
    }
}

/// Appending the guard failure to the tree preserves the closure and the
/// coverage of the whole tree.
#[verifier::rlimit(50)]
proof fn lemma_push_child<L>(
    df: Dataflow,
    tree: HotPathTree<L>,
    children_before: Seq<GuardFailure<L>>,
    gf: GuardFailure<L>,
    inputs: Seq<Out>,
    m_hot: Seq<usize>,
    coldness: usize,
    nodes: Seq<Node>,
)
    requires
        tree.children@ =~= children_before.push(gf),
        tree.nodes@ =~= nodes,
        children_closed(df, children_before),
        colds_closed(df, gf.cold.colds@),
        colds_covered(df, gf.cold.colds@, gf.keep_alives@),
        // Coverage of the tree before the push.
        reads_covered(
            df,
            Set::new(|n: Node| nodes.contains(n)).union(children_all_nodes(children_before)),
            inputs,
        ),
        forall|n: Node| #[trigger] children_all_nodes(children_before).contains(n) ==> df.is_node(n),
        forall|k: int| 0 <= k < nodes.len() ==> df.is_node(#[trigger] nodes[k]),
        forall|n: Node| #[trigger] colds_all_nodes(gf.cold.colds@).contains(n) ==> df.is_node(n),
        // Keep-alives: sound and propagated.
        m_hot.len() == df.len(),
        marked_iff_listed(m_hot, coldness, nodes),
        forall|x: Out|
            #[trigger] gf.keep_alives@.contains(x) ==> df.is_out(x) && 1 <= m_hot[x.node.index
                as int] <= coldness,
        forall|x: Out|
            #[trigger] gf.keep_alives@.contains(x) && m_hot[x.node.index as int] < coldness
                ==> inputs.contains(x),
    ensures
        keep_alive_closed(df, tree),
        reads_covered(df, tree_all_nodes(tree), inputs),
        forall|n: Node| #[trigger] tree_all_nodes(tree).contains(n) ==> df.is_node(n),
{
    let old_scope = Set::new(|n: Node| nodes.contains(n)).union(
        children_all_nodes(children_before),
    );
    let new_scope = tree_all_nodes(tree);
    // Unfold the push.
    assert(tree.children@.drop_last() =~= children_before);
    assert(tree.children@.last() == gf);
    assert(children_closed(df, tree.children@));
    assert(keep_alive_closed(df, tree));
    assert(children_all_nodes(tree.children@) =~= children_all_nodes(children_before).union(
        colds_all_nodes(gf.cold.colds@),
    ));
    assert(new_scope =~= old_scope.union(colds_all_nodes(gf.cold.colds@)));
    assert forall|n: Node| #[trigger] new_scope.contains(n) implies df.is_node(n) by {
        if old_scope.contains(n) {
            if nodes.contains(n) {
                let k = choose|k: int| 0 <= k < nodes.len() && nodes[k] == n;
                assert(df.is_node(nodes[k]));
            } else {
                assert(children_all_nodes(children_before).contains(n));
            }
        } else {
            assert(colds_all_nodes(gf.cold.colds@).contains(n));
        }
    }
    assert forall|n: Node, j: int|
        new_scope.contains(n) && 0 <= j < df.ins(n).len() implies (new_scope.contains(
        (#[trigger] df.ins(n)[j]).node,
    ) || inputs.contains(df.ins(n)[j])) by {
        let x = df.ins(n)[j];
        if old_scope.contains(n) {
            assert(old_scope.contains(x.node) || inputs.contains(x));
        } else {
            assert(colds_all_nodes(gf.cold.colds@).contains(n));
            let i = lemma_colds_node_member(gf.cold.colds@, n);
            lemma_colds_member(df, gf.cold.colds@, gf.keep_alives@, i);
            assert(reads_covered(df, tree_all_nodes(gf.cold.colds@[i]), gf.keep_alives@));
            if tree_all_nodes(gf.cold.colds@[i]).contains(x.node) {
                assert(colds_all_nodes(gf.cold.colds@).contains(x.node));
            } else {
                assert(gf.keep_alives@.contains(x));
                if m_hot[x.node.index as int] < coldness {
                    assert(inputs.contains(x));
                } else {
                    assert(m_hot[x.node.index as int] == coldness);
                    assert(nodes.contains(x.node));
                    assert(new_scope.contains(x.node));
                }
            }
        }
    }
}

/// Computes, for each guard of `cft`, the set of values that are computed
/// on a hotter path but must outlive the guard because a colder path also
/// reads them.
pub fn keep_alive_sets<L: Clone>(dataflow: &Dataflow, cft: &CFT<L>) -> (tree: HotPathTree<L>)
    requires
        dataflow.wf(),
        conventions_are_sinks(*dataflow),
        cft_wf(*dataflow, *cft),
        exits_distinct(*cft),
        2 + cft_height(*cft) < usize::MAX,
    ensures
        keep_alive_closed(*dataflow, tree),
        tree.exit == cft_hot_exit(*cft),
        children_mirror_switches(tree.children@, *cft),
        // Every value read inside the tree is defined inside it or by the
        // entry node.
        forall|n: Node, j: int|
            tree_all_nodes(tree).contains(n) && 0 <= j < dataflow.ins(n).len()
                ==> (tree_all_nodes(tree).contains((#[trigger] dataflow.ins(n)[j]).node) || (
            #[trigger] dataflow.ins(n)[j]).node == (Node { index: 0 })),
{
    let mut ka = KeepAlive::new(dataflow);
    let mut inputs = OutSet::new();
    proof {
        dataflow.lemma_wf();
        lemma_exits_are_conventions(*dataflow, *cft);
        assert forall|e: Node| cft_exit_set(*cft).contains(e) implies ka.marks@[e.index as int]
            == 0 by {
            assert(dataflow.op(e) == Op::Convention);
            assert(e.index != 0);
        }
        assert(only_hotter_marks(ka.marks@, 2)) by {
            assert forall|i: int| 0 <= i < ka.marks@.len() implies ka.marks@[i] == 0 || (1
                <= #[trigger] ka.marks@[i] < 2) by {
                if i != 0 {
                    assert(ka.marks@[i] == 0);
                }
            }
        }
    }
    let ghost m0 = ka.marks@;
    let tree = ka.walk(cft, &mut inputs, 2);
    proof {
        assert forall|n: Node, j: int|
            tree_all_nodes(tree).contains(n) && 0 <= j < dataflow.ins(n).len() implies (
        tree_all_nodes(tree).contains((#[trigger] dataflow.ins(n)[j]).node) || (
        #[trigger] dataflow.ins(n)[j]).node == (Node { index: 0 })) by {
            let x = dataflow.ins(n)[j];
            if !tree_all_nodes(tree).contains(x.node) {
                assert(inputs@.contains(x));
                assert(1 <= m0[x.node.index as int] < 2);
                if x.node.index != 0 {
                    assert(m0[x.node.index as int] == 0);
                }
                assert(x.node == (Node { index: 0 }));
            }
        }
    }
    tree
}

} // verus!
