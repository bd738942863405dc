//! The builder: converts a [`HotPathTree`] into an extended basic block,
//! optimising the hot path in isolation and recursing on the cold paths.

use vstd::prelude::*;

use crate::allocator::{
    allocate, allocation_valid, sched_of, spills_wf, AllocTrace, AllocationFailure, GuardKeeps,
    Instruction,
};
use crate::cft::CFT;
use crate::code::{Action, Convention, Ending, Register, Slot, Switch, Variable, EBB, NUM_REGISTERS};
use crate::codegen::{node_action, CodeGen};
use crate::dataflow::{op_cost, Dataflow, Node, Op, Out, Resources};
use crate::flood::{
    clear_marks, conventions_are_sinks, flood, listed_nodes_wf, marked_iff_listed, marks_extend,
    only_hotter_marks, topo_ordered, unmark_ok,
};
use crate::keep_alive::{keep_alive_sets, GuardFailure, HotPathTree};
use crate::util::{NodeSet, OutMap, OutSet};

verus! {

/// All the allocatable registers, in order.
pub fn all_registers() -> (r: Vec<Register>)
    ensures
        r@.len() == NUM_REGISTERS,
        forall|i: int| 0 <= i < r@.len() ==> (#[trigger] r@[i]).index() == i,
{
    let mut regs: Vec<Register> = Vec::new();
    let mut i: usize = 0;
    while i < NUM_REGISTERS
        invariant
            i <= NUM_REGISTERS,
            regs@.len() == i,
            forall|j: int| 0 <= j < regs@.len() ==> (#[trigger] regs@[j]).index() == j,
        decreases NUM_REGISTERS - i,
    {
        regs.push(Register::new(i as u8).unwrap());
        i = i + 1;
    }
    regs
}

/// The height of a hot-path tree: one more than its tallest cold
/// descendant.
pub open spec fn tree_height<L>(t: HotPathTree<L>) -> nat
    decreases t,
{
    1 + children_height(t.children@)
}

/// The greatest height among the cold subtrees of a sequence of guard
/// failures.
pub open spec fn children_height<L>(s: Seq<GuardFailure<L>>) -> nat
    decreases s,
{
    if s.len() == 0 {
        0
    } else {
        let rest = children_height(s.drop_last());
        let last = colds_height(s.last().cold.colds@);
        if last > rest {
            last
        } else {
            rest
        }
    }
}

/// The greatest height among a sequence of trees.
pub open spec fn colds_height<L>(s: Seq<HotPathTree<L>>) -> nat
    decreases s,
{
    if s.len() == 0 {
        0
    } else {
        let rest = colds_height(s.drop_last());
        let last = tree_height(s.last());
        if last > rest {
            last
        } else {
            rest
        }
    }
}

/// A cold subtree is strictly lower than the tree that carries it.
proof fn lemma_member_height<L>(t: HotPathTree<L>, c: int, i: int)
    requires
        0 <= c < t.children@.len(),
        0 <= i < t.children@[c].cold.colds@.len(),
    ensures
        tree_height(t.children@[c].cold.colds@[i]) < tree_height(t),
{
    lemma_children_height(t.children@, c);
    lemma_colds_height(t.children@[c].cold.colds@, i);
}

/// Helper of [`lemma_member_height`]: a guard failure's colds are no
/// taller than the sequence height.
proof fn lemma_children_height<L>(s: Seq<GuardFailure<L>>, c: int)
    requires
        0 <= c < s.len(),
    ensures
        colds_height(s[c].cold.colds@) <= children_height(s),
    decreases s.len(),
{
    if c == s.len() - 1 {
        assert(s.last() == s[c]);
    } else {
        lemma_children_height(s.drop_last(), c);
        assert(s.drop_last()[c] == s[c]);
    }
}

/// Helper of [`lemma_member_height`]: a tree is no taller than the
/// sequence height.
proof fn lemma_colds_height<L>(s: Seq<HotPathTree<L>>, i: int)
    requires
        0 <= i < s.len(),
    ensures
        tree_height(s[i]) <= colds_height(s),
    decreases s.len(),
{
    if i == s.len() - 1 {
        assert(s.last() == s[i]);
    } else {
        lemma_colds_height(s.drop_last(), i);
        assert(s.drop_last()[i] == s[i]);
    }
}



/// What the allocator and the flood produced for one hot path: the
/// record that ties a built block to its schedule.
pub ghost struct WalkTrace {
    /// The flooded hot-path nodes, in dependency order, ending at the
    /// exit.
    pub nodes: Seq<Node>,
    /// The schedule: the nodes in order, interleaved with spills.
    pub instrs: Seq<Instruction>,
    /// The destination register of every value the schedule defines.
    pub alloc: Map<Out, Register>,
    /// Definition and spill indices, for the validity statement.
    pub atr: AllocTrace,
    /// The keep-alive sets handed to the allocator, one per guard
    /// failure of the tree.
    pub keeps: Seq<GuardKeeps>,
    /// The locations of the values the hot path reads from hotter
    /// paths, as handed to the allocator.
    pub vars_in: Map<Out, Variable>,
    /// The marks after the flood.
    pub m_hot: Seq<usize>,
}

/// A value's location before it is spilled: its destination register if
/// the schedule defines it, else the location the caller gave.
pub open spec fn pre_spill_loc(
    alloc: Map<Out, Register>,
    vars0: Map<Out, Variable>,
    o: Out,
) -> Variable {
    if alloc.dom().contains(o) {
        Variable::Register(alloc[o])
    } else {
        vars0[o]
    }
}

/// The number of spill slots in use after the first `j` instructions:
/// each spill takes the next two.
pub open spec fn fwd_slots(s: Seq<Instruction>, j: int, slots0: int) -> int
    decreases j,
{
    if j <= 0 {
        slots0
    } else {
        fwd_slots(s, j - 1, slots0) + (match s[j - 1] {
            Instruction::Spill(_, _) => 2int,
            Instruction::Node(_) => 0int,
        })
    }
}

/// The location of `o` after the first `j` instructions: its
/// pre-spill location, then the slot its spill assigns, then its
/// register again from its definition on.
pub open spec fn loc_after(
    df: Dataflow,
    alloc: Map<Out, Register>,
    vars0: Map<Out, Variable>,
    s: Seq<Instruction>,
    slots0: int,
    j: int,
    o: Out,
) -> Variable
    decreases j,
{
    if j <= 0 {
        pre_spill_loc(alloc, vars0, o)
    } else {
        let prev = loc_after(df, alloc, vars0, s, slots0, j - 1, o);
        match s[j - 1] {
            Instruction::Spill(o1, o2) => {
                let sl = fwd_slots(s, j - 1, slots0);
                if o == o1 {
                    Variable::Slot(Slot(sl as usize))
                } else if o == o2 {
                    Variable::Slot(Slot((sl + 1) as usize))
                } else {
                    prev
                }
            },
            Instruction::Node(n) => {
                if o.node == n && 0 <= o.index < df.num_outs(n) {
                    Variable::Register(alloc[o])
                } else {
                    prev
                }
            },
        }
    }
}

/// `a` is the action that executes `n`: the operation, its immediate
/// and its destination registers all match; the operand locations are
/// the running location map's business.
pub open spec fn action_shape_for(
    df: Dataflow,
    alloc: Map<Out, Register>,
    a: Action<(), ()>,
    n: Node,
) -> bool {
    match df.op(n) {
        Op::Constant(p, c) => a == Action::<(), ()>::Constant(p, alloc[Out { node: n, index: 0 }], c),
        Op::Unary(u, p) => (a matches Action::Unary(u2, p2, d, _) && u2 == u && p2 == p && d
            == alloc[Out { node: n, index: 0 }]),
        Op::Binary(b, p) => (a matches Action::Binary(b2, p2, d, _, _) && b2 == b && p2 == p && d
            == alloc[Out { node: n, index: 0 }]),
        Op::Division(v, p) => (a matches Action::Division(v2, p2, d1, d2, _, _) && v2 == v && p2
            == p && d1 == alloc[Out { node: n, index: 0 }] && d2 == alloc[Out {
            node: n,
            index: 1,
        }]),
        Op::Load(w) => (a matches Action::Load(d, _, w2, _) && w2 == w && d == alloc[Out {
            node: n,
            index: 0,
        }]),
        Op::Store(w) => (a matches Action::Store(_, _, w2, _) && w2 == w),
        _ => false,
    }
}

/// Some guard failure of `children` names `n`.
pub open spec fn has_child<L>(children: Seq<GuardFailure<L>>, n: Node) -> bool {
    exists|c: int| 0 <= c < children.len() && (#[trigger] children[c]).cold.guard == n
}

/// The guard failure of `children` that names `n`.
pub open spec fn child_for<L>(children: Seq<GuardFailure<L>>, n: Node) -> GuardFailure<L> {
    children[choose|c: int| 0 <= c < children.len() && (#[trigger] children[c]).cold.guard == n]
}

/// The branch of a switch that the builder fills with the hot
/// continuation: the case at `hot_index`, or the default.
pub open spec fn hot_of<L>(cases: Seq<EBB<L>>, default_: EBB<L>, hot_index: usize) -> EBB<L> {
    if (hot_index as int) < cases.len() {
        cases[hot_index as int]
    } else {
        default_
    }
}

/// The straight-line actions and ending of a block, from action
/// position `k` on, are what the builder emits for the schedule suffix
/// `s[j..]`: each spill becomes two moves to its two fresh slots from
/// the values' pre-spill locations; each computing node becomes one
/// action carrying its operation and destination registers; each guard
/// becomes the block's switch, with the location of the guard's input
/// as discriminant, one case per cold subtree, and the hot continuation
/// — matching the rest of the schedule — re-inserted at `hot_index`;
/// the block then ends at the leaf.
pub open spec fn ebb_matches<L>(
    df: Dataflow,
    alloc: Map<Out, Register>,
    vars0: Map<Out, Variable>,
    children: Seq<GuardFailure<L>>,
    s: Seq<Instruction>,
    slots0: int,
    j: int,
    k: int,
    actions: Seq<Action<(), ()>>,
    ending: Ending<L>,
) -> bool
    decreases s.len() - j,
{
    if j < 0 || j > s.len() {
        false
    } else if j == s.len() {
        k == actions.len() && (ending is Leaf)
    } else {
        match s[j] {
            Instruction::Spill(o1, o2) => {
                let sl = fwd_slots(s, j, slots0);
                &&& 0 <= k
                &&& k + 2 <= actions.len()
                &&& actions[k] == Action::<(), ()>::Move(
                    Variable::Slot(Slot(sl as usize)),
                    pre_spill_loc(alloc, vars0, o1),
                )
                &&& actions[k + 1] == Action::<(), ()>::Move(
                    Variable::Slot(Slot((sl + 1) as usize)),
                    pre_spill_loc(alloc, vars0, o2),
                )
                &&& ebb_matches(df, alloc, vars0, children, s, slots0, j + 1, k + 2, actions, ending)
            },
            Instruction::Node(n) => {
                if df.op(n) == Op::Guard {
                    &&& has_child(children, n)
                    &&& k == actions.len()
                    &&& match ending {
                        Ending::Switch(Switch::Index { discriminant, cases, default_ }) => {
                            let gf = child_for(children, n);
                            let hot = hot_of(cases@, *default_, gf.cold.hot_index);
                            &&& discriminant == loc_after(
                                df,
                                alloc,
                                vars0,
                                s,
                                slots0,
                                j,
                                df.ins(n)[0],
                            )
                            &&& cases@.len() == gf.cold.colds@.len()
                            &&& ebb_matches(
                                df,
                                alloc,
                                vars0,
                                children,
                                s,
                                slots0,
                                j + 1,
                                0,
                                hot.actions@,
                                hot.ending,
                            )
                        },
                        Ending::Leaf(_) => false,
                    }
                } else if op_cost(df.op(n)).resources == Resources(0) {
                    ebb_matches(df, alloc, vars0, children, s, slots0, j + 1, k, actions, ending)
                } else {
                    &&& 0 <= k
                    &&& k < actions.len()
                    &&& action_shape_for(df, alloc, actions[k], n)
                    &&& ebb_matches(df, alloc, vars0, children, s, slots0, j + 1, k + 1, actions, ending)
                }
            },
        }
    }
}

/// The trace describes a real schedule for this graph and entry marks:
/// the listed nodes are distinct, off the hotter chain and in
/// dependency order; the instructions schedule exactly them; every
/// value they define has a destination register; and the spills are
/// well formed.
pub open spec fn trace_valid(
    df: Dataflow,
    m_entry: Seq<usize>,
    variables: Map<Out, Variable>,
    tr: WalkTrace,
) -> bool {
    &&& listed_nodes_wf(df, tr.nodes)
    &&& topo_ordered(df, tr.nodes)
    &&& forall|kk: int|
        0 <= kk < tr.nodes.len() ==> m_entry[(#[trigger] tr.nodes[kk]).index as int] == 0
    &&& sched_of(tr.instrs) =~= tr.nodes
    &&& forall|o: Out|
        #[trigger] tr.alloc.dom().contains(o) <==> ((exists|kk: int|
            0 <= kk < tr.nodes.len() && (#[trigger] tr.nodes[kk]) == o.node) && 0 <= o.index
            < df.num_outs(o.node))
    &&& spills_wf(tr.instrs, tr.alloc, variables)
}

/// The per-level well-formedness of a tree's guard failures: each guard
/// is a node with exactly one input, each hot index is in range, and no
/// two failures name the same guard.
pub open spec fn children_ok<L>(df: Dataflow, children: Seq<GuardFailure<L>>) -> bool {
    &&& forall|c: int|
        0 <= c < children.len() ==> {
            let gf = #[trigger] children[c];
            &&& df.is_node(gf.cold.guard)
            &&& df.ins(gf.cold.guard).len() == 1
            &&& gf.cold.hot_index <= gf.cold.colds@.len()
        }
    &&& forall|c1: int, c2: int|
        0 <= c1 < c2 < children.len() ==> (#[trigger] children[c1]).cold.guard != (
        #[trigger] children[c2]).cold.guard
}

/// The tree has a cold subtree: some guard failure can actually be
/// entered.
pub open spec fn has_cold<L>(tree: HotPathTree<L>) -> bool {
    exists|c: int|
        0 <= c < tree.children@.len() && (#[trigger] tree.children@[c]).cold.colds@.len() > 0
}

/// The ways a build can fail, named.  `m` is the marks on entry,
/// `variables` the locations handed down, and `tr` the trace, where the
/// failure was found after scheduling.
pub open spec fn walk_obstruction<L>(
    df: Dataflow,
    m: Seq<usize>,
    variables: Map<Out, Variable>,
    coldness: usize,
    slots_used: usize,
    tree: HotPathTree<L>,
    tr: WalkTrace,
) -> bool {
    // The tree's exit is missing from the graph or already on the hot
    // chain.
    ||| !df.is_node(tree.exit)
    ||| m[tree.exit.index as int] != 0
    // The coldness counter would overflow below this tree.
    ||| coldness + tree_height(tree) >= usize::MAX
    // Some node off the hot chain defines more values than the register
    // file can hold while leaving room to spill.
    ||| exists|n: Node|
        df.is_node(n) && m[n.index as int] == 0 && #[trigger] df.num_outs(n) >= NUM_REGISTERS
    // Some node off the hot chain has fewer operands than its operation
    // needs.
    ||| exists|n: Node|
        df.is_node(n) && m[n.index as int] == 0 && !(#[trigger] node_shape_ok(df, n))
    // A guard failure of this tree is malformed, or two name one guard.
    ||| !children_ok(df, tree.children@)
    // Two values from hotter paths share a register in the locations
    // handed down.
    ||| exists|o1: Out, o2: Out|
        #![trigger variables.dom().contains(o1), variables.dom().contains(o2)]
        o1 != o2 && df.is_out(o1) && df.is_out(o2) && 1 <= m[o1.node.index as int] < coldness && 1
            <= m[o2.node.index as int] < coldness && variables.dom().contains(o1)
            && variables.dom().contains(o2) && regs_alias(variables[o1], variables[o2])
    // A guard was flooded onto this hot path but no failure of this
    // tree names it.
    ||| (trace_valid(df, m, variables, tr) && exists|n: Node|
        #[trigger] tr.nodes.contains(n) && df.op(n) == Op::Guard && !has_child(
            tree.children@,
            n,
        ))
    // The spill slots ran past the address space.
    ||| (trace_valid(df, m, variables, tr) && exists|j: int|
        0 <= j <= tr.instrs.len() && #[trigger] fwd_slots(tr.instrs, j, slots_used as int)
            > usize::MAX)
    // A cold path failed to build; the recursive call's own contract
    // names its cause at its level.
    ||| has_cold(tree)
}

/// Everything a successful build guarantees of its trace: the flood,
/// the schedule, the keep-alive sets and the allocation all fit
/// together, and the allocation is valid.
pub open spec fn walk_trace_ok<L>(
    df: Dataflow,
    m_entry: Seq<usize>,
    variables: Map<Out, Variable>,
    coldness: usize,
    tree: HotPathTree<L>,
    tr: WalkTrace,
) -> bool {
    &&& trace_valid(df, m_entry, variables, tr)
    &&& tr.nodes.len() > 0
    &&& tr.nodes.last() == tree.exit
    &&& marks_extend(m_entry, tr.m_hot, coldness)
    &&& marked_iff_listed(tr.m_hot, coldness, tr.nodes)
    &&& topo_ordered(df, sched_of(tr.instrs))
    &&& tr.keeps.len() == tree.children@.len()
    &&& forall|c: int|
        0 <= c < tr.keeps.len() ==> (#[trigger] tr.keeps[c]).guard
            == tree.children@[c].cold.guard && tr.keeps[c].keep_alives@
            == tree.children@[c].keep_alives@
    &&& allocation_valid(df, tr.keeps, tr.nodes, tr.vars_in, tr.alloc, tr.atr)
    &&& forall|o: Out|
        #[trigger] tr.vars_in.dom().contains(o) ==> variables.dom().contains(o) && tr.vars_in[o]
            == variables[o]
}


/// Every node instruction of a schedule executes a listed node.
proof fn lemma_instr_nodes_listed(instrs: Seq<Instruction>, nodes: Seq<Node>)
    requires
        sched_of(instrs) =~= nodes,
    ensures
        forall|j: int|
            0 <= j < instrs.len() ==> (#[trigger] instrs[j] matches Instruction::Node(n)
                ==> nodes.contains(n)),
{
    assert forall|j: int|
        0 <= j < instrs.len() implies (#[trigger] instrs[j] matches Instruction::Node(n)
        ==> nodes.contains(n)) by {
        if instrs[j] is Node {
            let n = instrs[j]->Node_0;
            crate::allocator::lemma_sched_append(instrs.subrange(0, j), instrs[j]);
            assert(instrs.subrange(0, j + 1) =~= instrs.subrange(0, j).push(instrs[j]));
            let ss = sched_of(instrs.subrange(0, j)).push(n);
            assert(ss[ss.len() - 1] == n);
            assert(ss.contains(n));
            crate::allocator::lemma_sched_prefix(instrs, j + 1);
        }
    }
}

/// Crossing a spill backwards: prepending its two moves to a block that
/// matches the rest of the schedule yields a block that matches from
/// the spill on.
proof fn lemma_spill_step<L>(
    df: Dataflow,
    alloc: Map<Out, Register>,
    vars0: Map<Out, Variable>,
    children: Seq<GuardFailure<L>>,
    s: Seq<Instruction>,
    slots0: int,
    rj: int,
    rev0: Seq<Action<(), ()>>,
    ending: Ending<L>,
    o1: Out,
    o2: Out,
)
    requires
        0 <= rj < s.len(),
        s[rj] == Instruction::Spill(o1, o2),
        ebb_matches(df, alloc, vars0, children, s, slots0, rj + 1, 0, rev0.reverse(), ending),
    ensures
        ({
            let sl = fwd_slots(s, rj, slots0);
            let m2 = Action::<(), ()>::Move(
                Variable::Slot(Slot((sl + 1) as usize)),
                pre_spill_loc(alloc, vars0, o2),
            );
            let m1 = Action::<(), ()>::Move(
                Variable::Slot(Slot(sl as usize)),
                pre_spill_loc(alloc, vars0, o1),
            );
            ebb_matches(
                df,
                alloc,
                vars0,
                children,
                s,
                slots0,
                rj,
                0,
                rev0.push(m2).push(m1).reverse(),
                ending,
            )
        }),
{
    let sl = fwd_slots(s, rj, slots0);
    let m2 = Action::<(), ()>::Move(
        Variable::Slot(Slot((sl + 1) as usize)),
        pre_spill_loc(alloc, vars0, o2),
    );
    let m1 = Action::<(), ()>::Move(
        Variable::Slot(Slot(sl as usize)),
        pre_spill_loc(alloc, vars0, o1),
    );
    let aa = rev0.reverse();
    let b = rev0.push(m2).push(m1).reverse();
    assert(b.len() == aa.len() + 2);
    assert(b[0] == m1);
    assert(b[1] == m2);
    assert forall|i: int| 0 <= i < aa.len() implies aa[i] == #[trigger] b[i + 2] by {
        assert(aa[i] == rev0[rev0.len() - 1 - i]);
        assert(b[i + 2] == rev0.push(m2).push(m1)[rev0.push(m2).push(m1).len() - 1 - (i + 2)]);
    }
    lemma_matches_shift(df, alloc, vars0, children, s, slots0, rj + 1, 0, aa, b, ending, 2);
}

/// Crossing a computing node backwards: prepending its action to a
/// block that matches the rest of the schedule yields a block that
/// matches from the node on.
proof fn lemma_node_step<L>(
    df: Dataflow,
    alloc: Map<Out, Register>,
    vars0: Map<Out, Variable>,
    children: Seq<GuardFailure<L>>,
    s: Seq<Instruction>,
    slots0: int,
    rj: int,
    rev0: Seq<Action<(), ()>>,
    ending: Ending<L>,
    n: Node,
    act: Action<(), ()>,
)
    requires
        0 <= rj < s.len(),
        s[rj] == Instruction::Node(n),
        df.op(n) != Op::Guard,
        op_cost(df.op(n)).resources != Resources(0),
        action_shape_for(df, alloc, act, n),
        ebb_matches(df, alloc, vars0, children, s, slots0, rj + 1, 0, rev0.reverse(), ending),
    ensures
        ebb_matches(df, alloc, vars0, children, s, slots0, rj, 0, rev0.push(act).reverse(), ending),
{
    let aa = rev0.reverse();
    let b = rev0.push(act).reverse();
    assert(b.len() == aa.len() + 1);
    assert(b[0] == act);
    assert forall|i: int| 0 <= i < aa.len() implies aa[i] == #[trigger] b[i + 1] by {
        assert(aa[i] == rev0[rev0.len() - 1 - i]);
        assert(b[i + 1] == rev0.push(act)[rev0.push(act).len() - 1 - (i + 1)]);
    }
    lemma_matches_shift(df, alloc, vars0, children, s, slots0, rj + 1, 0, aa, b, ending, 1);
}

/// The fixed context of the backward pass: the graph, the entry marks,
/// the marks after the flood, the caller's locations and the trace all
/// fit together.
pub open spec fn rev_ctx<L>(
    df: Dataflow,
    m_entry: Seq<usize>,
    m_hot: Seq<usize>,
    variables: Map<Out, Variable>,
    coldness: usize,
    slots_used: usize,
    tree: HotPathTree<L>,
    tr: WalkTrace,
) -> bool {
    &&& df.wf()
    &&& conventions_are_sinks(df)
    &&& unmark_ok(m_entry, m_hot, tr.nodes, coldness)
    &&& walk_trace_ok(df, m_entry, variables, coldness, tree, tr)
    &&& children_ok(df, tree.children@)
    &&& m_entry.len() == df.len()
    &&& 0 < m_entry.len()
    &&& m_entry[0] == 1
    &&& 2 <= coldness < usize::MAX - 1
    &&& only_hotter_marks(m_entry, coldness)
    &&& crate::flood::prereqs_marked(df, m_hot, tr.nodes)
    &&& tr.m_hot == m_hot
    &&& spills_wf(tr.instrs, tr.alloc, variables)
    &&& forall|o: Out|
        df.is_out(o) && 1 <= m_entry[o.node.index as int] < coldness ==> variables.dom().contains(
            o,
        )
}

/// The arity a node's operation needs of its inputs and outputs.
pub open spec fn node_shape_ok(df: Dataflow, n: Node) -> bool {
    match df.op(n) {
        Op::Input => true,
        Op::Convention => true,
        Op::Guard => df.ins(n).len() >= 1,
        Op::Constant(_, _) => df.num_outs(n) >= 1,
        Op::Unary(_, _) => df.num_outs(n) >= 1 && df.ins(n).len() >= 1,
        Op::Binary(_, _) => df.num_outs(n) >= 1 && df.ins(n).len() >= 2,
        Op::Division(_, _) => df.num_outs(n) >= 2 && df.ins(n).len() >= 2,
        Op::Load(_) => df.num_outs(n) >= 1 && df.ins(n).len() >= 1,
        Op::Store(_) => df.ins(n).len() >= 2,
    }
}

/// Prepending `p` actions to a block shifts a match by `p`.
proof fn lemma_matches_shift<L>(
    df: Dataflow,
    alloc: Map<Out, Register>,
    vars0: Map<Out, Variable>,
    children: Seq<GuardFailure<L>>,
    s: Seq<Instruction>,
    slots0: int,
    j: int,
    k: int,
    a: Seq<Action<(), ()>>,
    b: Seq<Action<(), ()>>,
    ending: Ending<L>,
    p: int,
)
    requires
        0 <= p,
        b.len() == a.len() + p,
        forall|i: int| 0 <= i < a.len() ==> a[i] == #[trigger] b[i + p],
        ebb_matches(df, alloc, vars0, children, s, slots0, j, k, a, ending),
    ensures
        ebb_matches(df, alloc, vars0, children, s, slots0, j, k + p, b, ending),
    decreases s.len() - j,
{
    if j == s.len() {
    } else {
        match s[j] {
            Instruction::Spill(o1, o2) => {
                assert(b[k + p] == a[k]);
                assert(b[k + 1 + p] == a[k + 1]);
                lemma_matches_shift(df, alloc, vars0, children, s, slots0, j + 1, k + 2, a, b, ending, p);
            },
            Instruction::Node(n) => {
                if df.op(n) == Op::Guard {
                } else if op_cost(df.op(n)).resources == Resources(0) {
                    lemma_matches_shift(df, alloc, vars0, children, s, slots0, j + 1, k, a, b, ending, p);
                } else {
                    assert(b[k + p] == a[k]);
                    lemma_matches_shift(df, alloc, vars0, children, s, slots0, j + 1, k + 1, a, b, ending, p);
                }
            },
        }
    }
}

/// The slot count only grows along the schedule.
proof fn lemma_fwd_slots_mono(s: Seq<Instruction>, j1: int, j2: int, slots0: int)
    requires
        0 <= j1 <= j2 <= s.len(),
    ensures
        fwd_slots(s, j1, slots0) <= fwd_slots(s, j2, slots0),
    decreases j2 - j1,
{
    if j1 < j2 {
        lemma_fwd_slots_mono(s, j1, j2 - 1, slots0);
    }
}

/// The state of one build: the graph and the marks of the nodes on the
/// current chain of hot paths.
pub struct Builder<'a> {
    /// The graph being compiled.
    pub dataflow: &'a Dataflow,
    /// `marks[n]` is the coldness of the path that computes `n`, `1` for
    /// the entry node, and `0` if `n` is not on the current chain.
    pub marks: Vec<usize>,
}

impl<'a> Builder<'a> {
    /// Prepares a build of `dataflow`: only the entry node is marked.
    pub fn new(dataflow: &'a Dataflow) -> (b: Builder<'a>)
        requires
            dataflow.wf(),
        ensures
            b.dataflow == dataflow,
            b.marks@.len() == dataflow.len(),
            b.marks@[0] == 1,
            forall|i: int| 1 <= i < b.marks@.len() ==> b.marks@[i] == 0,
    {
        let mut marks = dataflow.node_map();
        proof {
            dataflow.lemma_wf();
        }
        marks.set(0, 1);
        Builder { dataflow, marks }
    }

    /// Whether `node` is a guard.
    pub fn is_guard(&self, node: Node) -> (r: bool)
        requires
            self.dataflow.wf(),
            self.dataflow.is_node(node),
        ensures
            r == (self.dataflow.op(node) == Op::Guard),
    {
        self.dataflow.node_op(node) == Op::Guard
    }

    /// Clears the marks this level set, restoring the marks to `m_entry`.
    fn unmark(&mut self, nodes: &Vec<Node>, Ghost(m_entry): Ghost<Seq<usize>>, coldness: usize)
        requires
            unmark_ok(m_entry, old(self).marks@, nodes@, coldness),
        ensures
            final(self).dataflow == old(self).dataflow,
            final(self).marks@ =~= m_entry,
    {
        clear_marks(&mut self.marks, nodes, Ghost(m_entry), coldness);
    }

    /// Converts `tree` into an [`EBB`]: floods the hot path, schedules it
    /// and allocates registers, then walks the schedule backwards,
    /// recursing into the cold path of each guard.
    ///
    /// The marks are restored before returning, whether the build
    /// succeeds or fails.  On success, the returned trace records the
    /// flooded nodes, the schedule and the allocation, and the block's
    /// content follows the schedule exactly ([`ebb_matches`]); on
    /// failure the cause is one of the named obstructions
    /// ([`walk_obstruction`]).
    #[verifier::spinoff_prover]
    #[verifier::rlimit(100)]
    pub fn walk<L: Clone>(
        &mut self,
        tree: &HotPathTree<L>,
        coldness: usize,
        slots_used: usize,
        variables: &OutMap<Variable>,
    ) -> (res: (Result<EBB<L>, AllocationFailure>, Ghost<WalkTrace>))
        requires
            old(self).dataflow.wf(),
            conventions_are_sinks(*old(self).dataflow),
            old(self).marks@.len() == old(self).dataflow.len(),
            old(self).marks@[0] == 1,
            2 <= coldness,
            only_hotter_marks(old(self).marks@, coldness),
            forall|o: Out|
                old(self).dataflow.is_out(o) && 1 <= old(self).marks@[o.node.index as int]
                    < coldness ==> variables@.dom().contains(o),
        ensures
            final(self).dataflow == old(self).dataflow,
            final(self).marks@ =~= old(self).marks@,
            res.0 is Err ==> walk_obstruction(
                *old(self).dataflow,
                old(self).marks@,
                variables@,
                coldness,
                slots_used,
                *tree,
                res.1@,
            ),
            res.0 matches Ok(ebb) ==> walk_trace_ok(
                *old(self).dataflow,
                old(self).marks@,
                variables@,
                coldness,
                *tree,
                res.1@,
            ) && ebb_matches(
                *old(self).dataflow,
                res.1@.alloc,
                variables@,
                tree.children@,
                res.1@.instrs,
                slots_used as int,
                0,
                0,
                ebb.actions@,
                ebb.ending,
            ),
        decreases tree_height(*tree), 1int,
    {
        let df = self.dataflow;
        let ghost mut tr = WalkTrace {
            nodes: Seq::empty(),
            instrs: Seq::empty(),
            alloc: Map::empty(),
            atr: AllocTrace { defi: Map::empty(), spilli: Map::empty() },
            keeps: Seq::empty(),
            vars_in: Map::empty(),
            m_hot: Seq::empty(),
        };
        // A tree whose exit is missing from the graph or already on the
        // hot path cannot be built.
        if tree.exit.index >= self.marks.len() {
            return (Err(AllocationFailure), Ghost(tr));
        }
        if self.marks[tree.exit.index] != 0 {
            return (Err(AllocationFailure), Ghost(tr));
        }
        if coldness >= usize::MAX - 1 {
            proof {
                assert(coldness + tree_height(*tree) >= usize::MAX);
            }
            return (Err(AllocationFailure), Ghost(tr));
        }
        // Every guard failure must name a guard with one input, keep its
        // hot index in range, and no two may name the same guard.
        let n_ch = tree.children.len();
        let mut c0: usize = 0;
        while c0 < n_ch
            invariant
                c0 <= n_ch,
                n_ch == tree.children@.len(),
                self.dataflow == df,
                df == old(self).dataflow,
                df.wf(),
                self.marks@ =~= old(self).marks@,
                self.marks@.len() == df.len(),
                forall|c: int|
                    0 <= c < c0 ==> {
                        let gf = #[trigger] tree.children@[c];
                        &&& df.is_node(gf.cold.guard)
                        &&& df.ins(gf.cold.guard).len() == 1
                        &&& gf.cold.hot_index <= gf.cold.colds@.len()
                    },
                forall|c1: int, c2: int|
                    0 <= c1 < c0 && c1 < c2 < n_ch ==> (#[trigger] tree.children@[c1]).cold.guard
                        != (#[trigger] tree.children@[c2]).cold.guard,
            decreases n_ch - c0,
        {
            let gf = &tree.children[c0];
            let g = gf.cold.guard;
            if g.index >= self.marks.len() {
                proof {
                    assert(!df.is_node(tree.children@[c0 as int].cold.guard));
                    assert(!children_ok(*df, tree.children@));
                }
                return (Err(AllocationFailure), Ghost(tr));
            }
            if df.node_ins(g).len() != 1 {
                proof {
                    assert(df.ins(tree.children@[c0 as int].cold.guard).len() != 1);
                    assert(!children_ok(*df, tree.children@));
                }
                return (Err(AllocationFailure), Ghost(tr));
            }
            if gf.cold.hot_index > gf.cold.colds.len() {
                proof {
                    assert(!children_ok(*df, tree.children@));
                }
                return (Err(AllocationFailure), Ghost(tr));
            }
            let mut c1: usize = c0 + 1;
            while c1 < n_ch
                invariant
                    c0 < c1 <= n_ch,
                    n_ch == tree.children@.len(),
                    self.dataflow == df,
                    df == old(self).dataflow,
                    self.marks@ =~= old(self).marks@,
                    g == tree.children@[c0 as int].cold.guard,
                    forall|c2: int|
                        c0 < c2 < c1 ==> (#[trigger] tree.children@[c2]).cold.guard != g,
                decreases n_ch - c1,
            {
                if tree.children[c1].cold.guard == g {
                    proof {
                        assert((tree.children@[c0 as int]).cold.guard == (tree.children@[
                        c1 as int]).cold.guard);
                        assert(!children_ok(*df, tree.children@));
                    }
                    return (Err(AllocationFailure), Ghost(tr));
                }
                c1 = c1 + 1;
            }
            c0 = c0 + 1;
        }
        proof {
            assert(children_ok(*df, tree.children@));
        }

        let ghost m_entry = self.marks@;
        let mut inputs = OutSet::new();
        let mut effects = NodeSet::new();
        let nodes = flood(df, &mut self.marks, coldness, &mut inputs, &mut effects, tree.exit);
        let ghost m_hot = self.marks@;
        proof {
            df.lemma_wf();
            tr.nodes = nodes@;
            tr.m_hot = m_hot;
        }

        // The locations of the values this path reads from hotter paths.
        let mut vars_in: OutMap<Variable> = OutMap::new();
        let n_inputs = inputs.len();
        let mut q: usize = 0;
        while q < n_inputs
            invariant
                q <= n_inputs,
                n_inputs == inputs@.len(),
                df.wf(),
                forall|x: Out|
                    #[trigger] inputs@.contains(x) ==> df.is_out(x) && 1 <= m_entry[x.node.index
                        as int] < coldness,
                forall|o: Out|
                    df.is_out(o) && 1 <= m_entry[o.node.index as int] < coldness
                        ==> variables@.dom().contains(o),
                forall|o: Out|
                    #[trigger] vars_in@.dom().contains(o) ==> inputs@.contains(o)
                        && variables@.dom().contains(o) && vars_in@[o] == variables@[o],
                forall|j: int|
                    0 <= j < q ==> vars_in@.dom().contains(#[trigger] inputs@[j]),
            decreases n_inputs - q,
        {
            let o = inputs.get(q);
            proof {
                assert(inputs@.contains(inputs@[q as int]));
            }
            let v = variables.get(o).unwrap();
            vars_in.insert(o, v);
            q = q + 1;
        }

        // Each register may hold at most one input.
        let n_vi = vars_in.num_entries();
        let mut a: usize = 0;
        while a < n_vi
            invariant
                a <= n_vi,
                n_vi == vars_in.kv().len(),
                self.dataflow == df,
                df == old(self).dataflow,
                df.wf(),
                self.marks@ =~= m_hot,
                m_entry =~= old(self).marks@,
                unmark_ok(m_entry, m_hot, nodes@, coldness),
                2 <= coldness,
                forall|o: Out|
                    #[trigger] vars_in@.dom().contains(o) ==> inputs@.contains(o)
                        && variables@.dom().contains(o) && vars_in@[o] == variables@[o],
                forall|x: Out|
                    #[trigger] inputs@.contains(x) ==> df.is_out(x) && 1 <= m_entry[x.node.index
                        as int] < coldness,
                forall|a2: int, b2: int|
                    0 <= a2 < a && a2 < b2 < n_vi ==> !regs_alias(
                        (#[trigger] vars_in.kv()[a2]).1,
                        (#[trigger] vars_in.kv()[b2]).1,
                    ),
            decreases n_vi - a,
        {
            let (_, va) = vars_in.entry_at(a);
            let mut b: usize = a + 1;
            while b < n_vi
                invariant
                    a < b <= n_vi,
                    n_vi == vars_in.kv().len(),
                    self.dataflow == df,
                    df == old(self).dataflow,
                    df.wf(),
                    self.marks@ =~= m_hot,
                    m_entry =~= old(self).marks@,
                    unmark_ok(m_entry, m_hot, nodes@, coldness),
                    2 <= coldness,
                    va == vars_in.kv()[a as int].1,
                    forall|o: Out|
                        #[trigger] vars_in@.dom().contains(o) ==> inputs@.contains(o)
                            && variables@.dom().contains(o) && vars_in@[o] == variables@[o],
                    forall|x: Out|
                        #[trigger] inputs@.contains(x) ==> df.is_out(x) && 1 <= m_entry[x.node.index
                            as int] < coldness,
                    forall|b2: int|
                        a < b2 < b ==> !regs_alias(va, (#[trigger] vars_in.kv()[b2]).1),
                decreases n_vi - b,
            {
                let (_, vb) = vars_in.entry_at(b);
                match (va, vb) {
                    (Variable::Register(ra), Variable::Register(rb)) => {
                        if ra.as_index() == rb.as_index() {
                            proof {
                                // The two entries are distinct hotter
                                // values sharing one register.
                                use_type_invariant(&vars_in);
                                vars_in.lemma_entries();
                                let o1 = vars_in.kv()[a as int].0;
                                let o2 = vars_in.kv()[b as int].0;
                                assert(vars_in@.dom().contains(vars_in.kv()[a as int].0));
                                assert(vars_in@[vars_in.kv()[a as int].0] == vars_in.kv()[
                                a as int].1);
                                assert(vars_in@.dom().contains(vars_in.kv()[b as int].0));
                                assert(vars_in@[vars_in.kv()[b as int].0] == vars_in.kv()[
                                b as int].1);
                                assert(vars_in@[o1] == va);
                                assert(vars_in@[o2] == vb);
                                assert(o1 != o2);
                                assert(regs_alias(variables@[o1], variables@[o2]));
                            }
                            self.unmark(&nodes, Ghost(m_entry), coldness);
                            return (Err(AllocationFailure), Ghost(tr));
                        }
                    },
                    _ => {},
                }
                b = b + 1;
            }
            a = a + 1;
        }
        proof {
            use_type_invariant(&vars_in);
            vars_in.lemma_entries();
            // Distinct inputs occupy distinct registers.
            assert forall|o1: Out, o2: Out, r2: int|
                crate::allocator::input_in_register(vars_in@, o1, r2)
                    && crate::allocator::input_in_register(vars_in@, o2, r2) implies o1 == o2 by {
                if o1 != o2 {
                    let i1 = choose|i: int|
                        0 <= i < vars_in.kv().len() && vars_in.kv()[i].0 == o1;
                    let i2 = choose|i: int|
                        0 <= i < vars_in.kv().len() && vars_in.kv()[i].0 == o2;
                    assert(i1 != i2);
                    assert(vars_in@[o1] == vars_in.kv()[i1].1);
                    assert(vars_in@[o2] == vars_in.kv()[i2].1);
                    if i1 < i2 {
                        assert(!regs_alias(vars_in.kv()[i1].1, vars_in.kv()[i2].1));
                    } else {
                        assert(!regs_alias(vars_in.kv()[i2].1, vars_in.kv()[i1].1));
                    }
                }
            }
            // Inputs are not redefined by the flooded nodes.
            assert forall|o: Out| #[trigger]
                vars_in@.dom().contains(o) implies !nodes@.contains(o.node) by {
                if nodes@.contains(o.node) {
                    let k = choose|k: int| 0 <= k < nodes@.len() && nodes@[k] == o.node;
                    assert(m_entry[(nodes@[k]).index as int] == 0);
                    assert(inputs@.contains(o));
                }
            }
        }

        // The keep-alive sets, per guard.
        let mut keeps: Vec<GuardKeeps> = Vec::new();
        let n_children = tree.children.len();
        let mut c: usize = 0;
        while c < n_children
            invariant
                c <= n_children,
                n_children == tree.children@.len(),
                keeps@.len() == c,
                forall|c2: int|
                    0 <= c2 < c ==> (#[trigger] keeps@[c2]).guard == tree.children@[c2].cold.guard
                        && keeps@[c2].keep_alives@ == tree.children@[c2].keep_alives@,
            decreases n_children - c,
        {
            let gf = &tree.children[c];
            let n_ka = gf.keep_alives.len();
            let mut ka: Vec<Out> = Vec::new();
            let mut j: usize = 0;
            while j < n_ka
                invariant
                    j <= n_ka,
                    c < n_children,
                    n_children == tree.children@.len(),
                    *gf == tree.children@[c as int],
                    n_ka == tree.children@[c as int].keep_alives@.len(),
                    ka@ =~= tree.children@[c as int].keep_alives@.subrange(0, j as int),
                decreases n_ka - j,
            {
                ka.push(gf.keep_alives.get(j));
                proof {
                    assert(ka@ =~= tree.children@[c as int].keep_alives@.subrange(
                        0,
                        j as int + 1,
                    ));
                }
                j = j + 1;
            }
            proof {
                assert(ka@ =~= tree.children@[c as int].keep_alives@);
            }
            keeps.push(GuardKeeps { guard: gf.cold.guard, keep_alives: ka });
            c = c + 1;
        }

        // Schedule and allocate.
        let (instrs, allocation, atr) = match allocate(&effects, &vars_in, df, &nodes, &keeps) {
            Ok(x) => x,
            Err(e) => {
                proof {
                    let k = choose|k: int|
                        0 <= k < nodes@.len() && df.num_outs(#[trigger] nodes@[k])
                            >= NUM_REGISTERS;
                    assert(m_entry[(nodes@[k]).index as int] == 0);
                    assert(df.is_node(nodes@[k]));
                }
                self.unmark(&nodes, Ghost(m_entry), coldness);
                return (Err(e), Ghost(tr));
            },
        };
        proof {
            tr.instrs = instrs@;
            tr.alloc = allocation@;
            tr.atr = atr@;
            tr.keeps = keeps@;
            tr.vars_in = vars_in@;
            assert(spills_wf(tr.instrs, tr.alloc, variables@)) by {
                assert forall|q: int|
                    0 <= q < tr.instrs.len() implies (#[trigger] tr.instrs[q]
                    matches Instruction::Spill(o1, o2) ==> {
                    &&& o1 != o2
                    &&& (tr.alloc.dom().contains(o1) || variables@.dom().contains(o1))
                    &&& (tr.alloc.dom().contains(o2) || variables@.dom().contains(o2))
                }) by {
                    if tr.instrs[q] is Spill {
                        assert(instrs@[q] matches Instruction::Spill(a1, a2) ==> {
                            &&& a1 != a2
                            &&& (allocation@.dom().contains(a1) || vars_in@.dom().contains(a1))
                            &&& (allocation@.dom().contains(a2) || vars_in@.dom().contains(a2))
                        });
                    }
                }
            }
            assert(trace_valid(*df, m_entry, variables@, tr)) by {
                assert(listed_nodes_wf(*df, tr.nodes));
                assert(topo_ordered(*df, tr.nodes));
                assert(forall|kk: int|
                    0 <= kk < tr.nodes.len() ==> m_entry[(#[trigger] tr.nodes[kk]).index
                        as int] == 0);
                assert(sched_of(tr.instrs) =~= tr.nodes);
                assert(forall|o: Out|
                    #[trigger] tr.alloc.dom().contains(o) <==> ((exists|kk: int|
                        0 <= kk < tr.nodes.len() && (#[trigger] tr.nodes[kk]) == o.node) && 0
                        <= o.index < df.num_outs(o.node)));
            }
            assert(walk_trace_ok(*df, m_entry, variables@, coldness, *tree, tr)) by {
                assert(tr.nodes.len() > 0 && tr.nodes.last() == tree.exit);
                assert(marks_extend(m_entry, tr.m_hot, coldness));
                assert(marked_iff_listed(tr.m_hot, coldness, tr.nodes));
                assert(topo_ordered(*df, sched_of(tr.instrs)));
                assert(tr.keeps.len() == tree.children@.len());
                assert(allocation_valid(*df, tr.keeps, tr.nodes, tr.vars_in, tr.alloc, tr.atr));
            }
        }

        // Forward pass: the final location of every value, and the slots
        // the spills use.
        let mut vars_full: OutMap<Variable> = OutMap::new();
        proof {
            use_type_invariant(variables);
            variables.lemma_entries();
        }
        let n_pv = variables.num_entries();
        let mut pv: usize = 0;
        while pv < n_pv
            invariant
                pv <= n_pv,
                n_pv == variables.kv().len(),
                forall|i2: int|
                    0 <= i2 < variables.kv().len() ==> #[trigger] variables@.dom().contains(
                        variables.kv()[i2].0,
                    ) && variables@[variables.kv()[i2].0] == variables.kv()[i2].1,
                forall|k: Out|
                    #[trigger] variables@.dom().contains(k) ==> exists|i2: int|
                        0 <= i2 < variables.kv().len() && variables.kv()[i2].0 == k,
                forall|j: int|
                    0 <= j < pv ==> vars_full@.dom().contains((#[trigger] variables.kv()[j]).0),
                forall|o: Out|
                    #[trigger] vars_full@.dom().contains(o) ==> variables@.dom().contains(o)
                        && vars_full@[o] == variables@[o],
            decreases n_pv - pv,
        {
            proof {
                use_type_invariant(variables);
                variables.lemma_entries();
            }
            let (o, v) = variables.entry_at(pv);
            vars_full.insert(o, v);
            pv = pv + 1;
        }
        proof {
            use_type_invariant(variables);
            variables.lemma_entries();
            assert(vars_full@ =~= variables@) by {
                assert forall|o: Out| #[trigger]
                    variables@.dom().contains(o) implies vars_full@.dom().contains(o) by {
                    let i2 = choose|i2: int|
                        0 <= i2 < variables.kv().len() && variables.kv()[i2].0 == o;
                    assert(vars_full@.dom().contains(variables.kv()[i2].0));
                }
            }
        }
        let mut slots: usize = slots_used;
        let n_instrs = instrs.len();
        let mut j: usize = 0;
        while j < n_instrs
            invariant
                j <= n_instrs,
                n_instrs == instrs@.len(),
                df.wf(),
                self.dataflow == df,
                df == old(self).dataflow,
                self.marks@ =~= m_hot,
                m_entry =~= old(self).marks@,
                unmark_ok(m_entry, m_hot, nodes@, coldness),
                trace_valid(*df, m_entry, variables@, tr),
                walk_trace_ok(*df, m_entry, variables@, coldness, *tree, tr),
                tr.instrs == instrs@,
                tr.alloc == allocation@,
                tr.nodes == nodes@,
                sched_of(instrs@) =~= nodes@,
                listed_nodes_wf(*df, nodes@),
                slots as int == fwd_slots(instrs@, j as int, slots_used as int),
                forall|o: Out|
                    #[trigger] allocation@.dom().contains(o) <==> ((exists|k: int|
                        0 <= k < nodes@.len() && (#[trigger] nodes@[k]) == o.node) && 0 <= o.index
                        < df.num_outs(o.node)),
                forall|o: Out|
                    df.is_out(o) && 1 <= m_entry[o.node.index as int] < coldness
                        ==> #[trigger] vars_full@.dom().contains(o),
                forall|o: Out|
                    df.is_out(o) && sched_of(instrs@.subrange(0, j as int)).contains(o.node)
                        ==> #[trigger] vars_full@.dom().contains(o),
            decreases n_instrs - j,
        {
            let ghost pre = instrs@.subrange(0, j as int);
            proof {
                assert(instrs@.subrange(0, j as int + 1) =~= pre.push(instrs@[j as int]));
                crate::allocator::lemma_sched_append(pre, instrs@[j as int]);
            }
            match instrs[j] {
                Instruction::Spill(o1, o2) => {
                    if slots > usize::MAX - 2 {
                        proof {
                            assert(fwd_slots(instrs@, j as int + 1, slots_used as int) == slots
                                + 2);
                        }
                        self.unmark(&nodes, Ghost(m_entry), coldness);
                        return (Err(AllocationFailure), Ghost(tr));
                    }
                    vars_full.insert(o1, Variable::Slot(Slot(slots)));
                    slots = slots + 1;
                    vars_full.insert(o2, Variable::Slot(Slot(slots)));
                    slots = slots + 1;
                },
                Instruction::Node(n) => {
                    proof {
                        assert(sched_of(instrs@.subrange(0, j as int + 1)).contains(n)) by {
                            assert(instrs@[j as int] == Instruction::Node(n));
                            assert(sched_of(instrs@.subrange(0, j as int + 1)) =~= sched_of(
                                pre,
                            ).push(n));
                            assert(sched_of(pre).push(n)[sched_of(pre).push(n).len() - 1] == n);
                            assert(sched_of(pre).push(n).contains(n));
                        }
                        assert(sched_of(instrs@).contains(n)) by {
                            crate::allocator::lemma_sched_prefix(instrs@, j as int + 1);
                        }
                        assert(nodes@.contains(n));
                        let k = choose|k: int| 0 <= k < nodes@.len() && nodes@[k] == n;
                        assert(df.is_node(nodes@[k]));
                    }
                    let outs = df.outs(n);
                    let n_outs = outs.len();
                    let mut t: usize = 0;
                    while t < n_outs
                        invariant
                            t <= n_outs,
                            df.is_node(n),
                            nodes@.contains(n),
                            n_outs == df.num_outs(n),
                            df.wf(),
                            n_instrs == instrs@.len(),
                            j < n_instrs,
                            forall|t2: int|
                                0 <= t2 < outs@.len() ==> outs@[t2] == (Out {
                                    node: n,
                                    index: t2 as usize,
                                }),
                            n_outs == outs@.len(),
                            forall|o: Out|
                                #[trigger] allocation@.dom().contains(o) <==> ((exists|k: int|
                                    0 <= k < nodes@.len() && (#[trigger] nodes@[k]) == o.node) && 0
                                    <= o.index < df.num_outs(o.node)),
                            forall|o: Out|
                                df.is_out(o) && 1 <= m_entry[o.node.index as int] < coldness
                                    ==> #[trigger] vars_full@.dom().contains(o),
                            forall|o: Out|
                                df.is_out(o) && sched_of(instrs@.subrange(0, j as int)).contains(
                                    o.node,
                                ) ==> #[trigger] vars_full@.dom().contains(o),
                            forall|t2: int|
                                0 <= t2 < t ==> vars_full@.dom().contains(#[trigger] outs@[t2]),
                        decreases n_outs - t,
                    {
                        let o = outs[t];
                        proof {
                            let k = choose|k: int| 0 <= k < nodes@.len() && nodes@[k] == n;
                            assert(allocation@.dom().contains(o));
                        }
                        let reg = allocation.get(o).unwrap();
                        vars_full.insert(o, Variable::Register(reg));
                        t = t + 1;
                    }
                    proof {
                        assert forall|o: Out|
                            df.is_out(o) && sched_of(instrs@.subrange(0, j as int + 1)).contains(
                                o.node,
                            ) implies #[trigger] vars_full@.dom().contains(o) by {
                            if o.node == n {
                                assert(outs@[o.index as int] == o);
                            } else {
                                assert(sched_of(instrs@.subrange(0, j as int)).contains(o.node))
                                    by {
                                    assert(sched_of(instrs@.subrange(0, j as int + 1)) =~= sched_of(
                                        instrs@.subrange(0, j as int),
                                    ).push(n));
                                    let kk = choose|kk: int|
                                        0 <= kk < sched_of(
                                            instrs@.subrange(0, j as int + 1),
                                        ).len() && #[trigger] sched_of(
                                            instrs@.subrange(0, j as int + 1),
                                        )[kk] == o.node;
                                    assert(kk < sched_of(instrs@.subrange(0, j as int)).len());
                                    assert(sched_of(instrs@.subrange(0, j as int))[kk] == o.node);
                                }
                            }
                        }
                    }
                },
            }
            j = j + 1;
        }
        proof {
            assert(instrs@.subrange(0, n_instrs as int) =~= instrs@);
        }
        let ghost slots_fin = slots as int;
        proof {
            assert(rev_ctx(*df, m_entry, m_hot, variables@, coldness, slots_used, *tree, tr));
        }

        // Reverse pass: build the block from the exit backwards.
        let mut cg = CodeGen::new(allocation, vars_full, slots);
        let mut ending: Ending<L> = Ending::Leaf(tree.leaf.clone());
        let mut rj: usize = n_instrs;
        proof {
            assert(ebb_matches(
                *df,
                tr.alloc,
                variables@,
                tree.children@,
                tr.instrs,
                slots_used as int,
                rj as int,
                0,
                cg.rev_actions().reverse(),
                ending,
            ));
        }
        while rj > 0
            invariant
                rj <= n_instrs,
                n_instrs == instrs@.len(),
                self.dataflow == df,
                df == old(self).dataflow,
                self.marks@ =~= m_hot,
                m_entry =~= old(self).marks@,
                rev_ctx(*df, m_entry, m_hot, variables@, coldness, slots_used, *tree, tr),
                tr.instrs == instrs@,
                tr.alloc == allocation@,
                tr.nodes == nodes@,
                forall|o: Out|
                    df.is_out(o) && 1 <= m_hot[o.node.index as int] < coldness + 1
                        ==> #[trigger] cg.vars().dom().contains(o),
                cg.dests() == allocation@,
                cg.slots() == fwd_slots(instrs@, rj as int, slots_used as int),
                fwd_slots(instrs@, n_instrs as int, slots_used as int) == slots_fin,
                slots_fin <= usize::MAX,
                ebb_matches(
                    *df,
                    tr.alloc,
                    variables@,
                    tree.children@,
                    tr.instrs,
                    slots_used as int,
                    rj as int,
                    0,
                    cg.rev_actions().reverse(),
                    ending,
                ),
            decreases rj,
        {
            rj = rj - 1;
            proof {
                df.lemma_wf();
                lemma_fwd_slots_mono(instrs@, rj as int, n_instrs as int, slots_used as int);
                lemma_fwd_slots_mono(instrs@, 0, rj as int, slots_used as int);
                assert(fwd_slots(instrs@, rj as int + 1, slots_used as int) == fwd_slots(
                    instrs@,
                    rj as int,
                    slots_used as int,
                ) + (match instrs@[rj as int] {
                    Instruction::Spill(_, _) => 2int,
                    Instruction::Node(_) => 0int,
                }));
            }
            match instrs[rj] {
                Instruction::Spill(o1, o2) => {
                    proof {
                        assert(instrs@[rj as int] matches Instruction::Spill(a1, a2) && a1 == o1
                            && a2 == o2);
                        assert(allocation@.dom().contains(o1) || variables@.dom().contains(o1));
                        assert(allocation@.dom().contains(o2) || variables@.dom().contains(o2));
                    }
                    let v1 = match cg.dest(o1) {
                        Some(reg) => Variable::Register(reg),
                        None => match variables.get(o1) {
                            Some(v) => v,
                            None => {
                                proof {
                                    assert(false);
                                }
                                Variable::Slot(Slot(0))
                            },
                        },
                    };
                    let v2 = match cg.dest(o2) {
                        Some(reg) => Variable::Register(reg),
                        None => match variables.get(o2) {
                            Some(v) => v,
                            None => {
                                proof {
                                    assert(false);
                                }
                                Variable::Slot(Slot(0))
                            },
                        },
                    };
                    proof {
                        assert(v1 == pre_spill_loc(tr.alloc, variables@, o1));
                        assert(v2 == pre_spill_loc(tr.alloc, variables@, o2));
                    }
                    proof {
                        assert(cg.slots() == fwd_slots(instrs@, rj as int, slots_used as int)
                            + 2);
                        assert(fwd_slots(instrs@, rj as int, slots_used as int) >= slots_used)
                            by {
                            lemma_fwd_slots_mono(instrs@, 0, rj as int, slots_used as int);
                        }
                    }
                    let ghost rev0 = cg.rev_actions();
                    cg.add_spill(o1, o2, v1, v2);
                    proof {
                        let sl = fwd_slots(instrs@, rj as int, slots_used as int);
                        assert(cg.slots() == sl);
                        let m2 = Action::<(), ()>::Move(
                            Variable::Slot(Slot((sl + 1) as usize)),
                            v2,
                        );
                        let m1 = Action::<(), ()>::Move(Variable::Slot(Slot(sl as usize)), v1);
                        assert(cg.rev_actions() =~= rev0.push(m2).push(m1));
                        lemma_spill_step(
                            *df,
                            tr.alloc,
                            variables@,
                            tree.children@,
                            tr.instrs,
                            slots_used as int,
                            rj as int,
                            rev0,
                            ending,
                            o1,
                            o2,
                        );
                        assert(cg.rev_actions().reverse() =~= rev0.push(m2).push(m1).reverse());
                    }
                },
                Instruction::Node(n) => {
                    proof {
                        assert(instrs@[rj as int] == Instruction::Node(n));
                        assert(sched_of(instrs@.subrange(0, rj as int + 1)).contains(n)) by {
                            assert(instrs@.subrange(0, rj as int + 1) =~= instrs@.subrange(
                                0,
                                rj as int,
                            ).push(instrs@[rj as int]));
                            crate::allocator::lemma_sched_append(
                                instrs@.subrange(0, rj as int),
                                instrs@[rj as int],
                            );
                            let ss = sched_of(instrs@.subrange(0, rj as int)).push(n);
                            assert(ss[ss.len() - 1] == n);
                            assert(ss.contains(n));
                        }
                        assert(nodes@.contains(n)) by {
                            crate::allocator::lemma_sched_prefix(instrs@, rj as int + 1);
                        }
                        let k = choose|k: int| 0 <= k < nodes@.len() && nodes@[k] == n;
                        assert(df.is_node(nodes@[k]));
                        assert(m_hot[n.index as int] == coldness);
                    }
                    if self.is_guard(n) {
                        // Find what happens when this guard fails.
                        let mut found: Option<usize> = None;
                        let n_ch2 = tree.children.len();
                        let mut ci: usize = 0;
                        while ci < n_ch2
                            invariant
                                ci <= n_ch2,
                                n_ch2 == tree.children@.len(),
                                match found {
                                    Some(f) => f < n_ch2 && tree.children@[f as int].cold.guard
                                        == n,
                                    None => forall|c2: int|
                                        0 <= c2 < ci ==> (#[trigger] tree.children@[c2]).cold.guard
                                            != n,
                                },
                            decreases n_ch2 - ci,
                        {
                            if tree.children[ci].cold.guard == n {
                                found = Some(ci);
                            }
                            ci = ci + 1;
                        }
                        match found {
                            None => {
                                // A guard was flooded onto this hot path,
                                // but the tree records no failure for it.
                                proof {
                                    assert(!has_child(tree.children@, n));
                                    assert(tr.nodes.contains(n));
                                }
                                self.unmark(&nodes, Ghost(m_entry), coldness);
                                return (Err(AllocationFailure), Ghost(tr));
                            },
                            Some(f) => {
                                ending = match self.build_switch(
                                    tree,
                                    f,
                                    n,
                                    coldness,
                                    slots_used,
                                    variables,
                                    &mut cg,
                                    ending,
                                    &instrs,
                                    &nodes,
                                    rj,
                                    Ghost(m_entry),
                                    Ghost(tr),
                                ) {
                                    Ok(e2) => e2,
                                    Err(e) => {
                                        self.unmark(&nodes, Ghost(m_entry), coldness);
                                        return (Err(e), Ghost(tr));
                                    },
                                };
                                proof {
                                    assert(cg.rev_actions().reverse() =~= Seq::<
                                        Action<(), ()>,
                                    >::empty());
                                }
                            },
                        }
                    } else {
                        let cost = df.cost(n);
                        if cost.resources != Resources(0) {
                            if cg.operands_ok(df, n) {
                                let ghost rev0 = cg.rev_actions();
                                cg.add_node(df, n);
                                proof {
                                    let act = node_action(*df, cg.dests(), cg.vars(), n);
                                    assert(cg.rev_actions() =~= rev0.push(act));
                                    assert(action_shape_for(*df, tr.alloc, act, n)) by {
                                        lemma_action_shape(*df, cg.dests(), cg.vars(), n);
                                    }
                                    lemma_node_step(
                                        *df,
                                        tr.alloc,
                                        variables@,
                                        tree.children@,
                                        tr.instrs,
                                        slots_used as int,
                                        rj as int,
                                        rev0,
                                        ending,
                                        n,
                                        act,
                                    );
                                    assert(cg.rev_actions().reverse() =~= rev0.push(act).reverse());
                                }
                            } else {
                                proof {
                                    // The operation is short of operands:
                                    // with the shape in order, every map
                                    // lookup would succeed.
                                    if node_shape_ok(*df, n) {
                                        lemma_operands_from_shape(
                                            *df,
                                            m_entry,
                                            m_hot,
                                            coldness,
                                            nodes@,
                                            instrs@,
                                            tr.alloc,
                                            variables@,
                                            cg.vars(),
                                            n,
                                        );
                                        assert(false);
                                    }
                                    assert(m_entry[n.index as int] == 0) by {
                                        let k = choose|k: int|
                                            0 <= k < nodes@.len() && nodes@[k] == n;
                                        assert(m_entry[(nodes@[k]).index as int] == 0);
                                    }
                                }
                                self.unmark(&nodes, Ghost(m_entry), coldness);
                                return (Err(AllocationFailure), Ghost(tr));
                            }
                        } else {
                            proof {
                                assert(ebb_matches(
                                    *df,
                                    tr.alloc,
                                    variables@,
                                    tree.children@,
                                    tr.instrs,
                                    slots_used as int,
                                    rj as int,
                                    0,
                                    cg.rev_actions().reverse(),
                                    ending,
                                ));
                            }
                        }
                    }
                },
            }
        }
        let result = cg.ebb(ending);
        self.unmark(&nodes, Ghost(m_entry), coldness);
        proof {
            assert(ebb_matches(
                *df,
                tr.alloc,
                variables@,
                tree.children@,
                tr.instrs,
                slots_used as int,
                0,
                0,
                result.actions@,
                result.ending,
            ));
        }
        (Ok(result), Ghost(tr))
    }

    /// Builds the switch for the guard at schedule position `rj`: the
    /// block built so far becomes the hot continuation, each cold
    /// subtree is built recursively at the guard's program point, and
    /// the hot branch is re-inserted at the recorded position.
    #[verifier::spinoff_prover]
    #[verifier::rlimit(100)]
    fn build_switch<L: Clone>(
        &mut self,
        tree: &HotPathTree<L>,
        f: usize,
        n: Node,
        coldness: usize,
        slots_used: usize,
        variables: &OutMap<Variable>,
        cg: &mut CodeGen,
        ending: Ending<L>,
        instrs: &Vec<Instruction>,
        nodes: &Vec<Node>,
        rj: usize,
        Ghost(m_entry): Ghost<Seq<usize>>,
        Ghost(tr): Ghost<WalkTrace>,
    ) -> (r: Result<Ending<L>, AllocationFailure>)
        requires
            old(self).dataflow.wf(),
            conventions_are_sinks(*old(self).dataflow),
            children_ok(*old(self).dataflow, tree.children@),
            f < tree.children@.len(),
            tree.children@[f as int].cold.guard == n,
            rj < instrs@.len(),
            instrs@[rj as int] == Instruction::Node(n),
            old(self).dataflow.op(n) == Op::Guard,
            nodes@.contains(n),
            unmark_ok(m_entry, old(self).marks@, nodes@, coldness),
            crate::flood::prereqs_marked(*old(self).dataflow, old(self).marks@, nodes@),
            m_entry.len() == old(self).dataflow.len(),
            0 < m_entry.len(),
            m_entry[0] == 1,
            2 <= coldness < usize::MAX - 1,
            only_hotter_marks(m_entry, coldness),
            trace_valid(*old(self).dataflow, m_entry, variables@, tr),
            tr.instrs == instrs@,
            tr.nodes == nodes@,
            forall|o: Out|
                old(self).dataflow.is_out(o) && 1 <= m_entry[o.node.index as int] < coldness
                    ==> variables@.dom().contains(o),
            forall|o: Out|
                old(self).dataflow.is_out(o) && 1 <= old(self).marks@[o.node.index as int]
                    < coldness + 1 ==> #[trigger] old(cg).vars().dom().contains(o),
            old(cg).dests() == tr.alloc,
            old(cg).slots() == fwd_slots(instrs@, rj as int, slots_used as int),
            fwd_slots(instrs@, instrs@.len() as int, slots_used as int) <= usize::MAX,
            ebb_matches(
                *old(self).dataflow,
                tr.alloc,
                variables@,
                tree.children@,
                tr.instrs,
                slots_used as int,
                rj as int + 1,
                0,
                old(cg).rev_actions().reverse(),
                ending,
            ),
        ensures
            final(self).dataflow == old(self).dataflow,
            final(self).marks@ =~= old(self).marks@,
            final(cg).dests() == old(cg).dests(),
            final(cg).slots() == old(cg).slots(),
            final(cg).vars() == old(cg).vars(),
            r matches Ok(e2) ==> final(cg).rev_actions() =~= Seq::<Action<(), ()>>::empty()
                && ebb_matches(
                *old(self).dataflow,
                tr.alloc,
                variables@,
                tree.children@,
                tr.instrs,
                slots_used as int,
                rj as int,
                0,
                Seq::<Action<(), ()>>::empty(),
                e2,
            ),
            r is Err ==> has_cold(*tree),
        decreases tree_height(*tree), 0int,
    {
        let df = self.dataflow;
        let ghost m_hot = self.marks@;
        let gf = &tree.children[f];
        proof {
            df.lemma_wf();
            // This is the unique failure for `n`.
            let cc = choose|cc: int|
                0 <= cc < tree.children@.len() && (#[trigger] tree.children@[cc]).cold.guard == n;
            assert(cc == f as int);
            assert(child_for(tree.children@, n) == tree.children@[f as int]);
            assert(df.ins(n).len() == 1);
        }
        // The guard's input has a location.
        let gins = df.node_ins(n);
        let gin = gins[0];
        proof {
            assert(df.ins(n)[0] == gin);
            assert(gin.node.index < n.index);
            assert(df.is_out(gin));
            let k = choose|k: int| 0 <= k < nodes@.len() && nodes@[k] == n;
            assert(m_hot[gin.node.index as int] != 0) by {
                assert(df.ins(nodes@[k])[0].node.index == gin.node.index);
            }
            if m_hot[gin.node.index as int] == coldness {
                assert(nodes@.contains(gin.node));
                assert(tr.alloc.dom().contains(gin));
            } else {
                assert(1 <= m_hot[gin.node.index as int] < coldness);
                assert(m_entry[gin.node.index as int] == m_hot[gin.node.index as int]);
                assert(variables@.dom().contains(gin));
            }
            lemma_instr_nodes_listed(instrs@, nodes@);
            assert forall|j2: int|
                0 <= j2 < instrs@.len() implies (#[trigger] instrs@[j2]
                matches Instruction::Node(n2) ==> df.is_node(n2)) by {
                if instrs@[j2] is Node {
                    let n2 = instrs@[j2]->Node_0;
                    assert(nodes@.contains(n2));
                    let kk = choose|kk: int| 0 <= kk < nodes@.len() && nodes@[kk] == n2;
                    assert(df.is_node(nodes@[kk]));
                }
            }
            assert forall|j2: int|
                0 <= j2 < instrs@.len() implies (#[trigger] instrs@[j2]
                matches Instruction::Node(n2) ==> (gin.node == n2 && 0 <= gin.index < df.num_outs(
                n2,
            ) ==> cg.dests().dom().contains(gin))) by {
                if instrs@[j2] is Node {
                    let n2 = instrs@[j2]->Node_0;
                    if gin.node == n2 && gin.index < df.num_outs(n2) {
                        assert(nodes@.contains(n2));
                    }
                }
            }
        }
        let discriminant = match loc_at(df, cg, variables, instrs, rj, slots_used, gin) {
            Some(v) => v,
            None => {
                proof {
                    assert(false);
                }
                Variable::Slot(Slot(0))
            },
        };
        let hot = cg.ebb(ending);
        let n_colds = gf.cold.colds.len();
        let mut full: Vec<EBB<L>> = Vec::new();
        let mut ci2: usize = 0;
        while ci2 < n_colds
            invariant
                ci2 <= n_colds,
                f < tree.children@.len(),
                n_colds == tree.children@[f as int].cold.colds@.len(),
                *gf == tree.children@[f as int],
                n_colds == gf.cold.colds@.len(),
                full@.len() == ci2,
                df.wf(),
                conventions_are_sinks(*df),
                self.dataflow == df,
                df == old(self).dataflow,
                self.marks@ =~= m_hot,
                m_hot =~= old(self).marks@,
                unmark_ok(m_entry, m_hot, nodes@, coldness),
                m_entry.len() == df.len(),
                0 < m_entry.len(),
                m_entry[0] == 1,
                2 <= coldness < usize::MAX - 1,
                only_hotter_marks(m_entry, coldness),
                cg.dests() == old(cg).dests(),
                cg.slots() == old(cg).slots(),
                cg.vars() == old(cg).vars(),
                forall|o: Out|
                    df.is_out(o) && 1 <= m_hot[o.node.index as int] < coldness + 1
                        ==> #[trigger] cg.vars().dom().contains(o),
            decreases n_colds - ci2,
        {
            let ct = &gf.cold.colds[ci2];
            proof {
                lemma_member_height(*tree, f as int, ci2 as int);
                assert(m_hot[0] == 1) by {
                    if m_hot[0] != m_entry[0] {
                        assert(m_entry[0] == 0);
                    }
                }
                assert(only_hotter_marks(m_hot, (coldness + 1) as usize)) by {
                    assert forall|i2: int|
                        0 <= i2 < m_hot.len() implies m_hot[i2] == 0 || (1 <= #[trigger] m_hot[i2]
                        < coldness + 1) by {
                        if m_hot[i2] != m_entry[i2] {
                            assert(m_hot[i2] == coldness);
                        } else {
                            assert(m_entry[i2] == 0 || 1 <= m_entry[i2] < coldness);
                        }
                    }
                }
            }
            let (sub, _) = self.walk(ct, coldness + 1, cg.slots_used(), cg.variables_ref());
            let sub = match sub {
                Ok(e) => e,
                Err(e) => {
                    proof {
                        assert(has_cold(*tree)) by {
                            assert(tree.children@[f as int].cold.colds@.len() > 0);
                        }
                    }
                    return Err(e);
                },
            };
            full.push(sub);
            ci2 = ci2 + 1;
        }
        let hi = gf.cold.hot_index;
        proof {
            assert(hi <= full@.len());
        }
        let ghost hot_snapshot = hot;
        full.insert(hi, hot);
        let default_ = full.pop().unwrap();
        proof {
            assert(hot_of(full@, default_, hi) == hot_snapshot) by {
                if (hi as int) < full@.len() {
                    assert(full@[hi as int] == hot_snapshot);
                }
            }
        }
        let new_ending: Ending<L> = Ending::Switch(
            Switch::Index { discriminant, cases: full, default_: Box::new(default_) },
        );
        proof {
            assert(cg.rev_actions().reverse() =~= Seq::<Action<(), ()>>::empty());
            assert(ebb_matches(
                *df,
                tr.alloc,
                variables@,
                tree.children@,
                tr.instrs,
                slots_used as int,
                rj as int,
                0,
                Seq::<Action<(), ()>>::empty(),
                new_ending,
            ));
        }
        Ok(new_ending)
    }
}

/// The location of `o` after the first `upto` instructions, computed by
/// replaying the schedule: [`loc_after`], executably.  `None` means `o`
/// has no destination register and no caller-given location.
fn loc_at(
    df: &Dataflow,
    cg: &CodeGen,
    variables: &OutMap<Variable>,
    instrs: &Vec<Instruction>,
    upto: usize,
    slots0: usize,
    o: Out,
) -> (r: Option<Variable>)
    requires
        df.wf(),
        upto <= instrs@.len(),
        fwd_slots(instrs@, instrs@.len() as int, slots0 as int) <= usize::MAX,
        forall|j: int|
            0 <= j < instrs@.len() ==> (#[trigger] instrs@[j] matches Instruction::Node(n)
                ==> df.is_node(n)),
        forall|j: int|
            0 <= j < instrs@.len() ==> (#[trigger] instrs@[j] matches Instruction::Node(n) ==> (
            o.node == n && 0 <= o.index < df.num_outs(n) ==> cg.dests().dom().contains(o))),
    ensures
        match r {
            Some(v) => v == loc_after(
                *df,
                cg.dests(),
                variables@,
                instrs@,
                slots0 as int,
                upto as int,
                o,
            ),
            None => !cg.dests().dom().contains(o) && !variables@.dom().contains(o),
        },
{
    let mut loc: Variable = match cg.dest(o) {
        Some(reg) => Variable::Register(reg),
        None => match variables.get(o) {
            Some(v) => v,
            None => {
                return None;
            },
        },
    };
    let mut sl: usize = slots0;
    let mut j2: usize = 0;
    while j2 < upto
        invariant
            j2 <= upto,
            upto <= instrs@.len(),
            df.wf(),
            fwd_slots(instrs@, instrs@.len() as int, slots0 as int) <= usize::MAX,
            sl as int == fwd_slots(instrs@, j2 as int, slots0 as int),
            loc == loc_after(*df, cg.dests(), variables@, instrs@, slots0 as int, j2 as int, o),
            forall|j: int|
                0 <= j < instrs@.len() ==> (#[trigger] instrs@[j] matches Instruction::Node(n)
                    ==> df.is_node(n)),
            forall|j: int|
                0 <= j < instrs@.len() ==> (#[trigger] instrs@[j] matches Instruction::Node(n)
                    ==> (o.node == n && 0 <= o.index < df.num_outs(n)
                    ==> cg.dests().dom().contains(o))),
        decreases upto - j2,
    {
        proof {
            lemma_fwd_slots_mono(instrs@, j2 as int + 1, instrs@.len() as int, slots0 as int);
            assert(fwd_slots(instrs@, j2 as int + 1, slots0 as int) == sl + (
            match instrs@[j2 as int] {
                Instruction::Spill(_, _) => 2int,
                Instruction::Node(_) => 0int,
            }));
        }
        match instrs[j2] {
            Instruction::Spill(o1, o2) => {
                if o == o1 {
                    loc = Variable::Slot(Slot(sl));
                } else if o == o2 {
                    loc = Variable::Slot(Slot(sl + 1));
                }
                sl = sl + 2;
            },
            Instruction::Node(n) => {
                if o.node == n {
                    if o.index < df.node_num_outs(n) {
                        let reg = cg.dest(o).unwrap();
                        loc = Variable::Register(reg);
                    }
                }
            },
        }
        j2 = j2 + 1;
    }
    Some(loc)
}

/// The action the code generator emits for a computing node carries the
/// node's operation, immediate and destination registers.
proof fn lemma_action_shape(
    df: Dataflow,
    alloc: Map<Out, Register>,
    vars: Map<Out, Variable>,
    n: Node,
)
    requires
        op_cost(df.op(n)).resources != Resources(0),
        df.op(n) != Op::Guard,
    ensures
        action_shape_for(df, alloc, node_action(df, alloc, vars, n), n),
{
    match df.op(n) {
        Op::Constant(_, _) => {},
        Op::Unary(_, _) => {},
        Op::Binary(_, _) => {},
        Op::Division(_, _) => {},
        Op::Load(_) => {},
        Op::Store(_) => {},
        _ => {},
    }
}

/// If every flooded node has the arity its operation needs, the code
/// generator's operand lookups all succeed: in the contrapositive, a
/// failed lookup names a malformed node.
proof fn lemma_operands_from_shape(
    df: Dataflow,
    m_entry: Seq<usize>,
    m_hot: Seq<usize>,
    coldness: usize,
    nodes: Seq<Node>,
    instrs: Seq<Instruction>,
    alloc: Map<Out, Register>,
    variables: Map<Out, Variable>,
    cgvars: Map<Out, Variable>,
    n: Node,
)
    requires
        df.wf(),
        df.is_node(n),
        nodes.contains(n),
        listed_nodes_wf(df, nodes),
        crate::flood::prereqs_marked(df, m_hot, nodes),
        marked_iff_listed(m_hot, coldness, nodes),
        marks_extend(m_entry, m_hot, coldness),
        only_hotter_marks(m_entry, coldness),
        m_entry.len() == df.len(),
        op_cost(df.op(n)).resources != Resources(0),
        df.op(n) != Op::Guard,
        2 <= coldness < usize::MAX - 1,
        forall|o: Out|
            #[trigger] alloc.dom().contains(o) <==> ((exists|k: int|
                0 <= k < nodes.len() && (#[trigger] nodes[k]) == o.node) && 0 <= o.index
                < df.num_outs(o.node)),
        forall|o: Out|
            df.is_out(o) && 1 <= m_hot[o.node.index as int] < coldness + 1
                ==> #[trigger] cgvars.dom().contains(o),
        node_shape_ok(df, n),
    ensures
        crate::codegen::node_operands_ok(df, alloc, cgvars, n),
{
    df.lemma_wf();
    let k = choose|k: int| 0 <= k < nodes.len() && nodes[k] == n;
    assert forall|i: int| 0 <= i < df.ins(n).len() implies #[trigger] cgvars.dom().contains(
        df.ins(n)[i],
    ) by {
        let o = df.ins(n)[i];
        assert(df.ins(nodes[k])[i] == o);
        assert(m_hot[(df.ins(nodes[k])[i]).node.index as int] != 0);
        assert(df.is_out(o));
        let oi = o.node.index as int;
        assert(0 <= oi < m_entry.len());
        assert(m_hot[oi] < coldness + 1) by {
            assert(m_hot[oi] == m_entry[oi] || (m_entry[oi] == 0 && m_hot[oi] == coldness));
            if m_hot[oi] == m_entry[oi] {
                assert(m_entry[oi] == 0 || 1 <= m_entry[oi] < coldness);
            }
        }
        assert(1 <= m_hot[oi] < coldness + 1);
    }
    assert forall|idx: usize| (idx as int) < df.num_outs(n) implies #[trigger] alloc.dom().contains(
        Out { node: n, index: idx },
    ) by {
        assert(nodes[k] == n);
    }
    match df.op(n) {
        Op::Constant(_, _) => {
            assert(alloc.dom().contains(Out { node: n, index: 0 }));
        },
        Op::Unary(_, _) => {
            assert(alloc.dom().contains(Out { node: n, index: 0 }));
            assert(cgvars.dom().contains(df.ins(n)[0]));
        },
        Op::Binary(_, _) => {
            assert(alloc.dom().contains(Out { node: n, index: 0 }));
            assert(cgvars.dom().contains(df.ins(n)[0]));
            assert(cgvars.dom().contains(df.ins(n)[1]));
        },
        Op::Division(_, _) => {
            assert(alloc.dom().contains(Out { node: n, index: 0 }));
            assert(alloc.dom().contains(Out { node: n, index: 1 }));
            assert(cgvars.dom().contains(df.ins(n)[0]));
            assert(cgvars.dom().contains(df.ins(n)[1]));
        },
        Op::Load(_) => {
            assert(alloc.dom().contains(Out { node: n, index: 0 }));
            assert(cgvars.dom().contains(df.ins(n)[0]));
        },
        Op::Store(_) => {
            assert(cgvars.dom().contains(df.ins(n)[0]));
            assert(cgvars.dom().contains(df.ins(n)[1]));
        },
        _ => {},
    }
}

/// Whether two locations are the same register.
pub open spec fn regs_alias(a: Variable, b: Variable) -> bool {
    match (a, b) {
        (Variable::Register(ra), Variable::Register(rb)) => ra.index() == rb.index(),
        _ => false,
    }
}

/// The marks of a fresh build: the entry node at `1`, everything else
/// clear.
pub open spec fn entry_marks(df: Dataflow) -> Seq<usize> {
    Seq::new(
        df.len() as nat,
        |i: int|
            if i == 0 {
                1usize
            } else {
                0usize
            },
    )
}

/// The locations `before` gives the entry node's values: the `i`-th
/// value lives at `before.live_values[i]`.
pub open spec fn entry_vars(df: Dataflow, before: Convention) -> Map<Out, Variable> {
    Map::new(
        |o: Out| o.node == (Node { index: 0 }) && 0 <= o.index < before.live_values@.len(),
        |o: Out| before.live_values@[o.index as int],
    )
}

/// Compiles `cft` against `dataflow` into an [`EBB`], starting from the
/// placement contract `before`: the entry node's values live in
/// `before.live_values`, and `before.slots_used` spill slots are in use.
///
/// The keep-alive analysis runs first; the returned record holds its
/// tree and the builder's trace.  On success the block's content
/// follows the trace's schedule ([`ebb_matches`]); on failure the cause
/// is one of the named obstructions ([`walk_obstruction`]).
#[verifier::spinoff_prover]
pub fn build<L: Clone>(
    before: &Convention,
    dataflow: &Dataflow,
    cft: &CFT<L>,
) -> (res: (Result<EBB<L>, AllocationFailure>, Ghost<(HotPathTree<L>, WalkTrace)>))
    requires
        dataflow.wf(),
        conventions_are_sinks(*dataflow),
        crate::keep_alive::cft_wf(*dataflow, *cft),
        crate::keep_alive::exits_distinct(*cft),
        2 + crate::cft::cft_height(*cft) < usize::MAX,
        before.live_values@.len() == dataflow.num_outs(Node { index: 0 }),
    ensures
        ({
            let (tree, tr) = res.1@;
            let df = *dataflow;
            &&& crate::keep_alive::keep_alive_closed(df, tree)
            &&& tree.exit == crate::keep_alive::cft_hot_exit(*cft)
            &&& crate::keep_alive::children_mirror_switches(tree.children@, *cft)
            &&& (res.0 is Err ==> walk_obstruction(
                df,
                entry_marks(df),
                entry_vars(df, *before),
                2,
                before.slots_used,
                tree,
                tr,
            ))
            &&& (res.0 matches Ok(ebb) ==> walk_trace_ok(
                df,
                entry_marks(df),
                entry_vars(df, *before),
                2,
                tree,
                tr,
            ) && ebb_matches(
                df,
                tr.alloc,
                entry_vars(df, *before),
                tree.children@,
                tr.instrs,
                before.slots_used as int,
                0,
                0,
                ebb.actions@,
                ebb.ending,
            ))
        }),
{
    // Work out what is where.
    let entry = dataflow.entry_node();
    let entry_outs = dataflow.outs(entry);
    let mut input_map: OutMap<Variable> = OutMap::new();
    let n_outs = entry_outs.len();
    let mut i: usize = 0;
    while i < n_outs
        invariant
            i <= n_outs,
            n_outs == entry_outs@.len(),
            n_outs == before.live_values@.len(),
            forall|t2: int|
                0 <= t2 < entry_outs@.len() ==> entry_outs@[t2] == (Out {
                    node: Node { index: 0 },
                    index: t2 as usize,
                }),
            forall|t2: int|
                0 <= t2 < i ==> input_map@.dom().contains(#[trigger] entry_outs@[t2]),
            forall|o: Out|
                #[trigger] input_map@.dom().contains(o) ==> o.node == (Node { index: 0 }) && 0
                    <= o.index < i && input_map@[o] == before.live_values@[o.index as int],
        decreases n_outs - i,
    {
        input_map.insert(entry_outs[i], before.live_values[i]);
        i = i + 1;
    }
    proof {
        assert(input_map@ =~= entry_vars(*dataflow, *before)) by {
            assert forall|o: Out| #[trigger]
                entry_vars(*dataflow, *before).dom().contains(o) implies input_map@.dom().contains(
                o,
            ) by {
                assert(entry_outs@[o.index as int] == o);
            }
        }
    }
    // Compute the keep-alive sets.
    let tree = keep_alive_sets(dataflow, cft);
    // Build the new EBB.
    let mut builder = Builder::new(dataflow);
    proof {
        dataflow.lemma_wf();
        assert(builder.marks@ =~= entry_marks(*dataflow));
        assert(only_hotter_marks(builder.marks@, 2)) by {
            assert forall|i2: int| 0 <= i2 < builder.marks@.len() implies builder.marks@[i2] == 0
                || (1 <= #[trigger] builder.marks@[i2] < 2) by {
                if i2 != 0 {
                    assert(builder.marks@[i2] == 0);
                }
            }
        }
        assert forall|o: Out|
            dataflow.is_out(o) && 1 <= builder.marks@[o.node.index as int] < 2 implies input_map@.dom().contains(o) by {
            if o.node.index != 0 {
                assert(builder.marks@[o.node.index as int] == 0);
            }
            assert(o.node == (Node { index: 0 }));
            assert(entry_outs@[o.index as int] == o);
        }
    }
    let (r, wtr) = builder.walk(&tree, 2, before.slots_used, &input_map);
    let ghost pair = (tree, wtr@);
    (r, Ghost(pair))
}

} // verus!
