//! Register allocation and instruction scheduling.
//!
//! [`allocate`] turns the dependency-ordered node list produced by the
//! flood into a sequence of [`Instruction`]s — the nodes in order,
//! interleaved with [`Instruction::Spill`]s — and assigns a destination
//! [`Register`] to every value the nodes define.  Values are spilled two
//! at a time, to keep the stack aligned, choosing the values whose next
//! use is furthest away.

use vstd::prelude::*;

use crate::code::{Register, Variable, NUM_REGISTERS};
use crate::dataflow::{Dataflow, Node, Out};
use crate::flood::{listed_nodes_wf, topo_ordered};
use crate::util::{NodeSet, OutMap};

verus! {

/// One scheduled step: execute a node, or move two values to fresh spill
/// slots.
#[derive(Debug, Copy, Clone, PartialEq, Eq, Structural)]
pub enum Instruction {
    /// Move the two values to the next two spill slots.
    Spill(Out, Out),
    /// Execute the node.
    Node(Node),
}

/// The register allocator cannot place the values: some node defines more
/// values than can be held in registers at once.
#[derive(Debug, Copy, Clone, PartialEq, Eq, Structural)]
pub struct AllocationFailure;

/// The values a guard needs to keep alive, by guard node.
#[derive(Debug)]
pub struct GuardKeeps {
    /// The guard node.
    pub guard: Node,
    /// The values that must stay alive until the guard has executed.
    pub keep_alives: Vec<Out>,
}

/// The nodes of a schedule, in order, with the spills left out.
pub open spec fn sched_of(instrs: Seq<Instruction>) -> Seq<Node>
    decreases instrs,
{
    if instrs.len() == 0 {
        Seq::empty()
    } else {
        sched_of(instrs.drop_last()) + (match instrs.last() {
            Instruction::Node(n) => seq![n],
            Instruction::Spill(_, _) => Seq::empty(),
        })
    }
}

/// `o` is spilled by the instruction at position `q`.
pub open spec fn spilled_at(instrs: Seq<Instruction>, o: Out, q: int) -> bool {
    &&& 0 <= q < instrs.len()
    &&& match instrs[q] {
        Instruction::Spill(o1, o2) => o1 == o || o2 == o,
        Instruction::Node(_) => false,
    }
}

/// Node `n` reads `o`, or is a guard that keeps `o` alive.
pub open spec fn uses_node(df: Dataflow, keeps: Seq<GuardKeeps>, n: Node, o: Out) -> bool {
    ||| df.ins(n).contains(o)
    ||| exists|k: int|
        0 <= k < keeps.len() && (#[trigger] keeps[k]).guard == n && keeps[k].keep_alives@.contains(
            o,
        )
}

/// `o` is retired at step `i`: it was spilled at or before `i`, or no node
/// from step `i` on uses it.
pub open spec fn retired(
    df: Dataflow,
    keeps: Seq<GuardKeeps>,
    nodes: Seq<Node>,
    spilli: Map<Out, int>,
    o: Out,
    i: int,
) -> bool {
    ||| (spilli.dom().contains(o) && spilli[o] <= i)
    ||| (forall|k: int| i <= k < nodes.len() ==> !uses_node(df, keeps, #[trigger] nodes[k], o))
}

/// The spill instructions of a schedule are well formed: each spills
/// two distinct placed values, values are spilled at most once, and a
/// value is never spilled by the instruction that defines it.
pub open spec fn spills_wf(
    instrs: Seq<Instruction>,
    alloc: Map<Out, Register>,
    variables: Map<Out, Variable>,
) -> bool {
    &&& forall|q: int|
        0 <= q < instrs.len() ==> (#[trigger] instrs[q] matches Instruction::Spill(o1, o2) ==> {
            &&& o1 != o2
            &&& (alloc.dom().contains(o1) || variables.dom().contains(o1))
            &&& (alloc.dom().contains(o2) || variables.dom().contains(o2))
        })
    &&& forall|q1: int, q2: int|
        0 <= q1 < q2 < instrs.len() ==> ((#[trigger] instrs[q1]) matches Instruction::Spill(
            a1,
            a2,
        ) ==> ((#[trigger] instrs[q2]) matches Instruction::Spill(b1, b2) ==> a1 != b1 && a1 != b2
            && a2 != b1 && a2 != b2))
}

/// `o` is an input that the caller placed in register `r`.
pub open spec fn input_in_register(variables: Map<Out, Variable>, o: Out, r: int) -> bool {
    &&& variables.dom().contains(o)
    &&& exists|reg: Register| variables[o] == Variable::Register(reg) && reg.index() == r
}

/// The record of one allocation, for reasoning: where each value was
/// defined, and at which step it was spilled, if it was.
pub ghost struct AllocTrace {
    /// For each value defined by the schedule, the index of its defining
    /// node in the node list.
    pub defi: Map<Out, int>,
    /// For each spilled value, the index of the node before which it was
    /// spilled.
    pub spilli: Map<Out, int>,
}

/// No two values that are live at the same step share a register:
/// whenever two distinct values are placed in the same register, the one
/// defined first is retired by the time the second is defined.
pub open spec fn allocation_valid(
    df: Dataflow,
    keeps: Seq<GuardKeeps>,
    nodes: Seq<Node>,
    variables: Map<Out, Variable>,
    alloc: Map<Out, Register>,
    tr: AllocTrace,
) -> bool {
    // Two values defined by the same node never share a register.
    &&& forall|o1: Out, o2: Out|
        alloc.dom().contains(o1) && alloc.dom().contains(o2) && o1 != o2 && o1.node == o2.node
            ==> #[trigger] alloc[o1] != #[trigger] alloc[o2]
    // A value defined later than another in its register finds it retired.
    &&& forall|o1: Out, o2: Out|
        #![trigger alloc.dom().contains(o1), alloc.dom().contains(o2)]
        alloc.dom().contains(o2) && alloc.dom().contains(o1) && o1 != o2 && alloc[o1] == alloc[o2]
            && tr.defi[o1] < tr.defi[o2] ==> retired(df, keeps, nodes, tr.spilli, o1, tr.defi[o2])
    // A value defined in a register holding an input finds the input
    // retired.
    &&& forall|o1: Out, o2: Out|
        #![trigger alloc.dom().contains(o2), input_in_register(variables, o1, alloc[o2].index())]
        alloc.dom().contains(o2) && !alloc.dom().contains(o1) && input_in_register(
            variables,
            o1,
            alloc[o2].index(),
        ) ==> retired(df, keeps, nodes, tr.spilli, o1, tr.defi[o2])
}

/// The bookkeeping of one node's assignments: the first `t4` values of
/// `node` are placed at definition index `i` and sit in their registers,
/// and nothing else of `node` is placed yet.
pub open spec fn assigned_book(
    node: Node,
    t4: int,
    i: int,
    alloc: Map<Out, Register>,
    defi: Map<Out, int>,
    occ: Seq<Option<Out>>,
) -> bool {
    &&& forall|o5: Out|
        o5.node == node && o5.index < t4 ==> #[trigger] alloc.dom().contains(o5) && defi[o5] == i
            && occ[alloc[o5].index()] == Some(o5)
    &&& forall|o5: Out| #[trigger] alloc.dom().contains(o5) && o5.node != node ==> defi[o5] < i
    &&& forall|o5: Out| #[trigger] alloc.dom().contains(o5) && o5.node == node ==> o5.index < t4
}

/// The allocator's running state for one register: empty, or holding a
/// value.
type Occupant = Option<Out>;

/// Appending a `Node` instruction appends to the schedule; appending a
/// `Spill` leaves it unchanged.
proof fn lemma_sched_push(instrs: Seq<Instruction>, instr: Instruction)
    ensures
        instr matches Instruction::Node(n) ==> sched_of(instrs.push(instr)) =~= sched_of(
            instrs,
        ).push(n),
        instr matches Instruction::Spill(_, _) ==> sched_of(instrs.push(instr)) =~= sched_of(
            instrs,
        ),
{
    assert(instrs.push(instr).drop_last() =~= instrs);
    assert(instrs.push(instr).last() == instr);
}

/// Every use of every value is recorded in the last-use map, at or after
/// the index of the using node.
pub open spec fn lu_bound(
    df: Dataflow,
    keeps: Seq<GuardKeeps>,
    nodes: Seq<Node>,
    lu: Map<Out, usize>,
) -> bool {
    forall|k: int, o: Out|
        0 <= k < nodes.len() && #[trigger] uses_node(df, keeps, nodes[k], o) ==> lu.dom().contains(
            o,
        ) && lu[o] >= k
}

/// The register-file mirror is coherent: a register's occupant is placed
/// in that register, and every placed value is in its register or
/// retired.
pub open spec fn occ_inv(
    df: Dataflow,
    keeps: Seq<GuardKeeps>,
    nodes: Seq<Node>,
    variables: Map<Out, Variable>,
    alloc: Map<Out, Register>,
    tr: AllocTrace,
    occ: Seq<Option<Out>>,
    i: int,
) -> bool {
    &&& occ.len() == NUM_REGISTERS
    &&& forall|r: int|
        0 <= r < occ.len() ==> (#[trigger] occ[r] matches Some(o) ==> {
            if alloc.dom().contains(o) {
                alloc[o].index() == r
            } else {
                input_in_register(variables, o, r)
            }
        })
    &&& forall|o: Out|
        #[trigger] alloc.dom().contains(o) ==> 0 <= alloc[o].index() < NUM_REGISTERS
    &&& forall|o: Out|
        #[trigger] alloc.dom().contains(o) ==> (occ[alloc[o].index()] == Some(o) || retired(
            df,
            keeps,
            nodes,
            tr.spilli,
            o,
            i,
        ))
    &&& forall|o: Out, r: int|
        #[trigger] input_in_register(variables, o, r) && 0 <= r < NUM_REGISTERS
            && !alloc.dom().contains(o) ==> (occ[r] == Some(o) || retired(
            df,
            keeps,
            nodes,
            tr.spilli,
            o,
            i,
        ))
    // A value still in a register has not been spilled.
    &&& forall|r: int|
        0 <= r < occ.len() ==> (#[trigger] occ[r] matches Some(o) ==> !tr.spilli.dom().contains(
            o,
        ))
    // Only placed values are ever spilled.
    &&& forall|o: Out|
        #[trigger] tr.spilli.dom().contains(o) ==> (alloc.dom().contains(o)
            || variables.dom().contains(o))
}

/// Looks for the first node from index `i` on that uses `o`; used only to
/// choose which values to spill.
fn next_use(
    dataflow: &Dataflow,
    keeps: &Vec<GuardKeeps>,
    nodes: &Vec<Node>,
    o: Out,
    i: usize,
) -> (r: usize)
    requires
        dataflow.wf(),
        listed_nodes_wf(*dataflow, nodes@),
    ensures
        r <= nodes@.len(),
{
    let n = nodes.len();
    let mut k: usize = i;
    if k > n {
        return n;
    }
    while k < n
        invariant
            k <= n,
            n == nodes@.len(),
            dataflow.wf(),
            listed_nodes_wf(*dataflow, nodes@),
        decreases n - k,
    {
        let node = nodes[k];
        let ins = dataflow.node_ins(node);
        let n_ins = ins.len();
        let mut j: usize = 0;
        while j < n_ins
            invariant
                j <= n_ins,
                n_ins == ins@.len(),
                k < n,
                n == nodes@.len(),
            decreases n_ins - j,
        {
            if ins[j] == o {
                return k;
            }
            j = j + 1;
        }
        let n_keeps = keeps.len();
        let mut kk: usize = 0;
        while kk < n_keeps
            invariant
                kk <= n_keeps,
                n_keeps == keeps@.len(),
                k < n,
                n == nodes@.len(),
            decreases n_keeps - kk,
        {
            if keeps[kk].guard == node {
                let ka = &keeps[kk].keep_alives;
                let n_ka = ka.len();
                let mut jj: usize = 0;
                while jj < n_ka
                    invariant
                        jj <= n_ka,
                        n_ka == ka@.len(),
                        k < n,
                        n == nodes@.len(),
                    decreases n_ka - jj,
                {
                    if ka[jj] == o {
                        return k;
                    }
                    jj = jj + 1;
                }
            }
            kk = kk + 1;
        }
        k = k + 1;
    }
    n
}



/// The free and the occupied registers together cover the register
/// file, so when fewer than `NUM_REGISTERS - 1` are free, at least two
/// are occupied.
proof fn lemma_two_victims(
    occupant: Seq<Option<Out>>,
    free_vec: Seq<usize>,
    occd: Seq<usize>,
)
    requires
        occupant.len() == NUM_REGISTERS,
        free_vec.no_duplicates(),
        forall|j: int|
            0 <= j < free_vec.len() ==> (#[trigger] free_vec[j]) < NUM_REGISTERS && occupant[
            free_vec[j] as int] is None,
        forall|r: int| 0 <= r < NUM_REGISTERS && occupant[r] is None ==> free_vec.contains(
            r as usize,
        ),
        forall|a: int, b: int| 0 <= a < b < occd.len() ==> (#[trigger] occd[a]) < (
        #[trigger] occd[b]),
        forall|j: int|
            0 <= j < occd.len() ==> (#[trigger] occd[j]) < NUM_REGISTERS && occupant[occd[
            j] as int] is Some,
        forall|r: int|
            0 <= r < NUM_REGISTERS && occupant[r] is Some ==> occd.contains(r as usize),
        free_vec.len() + 2 <= NUM_REGISTERS,
    ensures
        occd.len() >= 2,
{
    let f_ints = free_vec.map_values(|x: usize| x as int);
    let o_ints = occd.map_values(|x: usize| x as int);
    assert(f_ints.no_duplicates()) by {
        assert forall|a: int, b: int|
            0 <= a < f_ints.len() && 0 <= b < f_ints.len() && a != b implies f_ints[a]
            != f_ints[b] by {
            assert(free_vec[a] != free_vec[b]);
        }
    }
    assert(o_ints.no_duplicates()) by {
        assert forall|a: int, b: int|
            0 <= a < o_ints.len() && 0 <= b < o_ints.len() && a != b implies o_ints[a]
            != o_ints[b] by {
            if a < b {
                assert(occd[a] < occd[b]);
            } else {
                assert(occd[b] < occd[a]);
            }
        }
    }
    f_ints.unique_seq_to_set();
    o_ints.unique_seq_to_set();
    let range = vstd::set_lib::set_int_range(0, NUM_REGISTERS as int);
    vstd::set_lib::lemma_int_range(0, NUM_REGISTERS as int);
    assert(range.subset_of(f_ints.to_set().union(o_ints.to_set()))) by {
        assert forall|x: int| range.contains(x) implies f_ints.to_set().union(
            o_ints.to_set(),
        ).contains(x) by {
            if occupant[x] is None {
                assert(free_vec.contains(x as usize));
                let j = choose|j: int| 0 <= j < free_vec.len() && free_vec[j] == x as usize;
                assert(f_ints[j] == x);
                assert(f_ints.contains(x));
                assert(f_ints.to_set().contains(x));
            } else {
                assert(occd.contains(x as usize));
                let j = choose|j: int| 0 <= j < occd.len() && occd[j] == x as usize;
                assert(o_ints[j] == x);
                assert(o_ints.contains(x));
                assert(o_ints.to_set().contains(x));
            }
        }
    }
    vstd::set_lib::lemma_len_union(f_ints.to_set(), o_ints.to_set());
    vstd::set_lib::lemma_len_subset(range, f_ints.to_set().union(o_ints.to_set()));
}


/// Spilling two register-resident values: the mirror invariant and the
/// validity of the allocation survive, because the two values are
/// freshly retired by their spill records and everything else is
/// untouched.
#[verifier::rlimit(100)]
#[verifier::spinoff_prover]
proof fn lemma_spill_update(
    df: Dataflow,
    keeps: Seq<GuardKeeps>,
    nodes: Seq<Node>,
    variables: Map<Out, Variable>,
    alloc: Map<Out, Register>,
    defi: Map<Out, int>,
    spilli0: Map<Out, int>,
    spilli: Map<Out, int>,
    occ0: Seq<Option<Out>>,
    occ1: Seq<Option<Out>>,
    i: int,
    oc1: Out,
    oc2: Out,
    vr1: int,
    vr2: int,
)
    requires
        occ_inv(df, keeps, nodes, variables, alloc, AllocTrace { defi, spilli: spilli0 }, occ0, i),
        allocation_valid(df, keeps, nodes, variables, alloc, AllocTrace { defi, spilli: spilli0 }),
        forall|o1: Out, o2: Out, r2: int|
            input_in_register(variables, o1, r2) && input_in_register(variables, o2, r2) ==> o1
                == o2,
        0 <= vr1 < NUM_REGISTERS,
        0 <= vr2 < NUM_REGISTERS,
        vr1 != vr2,
        oc1 != oc2,
        occ0[vr1] == Some(oc1),
        occ0[vr2] == Some(oc2),
        spilli == spilli0.insert(oc1, i).insert(oc2, i),
        occ1 =~= occ0.update(vr1, Option::None).update(vr2, Option::None),
    ensures
        occ_inv(df, keeps, nodes, variables, alloc, AllocTrace { defi, spilli }, occ1, i),
        allocation_valid(df, keeps, nodes, variables, alloc, AllocTrace { defi, spilli }),
        !spilli0.dom().contains(oc1),
        !spilli0.dom().contains(oc2),
{
    let tr1 = AllocTrace { defi, spilli };
    assert(!spilli0.dom().contains(oc1));
    assert(!spilli0.dom().contains(oc2));
    lemma_spill_valid(df, keeps, nodes, variables, alloc, defi, spilli0, spilli, i, oc1, oc2);
    // The register mirror stays coherent: the spilled values are now
    // retired.
    assert forall|o: Out| #[trigger]
        alloc.dom().contains(o) implies (occ1[alloc[o].index()] == Some(o) || retired(
        df,
        keeps,
        nodes,
        spilli,
        o,
        i,
    )) by {
        if o == oc1 || o == oc2 {
            assert(spilli.dom().contains(o) && spilli[o] <= i);
        } else {
            if occ1[alloc[o].index()] != Some(o) {
                if retired(df, keeps, nodes, spilli0, o, i) {
                    assert(retired(df, keeps, nodes, spilli, o, i)) by {
                        if spilli0.dom().contains(o) && spilli0[o] <= i {
                            assert(o != oc1 && o != oc2);
                            assert(spilli[o] == spilli0[o]);
                        }
                    }
                } else {
                    assert(alloc[o].index() != vr1 && alloc[o].index() != vr2);
                }
            }
        }
    }
    assert forall|o: Out, r: int| #[trigger]
        input_in_register(variables, o, r) && 0 <= r < NUM_REGISTERS && !alloc.dom().contains(
        o,
    ) implies (occ1[r] == Some(o) || retired(df, keeps, nodes, spilli, o, i)) by {
        if o == oc1 || o == oc2 {
            assert(spilli.dom().contains(o) && spilli[o] <= i);
        } else {
            if occ1[r] != Some(o) {
                if retired(df, keeps, nodes, spilli0, o, i) {
                    assert(retired(df, keeps, nodes, spilli, o, i)) by {
                        if spilli0.dom().contains(o) && spilli0[o] <= i {
                            assert(o != oc1 && o != oc2);
                            assert(spilli[o] == spilli0[o]);
                        }
                    }
                } else {
                    assert(r != vr1 && r != vr2);
                }
            }
        }
    }
    // The remaining occupants are unspilled.
    assert forall|r: int|
        0 <= r < occ1.len() implies (#[trigger] occ1[r] matches Some(o3)
        ==> !tr1.spilli.dom().contains(o3)) by {
        if occ1[r] is Some {
            let o3 = occ1[r]->0;
            assert(r != vr1 && r != vr2);
            assert(occ0[r] == Some(o3));
            if o3 == oc1 {
                // Two registers would hold the same value.
                if alloc.dom().contains(oc1) {
                    assert(alloc[oc1].index() == r);
                    assert(alloc[oc1].index() == vr1);
                } else {
                    assert(input_in_register(variables, oc1, r));
                    assert(input_in_register(variables, oc1, vr1));
                    let rg1 = choose|rg: Register|
                        variables[oc1] == Variable::Register(rg) && rg.index() == r;
                    let rg2 = choose|rg: Register|
                        variables[oc1] == Variable::Register(rg) && rg.index() == vr1;
                    assert(rg1 == rg2);
                }
                assert(false);
            }
            if o3 == oc2 {
                if alloc.dom().contains(oc2) {
                    assert(alloc[oc2].index() == r);
                    assert(alloc[oc2].index() == vr2);
                } else {
                    assert(input_in_register(variables, oc2, r));
                    assert(input_in_register(variables, oc2, vr2));
                    let rg1 = choose|rg: Register|
                        variables[oc2] == Variable::Register(rg) && rg.index() == r;
                    let rg2 = choose|rg: Register|
                        variables[oc2] == Variable::Register(rg) && rg.index() == vr2;
                    assert(rg1 == rg2);
                }
                assert(false);
            }
            assert(!spilli0.dom().contains(o3));
        }
    }
    // Only placed values are spilled.
    assert forall|o3: Out| #[trigger]
        tr1.spilli.dom().contains(o3) implies (alloc.dom().contains(o3)
        || variables.dom().contains(o3)) by {
        if o3 == oc1 {
            assert(occ0[vr1] == Some(oc1));
        } else if o3 == oc2 {
            assert(occ0[vr2] == Some(oc2));
        } else {
            assert(spilli0.dom().contains(o3));
        }
    }
}


/// The validity half of a spill: `retired` only grows with the spill
/// map, so every pair that was separated stays separated.
#[verifier::rlimit(100)]
#[verifier::spinoff_prover]
proof fn lemma_spill_valid(
    df: Dataflow,
    keeps: Seq<GuardKeeps>,
    nodes: Seq<Node>,
    variables: Map<Out, Variable>,
    alloc: Map<Out, Register>,
    defi: Map<Out, int>,
    spilli0: Map<Out, int>,
    spilli: Map<Out, int>,
    i: int,
    oc1: Out,
    oc2: Out,
)
    requires
        allocation_valid(df, keeps, nodes, variables, alloc, AllocTrace { defi, spilli: spilli0 }),
        !spilli0.dom().contains(oc1),
        !spilli0.dom().contains(oc2),
        spilli == spilli0.insert(oc1, i).insert(oc2, i),
    ensures
        allocation_valid(df, keeps, nodes, variables, alloc, AllocTrace { defi, spilli }),
{
    let tr1 = AllocTrace { defi, spilli };
    assert forall|o1: Out, o2: Out|
        #![trigger alloc.dom().contains(o1), alloc.dom().contains(o2)]
        alloc.dom().contains(o2) && alloc.dom().contains(o1) && o1 != o2 && alloc[o1] == alloc[o2]
            && tr1.defi[o1] < tr1.defi[o2] implies retired(
        df,
        keeps,
        nodes,
        tr1.spilli,
        o1,
        tr1.defi[o2],
    ) by {
        assert(retired(df, keeps, nodes, spilli0, o1, defi[o2]));
        assert(retired(df, keeps, nodes, spilli, o1, defi[o2])) by {
            if spilli0.dom().contains(o1) && spilli0[o1] <= defi[o2] {
                assert(o1 != oc1 && o1 != oc2);
                assert(spilli[o1] == spilli0[o1]);
            }
        }
    }
    assert forall|o1: Out, o2: Out|
        #![trigger alloc.dom().contains(o2), input_in_register(variables, o1, alloc[o2].index())]
        alloc.dom().contains(o2) && !alloc.dom().contains(o1) && input_in_register(
            variables,
            o1,
            alloc[o2].index(),
        ) implies retired(df, keeps, nodes, tr1.spilli, o1, tr1.defi[o2]) by {
        assert(retired(df, keeps, nodes, spilli0, o1, defi[o2]));
        assert(retired(df, keeps, nodes, spilli, o1, defi[o2])) by {
            if spilli0.dom().contains(o1) && spilli0[o1] <= defi[o2] {
                assert(o1 != oc1 && o1 != oc2);
                assert(spilli[o1] == spilli0[o1]);
            }
        }
    }
}

/// Computes, for every value, the index of the last node that uses it:
/// its last read, or the last guard that keeps it alive.
fn compute_last_use(
    dataflow: &Dataflow,
    keeps: &Vec<GuardKeeps>,
    nodes: &Vec<Node>,
) -> (lu: OutMap<usize>)
    requires
        dataflow.wf(),
        listed_nodes_wf(*dataflow, nodes@),
    ensures
        lu_bound(*dataflow, keeps@, nodes@, lu@),
{
    let mut lu: OutMap<usize> = OutMap::new();
    let n = nodes.len();
    let mut i: usize = 0;
    while i < n
        invariant
            i <= n,
            n == nodes@.len(),
            dataflow.wf(),
            listed_nodes_wf(*dataflow, nodes@),
            forall|k: int, o: Out|
                0 <= k < i && #[trigger] uses_node(*dataflow, keeps@, nodes@[k], o)
                    ==> lu@.dom().contains(o) && lu@[o] >= k,
        decreases n - i,
    {
        let node = nodes[i];
        let ins = dataflow.node_ins(node);
        let n_ins = ins.len();
        let mut j: usize = 0;
        while j < n_ins
            invariant
                j <= n_ins,
                i < n,
                n == nodes@.len(),
                node == nodes@[i as int],
                n_ins == ins@.len(),
                ins@ =~= dataflow.ins(nodes@[i as int]),
                forall|k: int, o: Out|
                    0 <= k < i && #[trigger] uses_node(*dataflow, keeps@, nodes@[k], o)
                        ==> lu@.dom().contains(o) && lu@[o] >= k,
            forall|jj: int|
                0 <= jj < j ==> lu@.dom().contains(#[trigger] ins@[jj]) && lu@[ins@[jj]] >= i,
            decreases n_ins - j,
        {
            lu.insert(ins[j], i);
            j = j + 1;
        }
        let n_keeps = keeps.len();
        let mut kk: usize = 0;
        while kk < n_keeps
            invariant
                kk <= n_keeps,
                i < n,
                n == nodes@.len(),
                node == nodes@[i as int],
                n_keeps == keeps@.len(),
                forall|k: int, o: Out|
                    0 <= k < i && #[trigger] uses_node(*dataflow, keeps@, nodes@[k], o)
                        ==> lu@.dom().contains(o) && lu@[o] >= k,
                forall|jj: int|
                    0 <= jj < dataflow.ins(nodes@[i as int]).len() ==> lu@.dom().contains(
                        #[trigger] dataflow.ins(nodes@[i as int])[jj],
                    ) && lu@[dataflow.ins(nodes@[i as int])[jj]] >= i,
                forall|k2: int, jj: int|
                    0 <= k2 < kk && (#[trigger] keeps@[k2]).guard == nodes@[i as int] && 0 <= jj
                        < keeps@[k2].keep_alives@.len() ==> lu@.dom().contains(
                        #[trigger] keeps@[k2].keep_alives@[jj],
                    ) && lu@[keeps@[k2].keep_alives@[jj]] >= i,
            decreases n_keeps - kk,
        {
            if keeps[kk].guard == node {
                let ka = &keeps[kk].keep_alives;
                let n_ka = ka.len();
                let mut jj: usize = 0;
                while jj < n_ka
                    invariant
                        jj <= n_ka,
                        i < n,
                        kk < n_keeps,
                        n == nodes@.len(),
                        node == nodes@[i as int],
                        n_keeps == keeps@.len(),
                        n_ka == ka@.len(),
                        ka@ =~= keeps@[kk as int].keep_alives@,
                        keeps@[kk as int].guard == nodes@[i as int],
                        forall|k: int, o: Out|
                            0 <= k < i && #[trigger] uses_node(*dataflow, keeps@, nodes@[k], o)
                                ==> lu@.dom().contains(o) && lu@[o] >= k,
                        forall|jj2: int|
                            0 <= jj2 < dataflow.ins(nodes@[i as int]).len() ==> lu@.dom().contains(
                                #[trigger] dataflow.ins(nodes@[i as int])[jj2],
                            ) && lu@[dataflow.ins(nodes@[i as int])[jj2]] >= i,
                        forall|k2: int, jj2: int|
                            0 <= k2 < kk && (#[trigger] keeps@[k2]).guard == nodes@[i as int] && 0
                                <= jj2 < keeps@[k2].keep_alives@.len() ==> lu@.dom().contains(
                                #[trigger] keeps@[k2].keep_alives@[jj2],
                            ) && lu@[keeps@[k2].keep_alives@[jj2]] >= i,
                        forall|jj2: int|
                            0 <= jj2 < jj ==> lu@.dom().contains(#[trigger] ka@[jj2])
                                && lu@[ka@[jj2]] >= i,
                    decreases n_ka - jj,
                {
                    lu.insert(ka[jj], i);
                    jj = jj + 1;
                }
            }
            kk = kk + 1;
        }
        proof {
            assert forall|o: Out| #[trigger]
                uses_node(*dataflow, keeps@, nodes@[i as int], o) implies lu@.dom().contains(o)
                && lu@[o] >= i by {
                if dataflow.ins(nodes@[i as int]).contains(o) {
                    let jj = choose|jj: int|
                        0 <= jj < dataflow.ins(nodes@[i as int]).len() && dataflow.ins(
                            nodes@[i as int],
                        )[jj] == o;
                    assert(lu@.dom().contains(dataflow.ins(nodes@[i as int])[jj]));
                } else {
                    let k2 = choose|k2: int|
                        0 <= k2 < keeps@.len() && (#[trigger] keeps@[k2]).guard == nodes@[i as int]
                            && keeps@[k2].keep_alives@.contains(o);
                    let jj = choose|jj: int|
                        0 <= jj < keeps@[k2].keep_alives@.len() && keeps@[k2].keep_alives@[jj] == o;
                    assert(lu@.dom().contains(keeps@[k2].keep_alives@[jj]));
                }
            }
        }
        i = i + 1;
    }
    lu
}

/// Schedules `nodes` and assigns a destination register to every value
/// they define.
///
/// The nodes are emitted in the given order, which already respects
/// their data and effect dependencies, interleaved with
/// [`Instruction::Spill`]s; every value defined by a node is mapped to a
/// register, and no two values that are live at the same step share one.
/// The values a guard keeps alive count as used at the guard, so their
/// registers are not reused before it.  Fails exactly when some node
/// defines more values than the register file can hold at once while
/// leaving room to spill in pairs.
///
/// When registers run short, the two victims are the occupied values
/// whose next use lies farthest ahead, found by scanning the registers
/// in file order; a tie between equally distant values therefore falls
/// to the lower-numbered register.  Any choice of victims preserves the
/// contract; this one merely pins the output.
#[verifier::rlimit(100)]
#[verifier::spinoff_prover]
pub fn allocate(
    effects: &NodeSet,
    variables: &OutMap<Variable>,
    dataflow: &Dataflow,
    nodes: &Vec<Node>,
    keeps: &Vec<GuardKeeps>,
) -> (r: Result<(Vec<Instruction>, OutMap<Register>, Ghost<AllocTrace>), AllocationFailure>)
    requires
        dataflow.wf(),
        listed_nodes_wf(*dataflow, nodes@),
        topo_ordered(*dataflow, nodes@),
        // The inputs are defined by other, hotter nodes.
        forall|o: Out| #[trigger] variables@.dom().contains(o) ==> !nodes@.contains(o.node),
        // The caller has placed at most one input in each register.
        forall|o1: Out, o2: Out, r: int|
            input_in_register(variables@, o1, r) && input_in_register(variables@, o2, r) ==> o1
                == o2,
    ensures
        match r {
            Ok((instrs, alloc, tr)) => {
                &&& sched_of(instrs@) =~= nodes@
                &&& topo_ordered(*dataflow, sched_of(instrs@))
                &&& forall|o: Out|
                    #[trigger] alloc@.dom().contains(o) <==> ((exists|k: int|
                        0 <= k < nodes@.len() && (#[trigger] nodes@[k]) == o.node) && 0 <= o.index
                        < dataflow.num_outs(o.node))
                &&& tr@.defi.dom() =~= alloc@.dom()
                &&& forall|o: Out|
                    #[trigger] alloc@.dom().contains(o) ==> 0 <= tr@.defi[o] < nodes@.len()
                        && nodes@[tr@.defi[o]] == o.node
                &&& allocation_valid(*dataflow, keeps@, nodes@, variables@, alloc@, tr@)
                &&& forall|o: Out|
                    #[trigger] tr@.spilli.dom().contains(o) ==> exists|q: int|
                        spilled_at(instrs@, o, q)
                &&& spills_wf(instrs@, alloc@, variables@)
                &&& forall|k: int|
                    0 <= k < nodes@.len() ==> dataflow.num_outs(#[trigger] nodes@[k])
                        < NUM_REGISTERS
            },
            Err(_) => exists|k: int|
                0 <= k < nodes@.len() && dataflow.num_outs(#[trigger] nodes@[k])
                    >= NUM_REGISTERS,
        },
{
    let n = nodes.len();
    let lu = compute_last_use(dataflow, keeps, nodes);
    let mut occupant: Vec<Option<Out>> = Vec::new();
    let mut r0: usize = 0;
    while r0 < NUM_REGISTERS
        invariant
            r0 <= NUM_REGISTERS,
            occupant@.len() == r0,
            forall|r: int| 0 <= r < r0 ==> (#[trigger] occupant@[r]) is None,
        decreases NUM_REGISTERS - r0,
    {
        occupant.push(None);
        r0 = r0 + 1;
    }
    // Place the inputs that the caller holds in registers.
    let n_vars = variables.num_entries();
    let mut vi: usize = 0;
    proof {
        use_type_invariant(variables);
        variables.lemma_entries();
        assert(forall|i2: int|
            0 <= i2 < variables.kv().len() ==> #[trigger] variables@.dom().contains(
                variables.kv()[i2].0,
            ) && variables@[variables.kv()[i2].0] == variables.kv()[i2].1);
    }
    while vi < n_vars
        invariant
            vi <= n_vars,
            n_vars == variables.kv().len(),
            occupant@.len() == NUM_REGISTERS,
            forall|i2: int|
                0 <= i2 < variables.kv().len() ==> #[trigger] variables@.dom().contains(
                    variables.kv()[i2].0,
                ) && variables@[variables.kv()[i2].0] == variables.kv()[i2].1,
            forall|k: Out|
                #[trigger] variables@.dom().contains(k) ==> exists|i2: int|
                    0 <= i2 < variables.kv().len() && variables.kv()[i2].0 == k,
            forall|i2: int, j2: int|
                0 <= i2 < j2 < variables.kv().len() ==> (#[trigger] variables.kv()[i2]).0 != (
                #[trigger] variables.kv()[j2]).0,
            forall|o1: Out, o2: Out, r: int|
                input_in_register(variables@, o1, r) && input_in_register(variables@, o2, r)
                    ==> o1 == o2,
            // Registers hold only inputs placed there, and every
            // processed register-input is in place.
            forall|r: int|
                0 <= r < NUM_REGISTERS ==> (#[trigger] occupant@[r] matches Some(o)
                    ==> input_in_register(variables@, o, r)),
            forall|i2: int|
                0 <= i2 < vi ==> ((#[trigger] variables.kv()[i2]).1 matches Variable::Register(
                    reg,
                ) ==> 0 <= reg.index() < NUM_REGISTERS && occupant@[reg.index()] == Some(
                    variables.kv()[i2].0,
                )),
        decreases n_vars - vi,
    {
        let (o, v) = variables.entry_at(vi);
        match v {
            Variable::Register(reg) => {
                let r = reg.as_index() as usize;
                let ghost occ_pre = occupant@;
                proof {
                    assert(variables.kv()[vi as int].0 == o);
                    assert(variables@.dom().contains(variables.kv()[vi as int].0));
                    assert(variables@[o] == v);
                    assert(input_in_register(variables@, o, reg.index()));
                }
                occupant.set(r, Some(o));
                proof {
                    assert forall|i2: int|
                        0 <= i2 < vi + 1 implies ((#[trigger] variables.kv()[i2]).1
                        matches Variable::Register(reg2) ==> 0 <= reg2.index() < NUM_REGISTERS
                        && occupant@[reg2.index()] == Some(variables.kv()[i2].0)) by {
                        if i2 < vi {
                            let v2 = variables.kv()[i2].1;
                            assert(variables@.dom().contains(variables.kv()[i2].0));
                            assert(variables@[variables.kv()[i2].0] == v2);
                            if v2 is Register {
                                let reg2 = v2->Register_0;
                                assert(0 <= reg2.index() < NUM_REGISTERS);
                                assert(input_in_register(
                                    variables@,
                                    variables.kv()[i2].0,
                                    reg2.index(),
                                ));
                                if reg2.index() == reg.index() {
                                    assert(variables.kv()[i2].0 == o);
                                    let a = i2;
                                    let b = vi as int;
                                    assert(variables.kv()[a].0 != variables.kv()[b].0);
                                    assert(false);
                                }
                                assert(occ_pre[reg2.index()] == Some(variables.kv()[i2].0));
                                assert(occupant@[reg2.index()] == occ_pre[reg2.index()]);
                            }
                        } else {
                            assert(occupant@[reg.index()] == Some(o));
                        }
                    }
                }
            },
            Variable::Slot(_) => {},
        }
        vi = vi + 1;
    }
    // Collect the registers that are free on entry.
    let mut free_vec: Vec<usize> = Vec::new();
    let mut r1: usize = 0;
    while r1 < NUM_REGISTERS
        invariant
            r1 <= NUM_REGISTERS,
            occupant@.len() == NUM_REGISTERS,
            free_vec@.no_duplicates(),
            forall|j: int|
                0 <= j < free_vec@.len() ==> (#[trigger] free_vec@[j]) < r1 && occupant@[
                free_vec@[j] as int] is None,
            forall|r: int|
                0 <= r < r1 && occupant@[r] is None ==> free_vec@.contains(r as usize),
        decreases NUM_REGISTERS - r1,
    {
        if occupant[r1].is_none() {
            let ghost fv0 = free_vec@;
            free_vec.push(r1);
            proof {
                assert forall|r: int|
                    0 <= r < r1 + 1 && occupant@[r] is None implies free_vec@.contains(
                    r as usize,
                ) by {
                    if r < r1 {
                        assert(fv0.contains(r as usize));
                        let j = choose|j: int| 0 <= j < fv0.len() && fv0[j] == r as usize;
                        assert(free_vec@[j] == r as usize);
                    } else {
                        assert(free_vec@[free_vec@.len() - 1] == r1);
                    }
                }
            }
        }
        r1 = r1 + 1;
    }
    let mut alloc: OutMap<Register> = OutMap::new();
    let mut instrs: Vec<Instruction> = Vec::new();
    let ghost mut defi: Map<Out, int> = Map::empty();
    let ghost mut spilli: Map<Out, int> = Map::empty();
    let mut i: usize = 0;
    proof {
        assert(sched_of(instrs@) =~= nodes@.subrange(0, 0));
        assert(defi.dom() =~= alloc@.dom());
        // Every register-placed input is in its register.
        assert forall|o: Out, r: int| #[trigger]
            input_in_register(variables@, o, r) && 0 <= r < NUM_REGISTERS
            && !alloc@.dom().contains(o) implies (occupant@[r] == Some(o) || retired(
            *dataflow,
            keeps@,
            nodes@,
            spilli,
            o,
            0,
        )) by {
            let i2 = choose|i2: int|
                0 <= i2 < variables.kv().len() && variables.kv()[i2].0 == o;
            let reg = choose|reg: Register|
                variables@[o] == Variable::Register(reg) && reg.index() == r;
            assert(variables@[variables.kv()[i2].0] == variables.kv()[i2].1);
            assert(variables.kv()[i2].1 == Variable::Register(reg));
            assert(occupant@[reg.index()] == Some(o));
        }
    }
    while i < n
        invariant
            i <= n,
            n == nodes@.len(),
            dataflow.wf(),
            listed_nodes_wf(*dataflow, nodes@),
            lu_bound(*dataflow, keeps@, nodes@, lu@),
            forall|o: Out| #[trigger] variables@.dom().contains(o) ==> !nodes@.contains(o.node),
            forall|o1: Out, o2: Out, r: int|
                input_in_register(variables@, o1, r) && input_in_register(variables@, o2, r)
                    ==> o1 == o2,
            occ_inv(
                *dataflow,
                keeps@,
                nodes@,
                variables@,
                alloc@,
                AllocTrace { defi, spilli },
                occupant@,
                i as int,
            ),
            free_vec@.no_duplicates(),
            forall|j: int|
                0 <= j < free_vec@.len() ==> (#[trigger] free_vec@[j]) < NUM_REGISTERS
                    && occupant@[free_vec@[j] as int] is None,
            forall|r: int|
                0 <= r < NUM_REGISTERS && occupant@[r] is None ==> free_vec@.contains(r as usize),
            defi.dom() =~= alloc@.dom(),
            forall|o: Out|
                #[trigger] alloc@.dom().contains(o) ==> 0 <= defi[o] < i && nodes@[defi[o]]
                    == o.node && 0 <= o.index < dataflow.num_outs(o.node),
            forall|o: Out|
                ((exists|k: int| 0 <= k < i && (#[trigger] nodes@[k]) == o.node) && 0 <= o.index
                    < dataflow.num_outs(o.node)) ==> #[trigger] alloc@.dom().contains(o),
            allocation_valid(
                *dataflow,
                keeps@,
                nodes@,
                variables@,
                alloc@,
                AllocTrace { defi, spilli },
            ),
            forall|o: Out|
                #[trigger] spilli.dom().contains(o) ==> 0 <= spilli[o] <= i as int && exists|q: int|
                    spilled_at(instrs@, o, q),
            sched_of(instrs@) =~= nodes@.subrange(0, i as int),
            forall|q: int|
                0 <= q < instrs@.len() ==> (#[trigger] instrs@[q] matches Instruction::Spill(
                    a,
                    b,
                ) ==> spilli.dom().contains(a) && spilli.dom().contains(b)),
            spills_wf(instrs@, alloc@, variables@),
            forall|k: int|
                0 <= k < i ==> dataflow.num_outs(#[trigger] nodes@[k]) < NUM_REGISTERS,
        decreases n - i,
    {
        let node = nodes[i];
        let num_outs = dataflow.node_num_outs(node);
        if num_outs >= NUM_REGISTERS {
            return Err(AllocationFailure);
        }
        // Free the registers whose values have no further use.
        let mut r2: usize = 0;
        while r2 < NUM_REGISTERS
            invariant
                r2 <= NUM_REGISTERS,
                i < n,
                n == nodes@.len(),
                node == nodes@[i as int],
                dataflow.wf(),
                listed_nodes_wf(*dataflow, nodes@),
                lu_bound(*dataflow, keeps@, nodes@, lu@),
                occ_inv(
                    *dataflow,
                    keeps@,
                    nodes@,
                    variables@,
                    alloc@,
                    AllocTrace { defi, spilli },
                    occupant@,
                    i as int,
                ),
                free_vec@.no_duplicates(),
                forall|j: int|
                    0 <= j < free_vec@.len() ==> (#[trigger] free_vec@[j]) < NUM_REGISTERS
                        && occupant@[free_vec@[j] as int] is None,
                forall|r: int|
                    0 <= r < NUM_REGISTERS && occupant@[r] is None ==> free_vec@.contains(
                        r as usize,
                    ),
            decreases NUM_REGISTERS - r2,
        {
            let mut free_it = false;
            match occupant[r2] {
                Some(oc) => {
                    match lu.get(oc) {
                        None => {
                            free_it = true;
                        },
                        Some(l) => {
                            if l < i {
                                free_it = true;
                            }
                        },
                    }
                    if free_it {
                        proof {
                            // `oc` has no use at step `i` or later.
                            assert forall|k: int|
                                i as int <= k < nodes@.len() implies !uses_node(
                                *dataflow,
                                keeps@,
                                #[trigger] nodes@[k],
                                oc,
                            ) by {
                                if uses_node(*dataflow, keeps@, nodes@[k], oc) {
                                    assert(lu@.dom().contains(oc) && lu@[oc] >= k);
                                }
                            }
                            assert(retired(
                                *dataflow,
                                keeps@,
                                nodes@,
                                spilli,
                                oc,
                                i as int,
                            ));
                        }
                        occupant.set(r2, None);
                        let ghost fv0 = free_vec@;
                        free_vec.push(r2);
                        proof {
                            assert forall|r: int|
                                0 <= r < NUM_REGISTERS && occupant@[r] is None implies free_vec@.contains(r as usize) by {
                                if r != r2 as int {
                                    assert(fv0.contains(r as usize));
                                    let j = choose|j: int|
                                        0 <= j < fv0.len() && fv0[j] == r as usize;
                                    assert(free_vec@[j] == r as usize);
                                } else {
                                    assert(free_vec@[free_vec@.len() - 1] == r2);
                                }
                            }
                        }
                    }
                },
                None => {},
            }
            r2 = r2 + 1;
        }
        proof {
            vstd::set_lib::lemma_int_range(0, NUM_REGISTERS as int);
        }
        // Spill values, two at a time, until enough registers are free.
        while free_vec.len() < num_outs
            invariant
                i < n,
                n == nodes@.len(),
                node == nodes@[i as int],
                num_outs == dataflow.num_outs(node),
                num_outs < NUM_REGISTERS,
                dataflow.wf(),
                listed_nodes_wf(*dataflow, nodes@),
                lu_bound(*dataflow, keeps@, nodes@, lu@),
                forall|o1: Out, o2: Out, r: int|
                    input_in_register(variables@, o1, r) && input_in_register(variables@, o2, r)
                        ==> o1 == o2,
                occ_inv(
                    *dataflow,
                    keeps@,
                    nodes@,
                    variables@,
                    alloc@,
                    AllocTrace { defi, spilli },
                    occupant@,
                    i as int,
                ),
                free_vec@.no_duplicates(),
                forall|j: int|
                    0 <= j < free_vec@.len() ==> (#[trigger] free_vec@[j]) < NUM_REGISTERS
                        && occupant@[free_vec@[j] as int] is None,
                forall|r: int|
                    0 <= r < NUM_REGISTERS && occupant@[r] is None ==> free_vec@.contains(
                        r as usize,
                    ),
                forall|o: Out|
                    #[trigger] spilli.dom().contains(o) ==> 0 <= spilli[o] <= i as int && exists|
                        q: int,
                    | spilled_at(instrs@, o, q),
                sched_of(instrs@) =~= nodes@.subrange(0, i as int),
                forall|q: int|
                    0 <= q < instrs@.len() ==> (#[trigger] instrs@[q] matches Instruction::Spill(
                        a,
                        b,
                    ) ==> spilli.dom().contains(a) && spilli.dom().contains(b)),
                spills_wf(instrs@, alloc@, variables@),
                allocation_valid(
                    *dataflow,
                    keeps@,
                    nodes@,
                    variables@,
                    alloc@,
                    AllocTrace { defi, spilli },
                ),
                defi.dom() =~= alloc@.dom(),
                forall|o: Out|
                    #[trigger] alloc@.dom().contains(o) ==> 0 <= defi[o] < i && nodes@[defi[o]]
                        == o.node && 0 <= o.index < dataflow.num_outs(o.node),
            decreases num_outs + 2 - free_vec@.len(),
        {
            // Collect the occupied registers.
            let mut occd: Vec<usize> = Vec::new();
            let mut r3: usize = 0;
            while r3 < NUM_REGISTERS
                invariant
                    r3 <= NUM_REGISTERS,
                    occupant@.len() == NUM_REGISTERS,
                    forall|a: int, b: int|
                        0 <= a < b < occd@.len() ==> (#[trigger] occd@[a]) < (
                        #[trigger] occd@[b]),
                    forall|j: int|
                        0 <= j < occd@.len() ==> (#[trigger] occd@[j]) < r3 && occupant@[occd@[
                        j] as int] is Some,
                    forall|r: int|
                        0 <= r < r3 && occupant@[r] is Some ==> occd@.contains(r as usize),
                decreases NUM_REGISTERS - r3,
            {
                if occupant[r3].is_some() {
                    let ghost od0 = occd@;
                    occd.push(r3);
                    proof {
                        assert forall|r: int|
                            0 <= r < r3 + 1 && occupant@[r] is Some implies occd@.contains(
                            r as usize,
                        ) by {
                            if r < r3 {
                                assert(od0.contains(r as usize));
                                let j = choose|j: int| 0 <= j < od0.len() && od0[j] == r as usize;
                                assert(occd@[j] == r as usize);
                            } else {
                                assert(occd@[occd@.len() - 1] == r3);
                            }
                        }
                    }
                }
                r3 = r3 + 1;
            }
            // There are at least two: the free and the occupied registers
            // together cover the whole register file.
            proof {
                lemma_two_victims(occupant@, free_vec@, occd@);
            }
            // Choose the two values whose next use is furthest away.
            let n_occd = occd.len();
            let mut best1: usize = 0;
            let mut best1_nu: usize = {
                let oc = occupant[occd[0]].unwrap();
                next_use(dataflow, keeps, nodes, oc, i)
            };
            let mut t: usize = 1;
            while t < n_occd
                invariant
                    1 <= t <= n_occd,
                    n_occd == occd@.len(),
                    best1 < n_occd,
                    occupant@.len() == NUM_REGISTERS,
                    forall|j: int|
                        0 <= j < occd@.len() ==> (#[trigger] occd@[j]) < NUM_REGISTERS
                            && occupant@[occd@[j] as int] is Some,
                    dataflow.wf(),
                    listed_nodes_wf(*dataflow, nodes@),
                decreases n_occd - t,
            {
                let oc = occupant[occd[t]].unwrap();
                let nu = next_use(dataflow, keeps, nodes, oc, i);
                if nu > best1_nu {
                    best1 = t;
                    best1_nu = nu;
                }
                t = t + 1;
            }
            let mut best2: usize = if best1 == 0 {
                1
            } else {
                0
            };
            let mut best2_nu: usize = {
                let oc = occupant[occd[best2]].unwrap();
                next_use(dataflow, keeps, nodes, oc, i)
            };
            let mut t2: usize = 0;
            while t2 < n_occd
                invariant
                    t2 <= n_occd,
                    n_occd == occd@.len(),
                    2 <= n_occd,
                    best1 < n_occd,
                    best2 < n_occd,
                    best1 != best2,
                    occupant@.len() == NUM_REGISTERS,
                    forall|j: int|
                        0 <= j < occd@.len() ==> (#[trigger] occd@[j]) < NUM_REGISTERS
                            && occupant@[occd@[j] as int] is Some,
                    dataflow.wf(),
                    listed_nodes_wf(*dataflow, nodes@),
                decreases n_occd - t2,
            {
                if t2 != best1 {
                    let oc = occupant[occd[t2]].unwrap();
                    let nu = next_use(dataflow, keeps, nodes, oc, i);
                    if nu > best2_nu {
                        best2 = t2;
                        best2_nu = nu;
                    }
                }
                t2 = t2 + 1;
            }
            let vr1 = occd[best1];
            let vr2 = occd[best2];
            proof {
                if best1 < best2 {
                    assert(occd@[best1 as int] < occd@[best2 as int]);
                } else {
                    assert(occd@[best2 as int] < occd@[best1 as int]);
                }
            }
            let oc1 = occupant[vr1].unwrap();
            let oc2 = occupant[vr2].unwrap();
            proof {
                // Distinct registers hold distinct values.
                if oc1 == oc2 {
                    if alloc@.dom().contains(oc1) {
                        assert(alloc@[oc1].index() == vr1 as int);
                        assert(alloc@[oc1].index() == vr2 as int);
                    } else {
                        assert(input_in_register(variables@, oc1, vr1 as int));
                        assert(input_in_register(variables@, oc1, vr2 as int));
                        let rg1 = choose|reg: Register|
                            variables@[oc1] == Variable::Register(reg) && reg.index()
                                == vr1 as int;
                        let rg2 = choose|reg: Register|
                            variables@[oc1] == Variable::Register(reg) && reg.index()
                                == vr2 as int;
                        assert(rg1 == rg2);
                    }
                    assert(false);
                }
            }
            let ghost instrs0 = instrs@;
            let ghost spilli0 = spilli;
            let ghost occ_pre2 = occupant@;
            instrs.push(Instruction::Spill(oc1, oc2));
            occupant.set(vr1, None);
            occupant.set(vr2, None);
            let ghost fv1 = free_vec@;
            free_vec.push(vr1);
            let ghost fv2 = free_vec@;
            free_vec.push(vr2);
            proof {
                spilli = spilli.insert(oc1, i as int).insert(oc2, i as int);
                lemma_sched_push(instrs0, Instruction::Spill(oc1, oc2));
                assert(sched_of(instrs@) =~= nodes@.subrange(0, i as int));
                // Spill records.
                assert forall|o: Out| #[trigger]
                    spilli.dom().contains(o) implies 0 <= spilli[o] <= i as int && exists|q: int|
                    spilled_at(instrs@, o, q) by {
                    if o == oc1 || o == oc2 {
                        assert(spilled_at(instrs@, o, instrs@.len() - 1));
                    } else {
                        assert(spilli0.dom().contains(o));
                        let q = choose|q: int| spilled_at(instrs0, o, q);
                        assert(instrs@[q] == instrs0[q]);
                        assert(spilled_at(instrs@, o, q));
                    }
                }
                // Free list.
                assert(!fv1.contains(vr1));
                assert(!fv2.contains(vr2));
                assert(free_vec@.no_duplicates());
                assert forall|r: int|
                    0 <= r < NUM_REGISTERS && occupant@[r] is None implies free_vec@.contains(
                    r as usize,
                ) by {
                    if r == vr1 as int {
                        assert(free_vec@[free_vec@.len() - 2] == vr1);
                    } else if r == vr2 as int {
                        assert(free_vec@[free_vec@.len() - 1] == vr2);
                    } else {
                        assert(fv1.contains(r as usize));
                        let j = choose|j: int| 0 <= j < fv1.len() && fv1[j] == r as usize;
                        assert(free_vec@[j] == r as usize);
                    }
                }
                // The mirror stays coherent and the allocation stays
                // valid: the spilled values are freshly retired.
                assert(occupant@ =~= occ_pre2.update(vr1 as int, Option::None).update(
                    vr2 as int,
                    Option::None,
                ));
                lemma_spill_update(
                    *dataflow,
                    keeps@,
                    nodes@,
                    variables@,
                    alloc@,
                    defi,
                    spilli0,
                    spilli,
                    occ_pre2,
                    occupant@,
                    i as int,
                    oc1,
                    oc2,
                    vr1 as int,
                    vr2 as int,
                );
            }
        }
        // Assign a destination register to every value the node defines.
        let outs = dataflow.outs(node);
        let mut t4: usize = 0;
        while t4 < num_outs
            invariant
                t4 <= num_outs,
                i < n,
                n == nodes@.len(),
                node == nodes@[i as int],
                num_outs == dataflow.num_outs(node),
                num_outs < NUM_REGISTERS,
                outs@.len() == num_outs,
                forall|j: int|
                    0 <= j < outs@.len() ==> outs@[j] == (Out { node, index: j as usize }),
                dataflow.wf(),
                listed_nodes_wf(*dataflow, nodes@),
                lu_bound(*dataflow, keeps@, nodes@, lu@),
                forall|o: Out|
                    #[trigger] variables@.dom().contains(o) ==> !nodes@.contains(o.node),
                forall|o1: Out, o2: Out, r: int|
                    input_in_register(variables@, o1, r) && input_in_register(variables@, o2, r)
                        ==> o1 == o2,
                occ_inv(
                    *dataflow,
                    keeps@,
                    nodes@,
                    variables@,
                    alloc@,
                    AllocTrace { defi, spilli },
                    occupant@,
                    i as int,
                ),
                free_vec@.no_duplicates(),
                forall|j: int|
                    0 <= j < free_vec@.len() ==> (#[trigger] free_vec@[j]) < NUM_REGISTERS
                        && occupant@[free_vec@[j] as int] is None,
                forall|r: int|
                    0 <= r < NUM_REGISTERS && occupant@[r] is None ==> free_vec@.contains(
                        r as usize,
                    ),
                free_vec@.len() + t4 >= num_outs,
                defi.dom() =~= alloc@.dom(),
                forall|o: Out|
                    #[trigger] alloc@.dom().contains(o) ==> 0 <= defi[o] <= i && nodes@[defi[o]]
                        == o.node && 0 <= o.index < dataflow.num_outs(o.node),
                forall|o: Out|
                    ((exists|k: int| 0 <= k < i && (#[trigger] nodes@[k]) == o.node) && 0 <= o.index
                        < dataflow.num_outs(o.node)) ==> #[trigger] alloc@.dom().contains(o),
                // The values of this node assigned so far.
                assigned_book(node, t4 as int, i as int, alloc@, defi, occupant@),
                allocation_valid(
                    *dataflow,
                    keeps@,
                    nodes@,
                    variables@,
                    alloc@,
                    AllocTrace { defi, spilli },
                ),
                forall|o: Out|
                    #[trigger] spilli.dom().contains(o) ==> 0 <= spilli[o] <= i as int && exists|
                        q: int,
                    | spilled_at(instrs@, o, q),
                sched_of(instrs@) =~= nodes@.subrange(0, i as int),
                forall|q: int|
                    0 <= q < instrs@.len() ==> (#[trigger] instrs@[q] matches Instruction::Spill(
                        a,
                        b,
                    ) ==> spilli.dom().contains(a) && spilli.dom().contains(b)),
                spills_wf(instrs@, alloc@, variables@),
            decreases num_outs - t4,
        {
            let o = outs[t4];
            let ghost fvp = free_vec@;
            let r = free_vec.pop().unwrap();
            proof {
                assert(r == fvp.last());
                assert(free_vec@ =~= fvp.drop_last());
            }
            let reg = Register::new(r as u8).unwrap();
            let ghost alloc0 = alloc@;
            let ghost occ0 = occupant@;
            let ghost defi0 = defi;
            alloc.insert(o, reg);
            occupant.set(r, Some(o));
            proof {
                defi = defi.insert(o, i as int);
                assert(reg.index() == r as int);
                assert(occ0[r as int] is None);
                assert(occupant@ =~= occ0.update(r as int, Some(o)));
                assert(alloc@ =~= alloc0.insert(o, reg));
                lemma_assign_step(
                    *dataflow,
                    keeps@,
                    nodes@,
                    variables@,
                    alloc0,
                    alloc@,
                    defi0,
                    defi,
                    spilli,
                    occ0,
                    occupant@,
                    i as int,
                    t4 as int,
                    node,
                    o,
                    reg,
                    r as int,
                );
                lemma_assign_valid(
                    *dataflow,
                    keeps@,
                    nodes@,
                    variables@,
                    alloc0,
                    alloc@,
                    defi0,
                    defi,
                    spilli,
                    occ0,
                    i as int,
                    t4 as int,
                    node,
                    o,
                    reg,
                    r as int,
                );
                // The free list still lists every free register.
                assert forall|r3: int|
                    0 <= r3 < NUM_REGISTERS && occupant@[r3] is None implies free_vec@.contains(
                    r3 as usize,
                ) by {
                    assert(r3 != r as int);
                    assert(occ0[r3] is None);
                    assert(fvp.contains(r3 as usize));
                    let j = choose|j: int| 0 <= j < fvp.len() && fvp[j] == r3 as usize;
                    assert(fvp[fvp.len() - 1] == r);
                    assert(j < fvp.len() - 1);
                    assert(free_vec@[j] == r3 as usize);
                }
            }
            t4 = t4 + 1;
        }
        let ghost instrs1 = instrs@;
        instrs.push(Instruction::Node(node));
        proof {
            lemma_sched_push(instrs1, Instruction::Node(node));
            assert(sched_of(instrs@) =~= nodes@.subrange(0, i as int).push(node));
            assert(nodes@.subrange(0, i as int + 1) =~= nodes@.subrange(0, i as int).push(
                nodes@[i as int],
            ));
            // Spill records survive the push.
            assert forall|o: Out| #[trigger]
                spilli.dom().contains(o) implies 0 <= spilli[o] <= i as int + 1 && exists|q: int|
                spilled_at(instrs@, o, q) by {
                let q = choose|q: int| spilled_at(instrs1, o, q);
                assert(instrs@[q] == instrs1[q]);
                assert(spilled_at(instrs@, o, q));
            }
            // Retirement is monotone in the step index.
            assert forall|o3: Out| #[trigger]
                alloc@.dom().contains(o3) implies (occupant@[alloc@[o3].index()] == Some(o3)
                || retired(*dataflow, keeps@, nodes@, spilli, o3, i as int + 1)) by {
                if occupant@[alloc@[o3].index()] != Some(o3) {
                    assert(retired(*dataflow, keeps@, nodes@, spilli, o3, i as int));
                }
            }
            assert forall|o3: Out, r3: int| #[trigger]
                input_in_register(variables@, o3, r3) && 0 <= r3 < NUM_REGISTERS
                && !alloc@.dom().contains(o3) implies (occupant@[r3] == Some(o3) || retired(
                *dataflow,
                keeps@,
                nodes@,
                spilli,
                o3,
                i as int + 1,
            )) by {
                if occupant@[r3] != Some(o3) {
                    assert(retired(*dataflow, keeps@, nodes@, spilli, o3, i as int));
                }
            }
            // Every value of every processed node is now placed.
            assert forall|o: Out|
                ((exists|k: int| 0 <= k < i + 1 && (#[trigger] nodes@[k]) == o.node) && 0 <= o.index
                    < dataflow.num_outs(o.node)) implies #[trigger] alloc@.dom().contains(o) by {
                let k = choose|k: int| 0 <= k < i + 1 && (#[trigger] nodes@[k]) == o.node;
                if k < i {
                }
            }
        }
        i = i + 1;
    }
    proof {
        assert(sched_of(instrs@) =~= nodes@.subrange(0, n as int));
        assert(nodes@.subrange(0, n as int) =~= nodes@);
        assert forall|o: Out| #[trigger]
            alloc@.dom().contains(o) implies ((exists|k: int|
            0 <= k < nodes@.len() && (#[trigger] nodes@[k]) == o.node) && 0 <= o.index
            < dataflow.num_outs(o.node)) by {
            assert(nodes@[defi[o]] == o.node);
        }
    }
    Ok((instrs, alloc, Ghost(AllocTrace { defi, spilli })))
}


/// One assignment step of the allocator: placing a fresh value of the
/// current node in a free register preserves the mirror invariant, the
/// validity of the allocation, and the step-local bookkeeping.
#[verifier::rlimit(100)]
#[verifier::spinoff_prover]
proof fn lemma_assign_step(
    df: Dataflow,
    keeps: Seq<GuardKeeps>,
    nodes: Seq<Node>,
    variables: Map<Out, Variable>,
    alloc0: Map<Out, Register>,
    alloc1: Map<Out, Register>,
    defi0: Map<Out, int>,
    defi1: Map<Out, int>,
    spilli: Map<Out, int>,
    occ0: Seq<Option<Out>>,
    occ1: Seq<Option<Out>>,
    i: int,
    t4: int,
    node: Node,
    o: Out,
    reg: Register,
    r: int,
)
    requires
        0 <= i < nodes.len(),
        node == nodes[i],
        listed_nodes_wf(df, nodes),
        forall|ox: Out| #[trigger] variables.dom().contains(ox) ==> !nodes.contains(ox.node),
        forall|o1: Out, o2: Out, r2: int|
            input_in_register(variables, o1, r2) && input_in_register(variables, o2, r2) ==> o1
                == o2,
        occ_inv(df, keeps, nodes, variables, alloc0, AllocTrace { defi: defi0, spilli }, occ0, i),
        allocation_valid(df, keeps, nodes, variables, alloc0, AllocTrace { defi: defi0, spilli }),
        defi0.dom() =~= alloc0.dom(),
        assigned_book(node, t4, i, alloc0, defi0, occ0),
        o.node == node,
        o.index == t4,
        0 <= t4,
        alloc1 =~= alloc0.insert(o, reg),
        defi1 =~= defi0.insert(o, i),
        occ1 =~= occ0.update(r, Some(o)),
        0 <= r < NUM_REGISTERS,
        reg.index() == r,
        occ0[r] is None,
    ensures
        occ_inv(df, keeps, nodes, variables, alloc1, AllocTrace { defi: defi1, spilli }, occ1, i),
        defi1.dom() =~= alloc1.dom(),
        assigned_book(node, t4 + 1, i, alloc1, defi1, occ1),
{
    let tr0 = AllocTrace { defi: defi0, spilli };
    let tr1 = AllocTrace { defi: defi1, spilli };
    assert(!alloc0.dom().contains(o)) by {
        if alloc0.dom().contains(o) {
            assert(o.index < t4);
        }
    }
    // The fresh value was never spilled: only placed values are.
    assert(!spilli.dom().contains(o)) by {
        if spilli.dom().contains(o) {
            assert(tr0.spilli.dom().contains(o));
            assert(alloc0.dom().contains(o) || variables.dom().contains(o));
            if variables.dom().contains(o) {
                assert(!nodes.contains(o.node));
                assert(nodes[i] == o.node);
            }
        }
    }
    // Step-local bookkeeping.
    assert(assigned_book(node, t4 + 1, i, alloc1, defi1, occ1)) by {
        assert forall|o5: Out|
            o5.node == node && o5.index < t4 + 1 implies #[trigger] alloc1.dom().contains(o5)
            && defi1[o5] == i && occ1[alloc1[o5].index()] == Some(o5) by {
            if o5.index < t4 {
                assert(alloc0.dom().contains(o5));
                assert(o5 != o);
                assert(defi0[o5] == i);
                assert(defi1[o5] == defi0[o5]);
                assert(alloc1[o5] == alloc0[o5]);
                assert(occ0[alloc0[o5].index()] == Some(o5));
                assert(alloc0[o5].index() != r);
            } else {
                assert(o5 == o);
                assert(defi1[o] == i);
                assert(occ1[r] == Some(o));
            }
        }
        assert forall|o5: Out|
            #[trigger] alloc1.dom().contains(o5) && o5.node != node implies defi1[o5] < i by {
            assert(o5 != o);
            assert(alloc0.dom().contains(o5));
            assert(defi1[o5] == defi0[o5]);
        }
        assert forall|o5: Out|
            #[trigger] alloc1.dom().contains(o5) && o5.node == node implies o5.index < t4 + 1 by {
            if o5 != o {
                assert(alloc0.dom().contains(o5));
            }
        }
    }
    // Coherence of the mirror.
    assert forall|o3: Out| #[trigger]
        alloc1.dom().contains(o3) implies (occ1[alloc1[o3].index()] == Some(o3) || retired(
        df,
        keeps,
        nodes,
        spilli,
        o3,
        i,
    )) by {
        if o3 == o {
            assert(occ1[r] == Some(o));
        } else {
            assert(alloc0.dom().contains(o3));
            assert(alloc1[o3] == alloc0[o3]);
            if occ0[alloc0[o3].index()] == Some(o3) {
                if alloc0[o3].index() == r {
                    assert(occ0[r] is None);
                    assert(false);
                }
                assert(occ1[alloc1[o3].index()] == Some(o3));
            }
        }
    }
    assert forall|o3: Out, r3: int| #[trigger]
        input_in_register(variables, o3, r3) && 0 <= r3 < NUM_REGISTERS
        && !alloc1.dom().contains(o3) implies (occ1[r3] == Some(o3) || retired(
        df,
        keeps,
        nodes,
        spilli,
        o3,
        i,
    )) by {
        assert(!alloc0.dom().contains(o3));
        if occ0[r3] == Some(o3) {
            if r3 == r {
                assert(false);
            }
            assert(occ1[r3] == Some(o3));
        }
    }
    // Register bounds.
    assert forall|o3: Out| #[trigger]
        alloc1.dom().contains(o3) implies 0 <= alloc1[o3].index() < NUM_REGISTERS by {
        if o3 == o {
            assert(alloc1[o3] == reg);
        } else {
            assert(alloc0.dom().contains(o3));
            assert(alloc1[o3] == alloc0[o3]);
        }
    }
    // Each register holds only the value placed in it.
    assert forall|r3: int|
        0 <= r3 < occ1.len() implies (#[trigger] occ1[r3] matches Some(o3) ==> {
        if alloc1.dom().contains(o3) {
            alloc1[o3].index() == r3
        } else {
            input_in_register(variables, o3, r3)
        }
    }) by {
        if occ1[r3] is Some {
            let o3 = occ1[r3]->0;
            if r3 == r {
                assert(o3 == o);
                assert(alloc1[o].index() == r);
            } else {
                assert(occ0[r3] == Some(o3));
                if alloc0.dom().contains(o3) {
                    assert(alloc1[o3] == alloc0[o3]);
                } else {
                    assert(input_in_register(variables, o3, r3));
                    if o3 == o {
                        assert(variables.dom().contains(o));
                        assert(!nodes.contains(o.node));
                        assert(nodes[i] == o.node);
                        assert(false);
                    }
                }
            }
        }
    }
    // Occupants are unspilled.
    assert forall|r3: int|
        0 <= r3 < occ1.len() implies (#[trigger] occ1[r3] matches Some(o3)
        ==> !tr1.spilli.dom().contains(o3)) by {
        if occ1[r3] is Some {
            let o3 = occ1[r3]->0;
            if r3 == r {
                assert(o3 == o);
            } else {
                assert(occ0[r3] == Some(o3));
            }
        }
    }
    // Only placed values are spilled.
    assert forall|o3: Out| #[trigger]
        tr1.spilli.dom().contains(o3) implies (alloc1.dom().contains(o3)
        || variables.dom().contains(o3)) by {
        assert(tr0.spilli.dom().contains(o3));
        assert(alloc0.dom().contains(o3) || variables.dom().contains(o3));
        if alloc0.dom().contains(o3) {
            assert(alloc1.dom().contains(o3));
        }
    }
}

/// The validity half of the assignment step: after placing a fresh value
/// of the current node in a previously free register, the allocation
/// remains valid.
#[verifier::rlimit(100)]
#[verifier::spinoff_prover]
proof fn lemma_assign_valid(
    df: Dataflow,
    keeps: Seq<GuardKeeps>,
    nodes: Seq<Node>,
    variables: Map<Out, Variable>,
    alloc0: Map<Out, Register>,
    alloc1: Map<Out, Register>,
    defi0: Map<Out, int>,
    defi1: Map<Out, int>,
    spilli: Map<Out, int>,
    occ0: Seq<Option<Out>>,
    i: int,
    t4: int,
    node: Node,
    o: Out,
    reg: Register,
    r: int,
)
    requires
        0 <= i < nodes.len(),
        node == nodes[i],
        listed_nodes_wf(df, nodes),
        forall|ox: Out| #[trigger] variables.dom().contains(ox) ==> !nodes.contains(ox.node),
        occ_inv(df, keeps, nodes, variables, alloc0, AllocTrace { defi: defi0, spilli }, occ0, i),
        allocation_valid(df, keeps, nodes, variables, alloc0, AllocTrace { defi: defi0, spilli }),
        defi0.dom() =~= alloc0.dom(),
        assigned_book(node, t4, i, alloc0, defi0, occ0),
        o.node == node,
        o.index == t4,
        0 <= t4,
        alloc1 =~= alloc0.insert(o, reg),
        defi1 =~= defi0.insert(o, i),
        0 <= r < NUM_REGISTERS,
        reg.index() == r,
        occ0[r] is None,
    ensures
        allocation_valid(df, keeps, nodes, variables, alloc1, AllocTrace { defi: defi1, spilli }),
{
    let tr1 = AllocTrace { defi: defi1, spilli };
    assert(!alloc0.dom().contains(o)) by {
        if alloc0.dom().contains(o) {
            assert(o.index < t4);
        }
    }
    // Validity.
    assert forall|o1: Out, o2: Out|
        alloc1.dom().contains(o1) && alloc1.dom().contains(o2) && o1 != o2 && o1.node == o2.node
        implies #[trigger] alloc1[o1] != #[trigger] alloc1[o2] by {
        if o2 == o && o1 != o {
            assert(alloc0.dom().contains(o1));
            assert(o1.index < t4);
            assert(occ0[alloc0[o1].index()] == Some(o1));
            assert(occ0[r] is None);
            assert(alloc0[o1].index() != r);
        } else if o1 == o && o2 != o {
            assert(alloc0.dom().contains(o2));
            assert(o2.index < t4);
            assert(occ0[alloc0[o2].index()] == Some(o2));
            assert(occ0[r] is None);
            assert(alloc0[o2].index() != r);
        } else {
            assert(alloc0.dom().contains(o1) && alloc0.dom().contains(o2));
        }
    }
    assert forall|o1: Out, o2: Out|
        #![trigger alloc1.dom().contains(o1), alloc1.dom().contains(o2)]
        alloc1.dom().contains(o2) && alloc1.dom().contains(o1) && o1 != o2 && alloc1[o1]
            == alloc1[o2] && tr1.defi[o1] < tr1.defi[o2] implies retired(
        df,
        keeps,
        nodes,
        tr1.spilli,
        o1,
        tr1.defi[o2],
    ) by {
        if o2 == o {
            assert(alloc0.dom().contains(o1));
            assert(alloc1[o1] == alloc0[o1]);
            assert(alloc1[o2] == reg);
            assert(alloc0[o1].index() == r);
            assert(occ0[alloc0[o1].index()] is None);
            assert(retired(df, keeps, nodes, spilli, o1, i));
            assert(tr1.defi[o2] == i);
        } else if o1 == o {
            assert(alloc0.dom().contains(o2));
            assert(tr1.defi[o2] == defi0[o2]);
            assert(defi0[o2] <= i) by {
                if o2.node == node {
                    assert(o2.index < t4);
                    assert(defi0[o2] == i);
                } else {
                    assert(defi0[o2] < i);
                }
            }
            assert(tr1.defi[o1] == i);
            assert(false);
        } else {
            assert(alloc0.dom().contains(o1) && alloc0.dom().contains(o2));
            assert(alloc1[o1] == alloc0[o1]);
            assert(alloc1[o2] == alloc0[o2]);
            assert(tr1.defi[o1] == defi0[o1]);
            assert(tr1.defi[o2] == defi0[o2]);
            assert(retired(df, keeps, nodes, spilli, o1, defi0[o2]));
        }
    }
    assert forall|o1: Out, o2: Out|
        #![trigger alloc1.dom().contains(o2), input_in_register(variables, o1, alloc1[o2].index())]
        alloc1.dom().contains(o2) && !alloc1.dom().contains(o1) && input_in_register(
            variables,
            o1,
            alloc1[o2].index(),
        ) implies retired(df, keeps, nodes, tr1.spilli, o1, tr1.defi[o2]) by {
        assert(!alloc0.dom().contains(o1));
        if o2 == o {
            assert(alloc1[o2] == reg);
            assert(alloc1[o2].index() == r);
            assert(occ0[r] is None);
            assert(input_in_register(variables, o1, r));
            assert(retired(df, keeps, nodes, spilli, o1, i));
            assert(tr1.defi[o2] == i);
        } else {
            assert(alloc0.dom().contains(o2));
            assert(alloc1[o2] == alloc0[o2]);
            assert(tr1.defi[o2] == defi0[o2]);
            assert(retired(df, keeps, nodes, spilli, o1, defi0[o2]));
        }
    }
}



/// Appending an instruction extends the schedule by its node, if any.
pub proof fn lemma_sched_append(instrs: Seq<Instruction>, instr: Instruction)
    ensures
        instr matches Instruction::Node(n) ==> sched_of(instrs.push(instr)) =~= sched_of(
            instrs,
        ).push(n),
        instr matches Instruction::Spill(_, _) ==> sched_of(instrs.push(instr)) =~= sched_of(
            instrs,
        ),
{
    lemma_sched_push(instrs, instr);
}

/// The schedule of a prefix is contained in the schedule of the whole.
pub proof fn lemma_sched_prefix(instrs: Seq<Instruction>, m: int)
    requires
        0 <= m <= instrs.len(),
    ensures
        forall|x: Node|
            sched_of(instrs.subrange(0, m)).contains(x) ==> #[trigger] sched_of(instrs).contains(
                x,
            ),
    decreases instrs.len() - m,
{
    if m == instrs.len() {
        assert(instrs.subrange(0, m) =~= instrs);
    } else {
        lemma_sched_prefix(instrs, m + 1);
        lemma_sched_push(instrs.subrange(0, m), instrs[m]);
        assert(instrs.subrange(0, m + 1) =~= instrs.subrange(0, m).push(instrs[m]));
        assert forall|x: Node|
            sched_of(instrs.subrange(0, m)).contains(x) implies #[trigger] sched_of(
            instrs,
        ).contains(x) by {
            let kk = choose|kk: int|
                0 <= kk < sched_of(instrs.subrange(0, m)).len() && sched_of(
                    instrs.subrange(0, m),
                )[kk] == x;
            assert(sched_of(instrs.subrange(0, m + 1)).contains(x)) by {
                match instrs[m] {
                    Instruction::Node(n2) => {
                        assert(sched_of(instrs.subrange(0, m + 1))[kk] == x);
                    },
                    Instruction::Spill(_, _) => {
                        assert(sched_of(instrs.subrange(0, m + 1))[kk] == x);
                    },
                }
            }
        }
    }
}

} // verus!
