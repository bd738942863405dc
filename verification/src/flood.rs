//! The hot-path dependency walk.
//!
//! [`flood`] marks every node that the computation of `exit` depends on,
//! following data and effect edges, and returns those nodes in an order in
//! which dependencies precede dependents.  Nodes already marked belong to a
//! hotter path: they are not descended; the values and effects read from
//! them are recorded in the `inputs` and `effects` sets instead.

use vstd::prelude::*;

use crate::dataflow::{Dataflow, Node, Out};
use crate::util::{NodeSet, OutSet};

verus! {

/// Every mark is either clear or names a hotter level than `coldness`.
pub open spec fn only_hotter_marks(m: Seq<usize>, coldness: usize) -> bool {
    forall|i: int| 0 <= i < m.len() ==> m[i] == 0 || (1 <= #[trigger] m[i] < coldness)
}

/// No node reads a value or an effect from a `Convention` node: exits are
/// sinks of the graph.
pub open spec fn conventions_are_sinks(df: Dataflow) -> bool {
    &&& forall|n: Node, j: int|
        df.is_node(n) && 0 <= j < df.deps(n).len() ==> df.op(
            #[trigger] df.deps(n)[j],
        ) != crate::dataflow::Op::Convention
    &&& forall|n: Node, j: int|
        df.is_node(n) && 0 <= j < df.ins(n).len() ==> df.op(
            (#[trigger] df.ins(n)[j]).node,
        ) != crate::dataflow::Op::Convention
}

/// `m1` is `m0` with some clear marks set to `coldness`.
pub open spec fn marks_extend(m0: Seq<usize>, m1: Seq<usize>, coldness: usize) -> bool {
    &&& m1.len() == m0.len()
    &&& forall|i: int|
        0 <= i < m0.len() ==> (#[trigger] m1[i] == m0[i] || (m0[i] == 0 && m1[i] == coldness))
}

/// A node is marked `coldness` exactly when it is listed in `nodes`.
pub open spec fn marked_iff_listed(m: Seq<usize>, coldness: usize, nodes: Seq<Node>) -> bool {
    forall|n: Node|
        n.index < m.len() ==> ((#[trigger] m[n.index as int]) == coldness <==> nodes.contains(n))
}

/// The listed nodes are distinct nodes of the graph.
pub open spec fn listed_nodes_wf(df: Dataflow, nodes: Seq<Node>) -> bool {
    &&& forall|k: int| 0 <= k < nodes.len() ==> df.is_node(#[trigger] nodes[k])
    &&& forall|a: int, b: int| 0 <= a < b < nodes.len() ==> nodes[a] != nodes[b]
}

/// What it takes to restore the marks after a walk: the current marks
/// `m_now` extend the entry marks `m_entry` by exactly the listed,
/// distinct, in-range nodes, each unmarked on entry.
pub open spec fn unmark_ok(
    m_entry: Seq<usize>,
    m_now: Seq<usize>,
    nodes: Seq<Node>,
    coldness: usize,
) -> bool {
    &&& m_now.len() == m_entry.len()
    &&& marks_extend(m_entry, m_now, coldness)
    &&& marked_iff_listed(m_now, coldness, nodes)
    &&& forall|k: int| 0 <= k < nodes.len() ==> (#[trigger] nodes[k]).index < m_entry.len()
    &&& forall|a: int, b: int| 0 <= a < b < nodes.len() ==> nodes[a] != nodes[b]
    &&& forall|k: int| 0 <= k < nodes.len() ==> m_entry[(#[trigger] nodes[k]).index as int] == 0
}

/// Clears the mark of every listed node, restoring exactly the marks
/// that held before they were set.
pub fn clear_marks(
    marks: &mut Vec<usize>,
    nodes: &Vec<Node>,
    Ghost(m_entry): Ghost<Seq<usize>>,
    coldness: usize,
)
    requires
        unmark_ok(m_entry, old(marks)@, nodes@, coldness),
    ensures
        final(marks)@ =~= m_entry,
{
    let ghost m_hot = marks@;
    let marks_len = marks.len();
    let n_nodes = nodes.len();
    let mut i: usize = 0;
    while i < n_nodes
        invariant
            n_nodes == nodes@.len(),
            i <= n_nodes,
            marks@.len() == marks_len,
            marks_len == m_entry.len(),
            m_hot.len() == m_entry.len(),
            forall|k: int|
                0 <= k < nodes@.len() ==> (#[trigger] nodes@[k]).index < m_entry.len(),
            forall|a: int, b: int| 0 <= a < b < nodes@.len() ==> nodes@[a] != nodes@[b],
            forall|k: int|
                0 <= k < nodes@.len() ==> m_entry[(#[trigger] nodes@[k]).index as int] == 0,
            forall|k: int| 0 <= k < i ==> marks@[(#[trigger] nodes@[k]).index as int] == 0,
            forall|idx: int|
                0 <= idx < marks_len && !(exists|k: int|
                    0 <= k < i && (#[trigger] nodes@[k]).index == idx) ==> marks@[idx]
                    == m_hot[idx],
            marks_extend(m_entry, m_hot, coldness),
            marked_iff_listed(m_hot, coldness, nodes@),
        decreases n_nodes - i,
    {
        let n = nodes[i];
        marks.set(n.index, 0);
        proof {
            assert forall|idx: int|
                0 <= idx < marks_len && !(exists|k: int|
                    0 <= k < i + 1 && (#[trigger] nodes@[k]).index == idx) implies marks@[idx]
                == m_hot[idx] by {
                assert(idx != n.index as int);
            }
            assert forall|k: int| 0 <= k < i + 1 implies marks@[(#[trigger] nodes@[k]).index
                as int] == 0 by {
                if k < i {
                    if nodes@[k].index == n.index {
                    }
                }
            }
        }
        i = i + 1;
    }
    proof {
        assert(marks@ =~= m_entry) by {
            assert forall|idx: int| 0 <= idx < m_entry.len() implies marks@[idx] == m_entry[idx] by {
                if exists|k: int| 0 <= k < nodes@.len() && (#[trigger] nodes@[k]).index == idx {
                    let k = choose|k: int|
                        0 <= k < nodes@.len() && (#[trigger] nodes@[k]).index == idx;
                    assert(marks@[idx] == 0);
                    assert(m_entry[nodes@[k].index as int] == 0);
                } else {
                    assert(marks@[idx] == m_hot[idx]);
                    if m_hot[idx] != m_entry[idx] {
                        assert(m_hot[idx] == coldness);
                        let n = Node { index: idx as usize };
                        assert(n.index as int == idx);
                        assert(m_hot[n.index as int] == coldness);
                        assert(nodes@.contains(n));
                        let k = choose|k: int| 0 <= k < nodes@.len() && nodes@[k] == n;
                        assert(nodes@[k].index == idx);
                    }
                }
            }
        }
    }
}

/// Dependencies precede dependents within `nodes`.
pub open spec fn topo_ordered(df: Dataflow, nodes: Seq<Node>) -> bool {
    forall|a: int, b: int|
        0 <= a < nodes.len() && 0 <= b < nodes.len() && #[trigger] df.is_prereq(
            nodes[a],
            nodes[b],
        ) ==> b < a
}

/// Every dependency of a listed node carries some mark.
pub open spec fn prereqs_marked(df: Dataflow, m: Seq<usize>, nodes: Seq<Node>) -> bool {
    &&& forall|k: int, j: int|
        0 <= k < nodes.len() && 0 <= j < df.deps(nodes[k]).len() ==> m[(#[trigger] df.deps(
            nodes[k],
        )[j]).index as int] != 0
    &&& forall|k: int, j: int|
        0 <= k < nodes.len() && 0 <= j < df.ins(nodes[k]).len() ==> m[(#[trigger] df.ins(
            nodes[k],
        )[j]).node.index as int] != 0
}

/// Everything in `inputs` is an output of a node marked hotter.
pub open spec fn inputs_sound(df: Dataflow, m: Seq<usize>, coldness: usize, inputs: Seq<Out>) -> bool {
    forall|x: Out|
        #[trigger] inputs.contains(x) ==> df.is_out(x) && 1 <= m[x.node.index as int] < coldness
}

/// Every value a listed node reads from a hotter node is in `inputs`.
pub open spec fn inputs_complete(
    df: Dataflow,
    m: Seq<usize>,
    coldness: usize,
    nodes: Seq<Node>,
    inputs: Seq<Out>,
) -> bool {
    forall|k: int, j: int|
        0 <= k < nodes.len() && 0 <= j < df.ins(nodes[k]).len() && 1 <= m[(#[trigger] df.ins(
            nodes[k],
        )[j]).node.index as int] < coldness ==> inputs.contains(df.ins(nodes[k])[j])
}

/// Everything in `effects` is a node marked hotter.
pub open spec fn effects_sound(
    df: Dataflow,
    m: Seq<usize>,
    coldness: usize,
    effects: Seq<Node>,
) -> bool {
    forall|x: Node|
        #[trigger] effects.contains(x) ==> df.is_node(x) && 1 <= m[x.index as int] < coldness
}

/// Every effect dependency of a listed node on a hotter node is in
/// `effects`.
pub open spec fn effects_complete(
    df: Dataflow,
    m: Seq<usize>,
    coldness: usize,
    nodes: Seq<Node>,
    effects: Seq<Node>,
) -> bool {
    forall|k: int, j: int|
        0 <= k < nodes.len() && 0 <= j < df.deps(nodes[k]).len() && 1 <= m[(#[trigger] df.deps(
            nodes[k],
        )[j]).index as int] < coldness ==> effects.contains(df.deps(nodes[k])[j])
}

/// The running state of one flood: all the invariants that tie the marks,
/// the result list and the two sets together.
pub open spec fn flood_inv(
    df: Dataflow,
    m: Seq<usize>,
    coldness: usize,
    nodes: Seq<Node>,
    inputs: Seq<Out>,
    effects: Seq<Node>,
) -> bool {
    &&& m.len() == df.len()
    &&& marked_iff_listed(m, coldness, nodes)
    &&& listed_nodes_wf(df, nodes)
    &&& topo_ordered(df, nodes)
    &&& prereqs_marked(df, m, nodes)
    &&& inputs_sound(df, m, coldness, inputs)
    &&& inputs_complete(df, m, coldness, nodes, inputs)
    &&& effects_sound(df, m, coldness, effects)
    &&& effects_complete(df, m, coldness, nodes, effects)
}

/// Visits `node`, which is unmarked: visits every unmarked dependency,
/// records the values and effects read from hotter nodes, then marks
/// `node` with `coldness` and appends it to `nodes`.
#[verifier::rlimit(100)]
fn visit(
    df: &Dataflow,
    marks: &mut Vec<usize>,
    coldness: usize,
    inputs: &mut OutSet,
    effects: &mut NodeSet,
    nodes: &mut Vec<Node>,
    node: Node,
)
    requires
        df.wf(),
        conventions_are_sinks(*df),
        2 <= coldness,
        df.is_node(node),
        old(marks)@[node.index as int] == 0,
        flood_inv(*df, old(marks)@, coldness, old(nodes)@, old(inputs)@, old(effects)@),
    ensures
        marks_extend(old(marks)@, final(marks)@, coldness),
        flood_inv(*df, final(marks)@, coldness, final(nodes)@, final(inputs)@, final(effects)@),
        final(marks)@[node.index as int] == coldness,
        old(nodes)@.is_prefix_of(final(nodes)@),
        final(nodes)@.len() > old(nodes)@.len(),
        final(nodes)@.last() == node,
        forall|k: int|
            old(nodes)@.len() <= k < final(nodes)@.len()
                ==> (#[trigger] final(nodes)@[k]).index <= node.index,
        // Every newly listed node except the last is a dependency of a
        // later node, so it cannot be a `Convention` exit.
        forall|k: int|
            old(nodes)@.len() <= k < final(nodes)@.len() - 1 ==> df.op(
                #[trigger] final(nodes)@[k],
            ) != crate::dataflow::Op::Convention,
        // Newly listed nodes were unmarked before.
        forall|k: int|
            old(nodes)@.len() <= k < final(nodes)@.len()
                ==> old(marks)@[(#[trigger] final(nodes)@[k]).index as int] == 0,
        // The sets only grow, and only by hotter reads.
        forall|x: Out| old(inputs)@.contains(x) ==> final(inputs)@.contains(x),
        forall|x: Out|
            #[trigger] final(inputs)@.contains(x) ==> old(inputs)@.contains(x) || (df.is_out(x)
                && 1 <= old(marks)@[x.node.index as int] < coldness),
        forall|x: Node| old(effects)@.contains(x) ==> final(effects)@.contains(x),
        forall|x: Node|
            #[trigger] final(effects)@.contains(x) ==> old(effects)@.contains(x) || (df.is_node(x)
                && 1 <= old(marks)@[x.index as int] < coldness),
    decreases node.index,
{
    proof {
        df.lemma_wf();
    }
    let ghost m_entry = marks@;
    let ghost inputs_entry = inputs@;
    let ghost effects_entry = effects@;

    // Effect dependencies.
    let deps = df.node_deps(node);
    let n_deps = deps.len();
    let mut j: usize = 0;
    while j < n_deps
        invariant
            df.wf(),
            conventions_are_sinks(*df),
            2 <= coldness,
            df.is_node(node),
            j <= n_deps,
            n_deps == df.deps(node).len(),
            deps@ =~= df.deps(node),
            marks@[node.index as int] == 0,
            marks_extend(m_entry, marks@, coldness),
            flood_inv(*df, marks@, coldness, nodes@, inputs@, effects@),
            old(nodes)@.is_prefix_of(nodes@),
            forall|k: int|
                old(nodes)@.len() <= k < nodes@.len() ==> m_entry[(#[trigger] nodes@[k]).index
                    as int] == 0,
            forall|k: int|
                old(nodes)@.len() <= k < nodes@.len() ==> (#[trigger] nodes@[k]).index
                    < node.index,
            // Every newly listed node is a dependency of some node, so
            // it cannot be a `Convention` exit.
            forall|k: int|
                old(nodes)@.len() <= k < nodes@.len() ==> df.op(#[trigger] nodes@[k])
                    != crate::dataflow::Op::Convention,
            forall|x: Out| inputs_entry.contains(x) ==> inputs@.contains(x),
            forall|x: Out|
                #[trigger] inputs@.contains(x) ==> inputs_entry.contains(x) || (df.is_out(x) && 1
                    <= m_entry[x.node.index as int] < coldness),
            forall|x: Node| effects_entry.contains(x) ==> effects@.contains(x),
            forall|x: Node|
                #[trigger] effects@.contains(x) ==> effects_entry.contains(x) || (df.is_node(x)
                    && 1 <= m_entry[x.index as int] < coldness),
            // Processed effect dependencies are marked, and recorded if
            // they are hotter.
            forall|jj: int|
                0 <= jj < j ==> marks@[(#[trigger] df.deps(node)[jj]).index as int] != 0,
            forall|jj: int|
                0 <= jj < j && 1 <= marks@[(#[trigger] df.deps(node)[jj]).index as int] < coldness
                    ==> effects@.contains(df.deps(node)[jj]),
        decreases n_deps - j,
    {
        proof {
            df.lemma_wf();
        }
        let d = deps[j];
        let ghost m_loop = marks@;
        let ghost nodes_loop = nodes@;
        proof {
            assert(df.deps(node)[j as int] == d);
            assert(d.index < node.index);
        }
        let m = marks[d.index];
        if m == 0 {
            visit(df, marks, coldness, inputs, effects, nodes, d);
            proof {
                // `node` stays unmarked: everything newly marked is
                // listed, and everything newly listed has a smaller index.
                assert(marks@[node.index as int] == 0) by {
                    if marks@[node.index as int] != m_loop[node.index as int] {
                        assert(marks@[node.index as int] == coldness);
                        assert(nodes@.contains(node));
                        let k = choose|k: int| 0 <= k < nodes@.len() && nodes@[k] == node;
                        if k < nodes_loop.len() {
                            assert(nodes_loop[k] == node);
                            assert(nodes_loop.contains(node));
                            assert(m_loop[node.index as int] == coldness);
                        } else {
                            assert(nodes@[k].index <= d.index);
                        }
                    }
                }
                assert forall|k: int|
                    old(nodes)@.len() <= k < nodes@.len() implies m_entry[(#[trigger] nodes@[k]).index as int] == 0
                    && nodes@[k].index < node.index by {
                    if k < nodes_loop.len() {
                        assert(nodes_loop[k] == nodes@[k]);
                    } else {
                        assert(m_loop[nodes@[k].index as int] == 0);
                        assert(nodes@[k].index <= d.index);
                    }
                }
                assert(df.op(d) != crate::dataflow::Op::Convention) by {
                    assert(df.deps(node)[j as int] == d);
                }
                assert forall|k: int|
                    old(nodes)@.len() <= k < nodes@.len() implies df.op(#[trigger] nodes@[k])
                    != crate::dataflow::Op::Convention by {
                    if k < nodes_loop.len() {
                        assert(nodes@[k] == nodes_loop[k]);
                    } else if k == nodes@.len() - 1 {
                        assert(nodes@[k] == d);
                    }
                }
            }
        } else if m < coldness {
            effects.insert(d);
        }
        proof {
            assert(marks@[d.index as int] != 0);
        }
        j = j + 1;
    }

    // Data dependencies.
    let ins = df.node_ins(node);
    let n_ins = ins.len();
    let mut j: usize = 0;
    while j < n_ins
        invariant
            df.wf(),
            conventions_are_sinks(*df),
            2 <= coldness,
            df.is_node(node),
            j <= n_ins,
            n_ins == df.ins(node).len(),
            ins@ =~= df.ins(node),
            marks@[node.index as int] == 0,
            marks_extend(m_entry, marks@, coldness),
            flood_inv(*df, marks@, coldness, nodes@, inputs@, effects@),
            old(nodes)@.is_prefix_of(nodes@),
            forall|k: int|
                old(nodes)@.len() <= k < nodes@.len() ==> m_entry[(#[trigger] nodes@[k]).index
                    as int] == 0,
            forall|k: int|
                old(nodes)@.len() <= k < nodes@.len() ==> (#[trigger] nodes@[k]).index
                    < node.index,
            // Every newly listed node is a dependency of some node, so
            // it cannot be a `Convention` exit.
            forall|k: int|
                old(nodes)@.len() <= k < nodes@.len() ==> df.op(#[trigger] nodes@[k])
                    != crate::dataflow::Op::Convention,
            forall|x: Out| inputs_entry.contains(x) ==> inputs@.contains(x),
            forall|x: Out|
                #[trigger] inputs@.contains(x) ==> inputs_entry.contains(x) || (df.is_out(x) && 1
                    <= m_entry[x.node.index as int] < coldness),
            forall|x: Node| effects_entry.contains(x) ==> effects@.contains(x),
            forall|x: Node|
                #[trigger] effects@.contains(x) ==> effects_entry.contains(x) || (df.is_node(x)
                    && 1 <= m_entry[x.index as int] < coldness),
            // All effect dependencies processed already.
            forall|jj: int|
                0 <= jj < df.deps(node).len() ==> marks@[(#[trigger] df.deps(node)[jj]).index
                    as int] != 0,
            forall|jj: int|
                0 <= jj < df.deps(node).len() && 1 <= marks@[(#[trigger] df.deps(node)[jj]).index
                    as int] < coldness ==> effects@.contains(df.deps(node)[jj]),
            // Processed data dependencies are marked, and recorded if they
            // are hotter.
            forall|jj: int|
                0 <= jj < j ==> marks@[(#[trigger] df.ins(node)[jj]).node.index as int] != 0,
            forall|jj: int|
                0 <= jj < j && 1 <= marks@[(#[trigger] df.ins(node)[jj]).node.index as int]
                    < coldness ==> inputs@.contains(df.ins(node)[jj]),
        decreases n_ins - j,
    {
        proof {
            df.lemma_wf();
        }
        let o = ins[j];
        let d = o.node;
        let ghost m_loop = marks@;
        let ghost nodes_loop = nodes@;
        proof {
            assert(df.ins(node)[j as int] == o);
            assert(d.index < node.index);
            assert(df.is_out(o));
        }
        let m = marks[d.index];
        if m == 0 {
            visit(df, marks, coldness, inputs, effects, nodes, d);
            proof {
                assert(marks@[node.index as int] == 0) by {
                    if marks@[node.index as int] != m_loop[node.index as int] {
                        assert(marks@[node.index as int] == coldness);
                        assert(nodes@.contains(node));
                        let k = choose|k: int| 0 <= k < nodes@.len() && nodes@[k] == node;
                        if k < nodes_loop.len() {
                            assert(nodes_loop[k] == node);
                            assert(nodes_loop.contains(node));
                            assert(m_loop[node.index as int] == coldness);
                        } else {
                            assert(nodes@[k].index <= d.index);
                        }
                    }
                }
                assert forall|k: int|
                    old(nodes)@.len() <= k < nodes@.len() implies m_entry[(#[trigger] nodes@[k]).index as int] == 0
                    && nodes@[k].index < node.index by {
                    if k < nodes_loop.len() {
                        assert(nodes_loop[k] == nodes@[k]);
                    } else {
                        assert(m_loop[nodes@[k].index as int] == 0);
                        assert(nodes@[k].index <= d.index);
                    }
                }
                assert(df.op(d) != crate::dataflow::Op::Convention) by {
                    assert(df.ins(node)[j as int] == o);
                    assert(o.node == d);
                }
                assert forall|k: int|
                    old(nodes)@.len() <= k < nodes@.len() implies df.op(#[trigger] nodes@[k])
                    != crate::dataflow::Op::Convention by {
                    if k < nodes_loop.len() {
                        assert(nodes@[k] == nodes_loop[k]);
                    } else if k == nodes@.len() - 1 {
                        assert(nodes@[k] == d);
                    }
                }
            }
        } else if m < coldness {
            inputs.insert(o);
        }
        proof {
            assert(marks@[d.index as int] != 0);
        }
        j = j + 1;
    }

    // Mark `node` and append it.
    let ghost m_before = marks@;
    let ghost nodes_before = nodes@;
    marks.set(node.index, coldness);
    nodes.push(node);
    proof {
        df.lemma_wf();
        assert forall|k: int|
            old(nodes)@.len() <= k < nodes@.len() - 1 implies df.op(#[trigger] nodes@[k])
            != crate::dataflow::Op::Convention by {
            assert(nodes@[k] == nodes_before[k]);
        }
        let mf = marks@;
        let nf = nodes@;
        assert(nf =~= nodes_before.push(node));
        assert forall|n: Node| n.index < mf.len() implies ((#[trigger] mf[n.index as int])
            == coldness <==> nf.contains(n)) by {
            if n == node {
                assert(nf[nf.len() - 1] == node);
                assert(nf.contains(node));
            } else {
                if n.index == node.index {
                    assert(n == node);
                }
                assert(mf[n.index as int] == m_before[n.index as int]);
                if nf.contains(n) {
                    let k = choose|k: int| 0 <= k < nf.len() && nf[k] == n;
                    assert(k < nf.len() - 1);
                    assert(nodes_before[k] == n);
                    assert(nodes_before.contains(n));
                } else {
                    if nodes_before.contains(n) {
                        let k = choose|k: int| 0 <= k < nodes_before.len() && nodes_before[k] == n;
                        assert(nf[k] == n);
                        assert(nf.contains(n));
                    }
                }
            }
        }
        // The new node is distinct from everything listed before.
        assert forall|a: int, b: int| 0 <= a < b < nf.len() implies nf[a] != nf[b] by {
            if b == nf.len() - 1 {
                if nf[a] == node {
                    assert(nodes_before.contains(node));
                    assert(m_before[node.index as int] == coldness);
                }
            }
        }
        // Topological order is kept: nothing listed depends on `node`,
        // because every listed node's dependencies were marked while
        // `node` was still unmarked.
        assert forall|a: int, b: int|
            0 <= a < nf.len() && 0 <= b < nf.len() && #[trigger] df.is_prereq(nf[a], nf[b])
                implies b < a by {
            if a < nf.len() - 1 && b == nf.len() - 1 {
                // nf[a] is listed and has `node` as a dependency: its
                // dependencies are all marked in `m_before`, but
                // `m_before[node] == 0`.
                assert(nodes_before[a] == nf[a]);
                if df.deps(nf[a]).contains(node) {
                    let jj = choose|jj: int|
                        0 <= jj < df.deps(nf[a]).len() && df.deps(nf[a])[jj] == node;
                    assert(m_before[df.deps(nodes_before[a])[jj].index as int] != 0);
                    assert(false);
                } else {
                    let jj = choose|jj: int|
                        0 <= jj < df.ins(nf[a]).len() && df.ins(nf[a])[jj].node == node;
                    assert(m_before[df.ins(nodes_before[a])[jj].node.index as int] != 0);
                    assert(false);
                }
            }
            if a == nf.len() - 1 && b == nf.len() - 1 {
                // A node cannot depend on itself: dependencies point to
                // strictly earlier nodes.
                if df.deps(node).contains(node) {
                    let jj = choose|jj: int|
                        0 <= jj < df.deps(node).len() && df.deps(node)[jj] == node;
                    assert(df.deps(node)[jj].index < node.index);
                    assert(false);
                } else if df.is_prereq(node, node) {
                    let jj = choose|jj: int|
                        0 <= jj < df.ins(node).len() && df.ins(node)[jj].node == node;
                    assert(df.ins(node)[jj].node.index < node.index);
                    assert(false);
                }
            }
        }
        // The dependencies of the new node are all marked.
        assert forall|k: int, jj: int|
            0 <= k < nf.len() && 0 <= jj < df.deps(nf[k]).len() implies mf[(#[trigger] df.deps(
            nf[k],
        )[jj]).index as int] != 0 by {
            if k < nf.len() - 1 {
                assert(nodes_before[k] == nf[k]);
                assert(m_before[df.deps(nodes_before[k])[jj].index as int] != 0);
            } else {
                assert(m_before[df.deps(node)[jj].index as int] != 0);
            }
        }
        assert forall|k: int, jj: int|
            0 <= k < nf.len() && 0 <= jj < df.ins(nf[k]).len() implies mf[(#[trigger] df.ins(
            nf[k],
        )[jj]).node.index as int] != 0 by {
            if k < nf.len() - 1 {
                assert(nodes_before[k] == nf[k]);
                assert(m_before[df.ins(nodes_before[k])[jj].node.index as int] != 0);
            } else {
                assert(m_before[df.ins(node)[jj].node.index as int] != 0);
            }
        }
        // Hotter reads of the new node were recorded during the loops.
        assert forall|k: int, jj: int|
            0 <= k < nf.len() && 0 <= jj < df.ins(nf[k]).len() && 1 <= mf[(#[trigger] df.ins(
            nf[k],
        )[jj]).node.index as int] < coldness implies inputs@.contains(df.ins(nf[k])[jj]) by {
            if k < nf.len() - 1 {
                assert(nodes_before[k] == nf[k]);
                let o = df.ins(nodes_before[k])[jj];
                assert(mf[o.node.index as int] == m_before[o.node.index as int]);
            } else {
                let o = df.ins(node)[jj];
                assert(mf[o.node.index as int] == m_before[o.node.index as int]);
            }
        }
        assert forall|k: int, jj: int|
            0 <= k < nf.len() && 0 <= jj < df.deps(nf[k]).len() && 1 <= mf[(#[trigger] df.deps(
            nf[k],
        )[jj]).index as int] < coldness implies effects@.contains(df.deps(nf[k])[jj]) by {
            if k < nf.len() - 1 {
                assert(nodes_before[k] == nf[k]);
                let d = df.deps(nodes_before[k])[jj];
                assert(mf[d.index as int] == m_before[d.index as int]);
            } else {
                let d = df.deps(node)[jj];
                assert(mf[d.index as int] == m_before[d.index as int]);
            }
        }
    }
}

/// Returns the ordered list of unmarked nodes that the computation of
/// `exit` depends on, marking each of them with `coldness`.  Values and
/// effects read from nodes already marked (they belong to a hotter path)
/// are recorded in `inputs` and `effects` instead of being descended.
///
/// On return the listed nodes are in dependency order, with `exit` last;
/// the marks of all other nodes are unchanged.
pub fn flood(
    df: &Dataflow,
    marks: &mut Vec<usize>,
    coldness: usize,
    inputs: &mut OutSet,
    effects: &mut NodeSet,
    exit: Node,
) -> (nodes: Vec<Node>)
    requires
        df.wf(),
        conventions_are_sinks(*df),
        2 <= coldness,
        df.is_node(exit),
        old(marks)@.len() == df.len(),
        old(marks)@[exit.index as int] == 0,
        only_hotter_marks(old(marks)@, coldness),
        old(inputs)@ =~= Seq::<Out>::empty(),
        old(effects)@ =~= Seq::<Node>::empty(),
    ensures
        marks_extend(old(marks)@, final(marks)@, coldness),
        flood_inv(*df, final(marks)@, coldness, nodes@, final(inputs)@, final(effects)@),
        nodes@.len() > 0 && nodes@.last() == exit,
        forall|k: int|
            0 <= k < nodes@.len() ==> old(marks)@[(#[trigger] nodes@[k]).index as int] == 0,
        forall|k: int|
            0 <= k < nodes@.len() - 1 ==> df.op(#[trigger] nodes@[k])
                != crate::dataflow::Op::Convention,
        forall|x: Out|
            #[trigger] final(inputs)@.contains(x) ==> df.is_out(x) && 1 <= old(marks)@[x.node.index
                as int] < coldness,
        forall|x: Node|
            #[trigger] final(effects)@.contains(x) ==> df.is_node(x) && 1 <= old(marks)@[x.index
                as int] < coldness,
{
    let mut nodes: Vec<Node> = Vec::new();
    proof {
        assert forall|n: Node| n.index < marks@.len() implies !((#[trigger] marks@[n.index
            as int]) == coldness) by {
            assert(marks@[n.index as int] == 0 || 1 <= marks@[n.index as int] < coldness);
        }
    }
    visit(df, marks, coldness, inputs, effects, &mut nodes, exit);
    proof {
        assert(nodes@.last() == exit);
    }
    nodes
}

} // verus!
