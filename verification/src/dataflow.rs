//! The dataflow graph: nodes, their data and effect dependencies, and
//! their cost metadata.
//!
//! A [`Node`] is an index into an owning arena.  Dependencies always point
//! towards lower indices, so the graph is acyclic by construction, and the
//! entry node (index `0`) precedes everything.

use vstd::prelude::*;

use crate::code::{DivisionOp, Precision, UnaryOp, Width};

verus! {

use crate::code::BinaryOp;

/// The identity of a dataflow node: an index into the owning [`Dataflow`].
#[derive(Debug, Copy, Clone, PartialEq, Eq, Hash, Structural)]
pub struct Node {
    pub index: usize,
}

/// One output value of a [`Node`]: the defining node and the position of
/// this value among its outputs.
#[derive(Debug, Copy, Clone, PartialEq, Eq, Hash, Structural)]
pub struct Out {
    pub node: Node,
    pub index: usize,
}

/// The operation a dataflow node performs.
#[derive(Debug, Copy, Clone, PartialEq, Eq, Hash, Structural)]
pub enum Op {
    /// The entry node: its outputs are the values live on entry.
    Input,
    /// An exit point obeying a calling convention.
    Convention,
    /// A guard: its outcome selects the hot or a cold successor.
    Guard,
    Constant(Precision, i64),
    Unary(UnaryOp, Precision),
    Binary(BinaryOp, Precision),
    Division(DivisionOp, Precision),
    Load(Width),
    Store(Width),
}

/// An estimate of the execution resources a node consumes.
#[derive(Debug, Copy, Clone, PartialEq, Eq, Hash, Structural)]
pub struct Resources(pub u64);

impl Resources {
    pub fn new(units: u64) -> (r: Resources)
        ensures
            r == (Resources(units)),
    {
        Resources(units)
    }
}

/// The cost of executing a node: its latency and its resource usage.
/// A node with zero resource usage is a no-op.
#[derive(Debug, Copy, Clone, PartialEq, Eq, Hash, Structural)]
pub struct Cost {
    pub latency: u64,
    pub resources: Resources,
}

/// The [`Cost`] of each [`Op`].  `Input`, `Convention` and `Guard` nodes
/// compute nothing themselves.
pub open spec fn op_cost(op: Op) -> Cost {
    match op {
        Op::Input => Cost { latency: 0, resources: Resources(0) },
        Op::Convention => Cost { latency: 0, resources: Resources(0) },
        Op::Guard => Cost { latency: 0, resources: Resources(0) },
        Op::Constant(_, _) => Cost { latency: 1, resources: Resources(1) },
        Op::Unary(_, _) => Cost { latency: 1, resources: Resources(1) },
        Op::Binary(_, _) => Cost { latency: 1, resources: Resources(1) },
        Op::Division(_, _) => Cost { latency: 30, resources: Resources(1) },
        Op::Load(_) => Cost { latency: 3, resources: Resources(1) },
        Op::Store(_) => Cost { latency: 3, resources: Resources(1) },
    }
}

/// The payload of one node of the graph.
#[derive(Debug, Clone)]
struct NodeData {
    /// What the node does.
    op: Op,
    /// Nodes whose side effects must happen before this node.
    deps: Vec<Node>,
    /// The values this node reads, in operand order.
    ins: Vec<Out>,
    /// How many values this node defines.
    num_outs: usize,
}

/// An acyclic dataflow graph.
///
/// Node `0` is the entry node; every dependency edge points from a node to
/// a strictly earlier node.
#[derive(Debug, Clone)]
pub struct Dataflow {
    nodes: Vec<NodeData>,
}

impl Dataflow {
    /// The number of nodes in the graph.
    pub closed spec fn len(self) -> int {
        self.nodes@.len() as int
    }

    /// The operation of node `n`.
    pub closed spec fn op(self, n: Node) -> Op {
        self.nodes@[n.index as int].op
    }

    /// The effect dependencies of node `n`.
    pub closed spec fn deps(self, n: Node) -> Seq<Node> {
        self.nodes@[n.index as int].deps@
    }

    /// The data inputs of node `n`.
    pub closed spec fn ins(self, n: Node) -> Seq<Out> {
        self.nodes@[n.index as int].ins@
    }

    /// The number of outputs of node `n`.
    pub closed spec fn num_outs(self, n: Node) -> int {
        self.nodes@[n.index as int].num_outs as int
    }

    /// `n` is a node of this graph.
    pub open spec fn is_node(self, n: Node) -> bool {
        n.index < self.len()
    }

    /// `o` is an output of a node of this graph.
    pub open spec fn is_out(self, o: Out) -> bool {
        self.is_node(o.node) && o.index < self.num_outs(o.node)
    }

    /// There is a dependency edge, for data or for effect, from `n` to `d`:
    /// `d` must be computed before `n`.
    pub open spec fn is_prereq(self, n: Node, d: Node) -> bool {
        self.deps(n).contains(d) || exists|i: int|
            0 <= i < self.ins(n).len() && #[trigger] self.ins(n)[i].node == d
    }

    /// Well-formedness: the graph is nonempty, node `0` is the entry, and
    /// every dependency points to a strictly earlier node.
    /// [`Dataflow::new`] establishes it and [`Dataflow::add_node`] preserves
    /// it.
    pub closed spec fn wf(self) -> bool {
        &&& 1 <= self.len()
        &&& self.op(Node { index: 0 }) == Op::Input
        &&& self.deps(Node { index: 0 }) =~= Seq::<Node>::empty()
        &&& self.ins(Node { index: 0 }) =~= Seq::<Out>::empty()
        &&& forall|n: int, i: int|
            0 <= n < self.len() && 0 <= i < self.deps(Node { index: n as usize }).len()
                ==> (#[trigger] self.deps(Node { index: n as usize })[i]).index < n
        &&& forall|n: int, i: int|
            0 <= n < self.len() && 0 <= i < self.ins(Node { index: n as usize }).len() ==> {
                let o = #[trigger] self.ins(Node { index: n as usize })[i];
                o.node.index < n && o.index < self.num_outs(o.node)
            }
    }

    /// Makes the well-formedness of the graph available to proofs.
    pub proof fn lemma_wf(&self)
        requires
            self.wf(),
        ensures
            1 <= self.len(),
            self.op(Node { index: 0 }) == Op::Input,
            forall|n: Node, i: int|
                self.is_node(n) && 0 <= i < self.deps(n).len()
                    ==> (#[trigger] self.deps(n)[i]).index < n.index,
            forall|n: Node, i: int|
                self.is_node(n) && 0 <= i < self.ins(n).len() ==> {
                    let o = #[trigger] self.ins(n)[i];
                    o.node.index < n.index && self.is_out(o)
                },
    {
        assert forall|n: Node, i: int|
            self.is_node(n) && 0 <= i < self.deps(n).len() implies (#[trigger] self.deps(n)[
            i]).index < n.index by {
            let ni = n.index as int;
            assert(self.deps(Node { index: ni as usize })[i].index < ni);
        }
        assert forall|n: Node, i: int|
            self.is_node(n) && 0 <= i < self.ins(n).len() implies {
            let o = #[trigger] self.ins(n)[i];
            o.node.index < n.index && self.is_out(o)
        } by {
            let ni = n.index as int;
            assert(self.ins(Node { index: ni as usize })[i].node.index < ni);
            assert(self.ins(Node { index: ni as usize })[i].index < self.num_outs(
                self.ins(Node { index: ni as usize })[i].node));
        }
    }

    /// Constructs a graph holding only the entry node, with `num_outs`
    /// outputs: the values that are live on entry.
    pub fn new(num_outs: usize) -> (df: Dataflow)
        ensures
            df.wf(),
            df.len() == 1,
            df.op(Node { index: 0 }) == Op::Input,
            df.num_outs(Node { index: 0 }) == num_outs,
    {
        let entry = NodeData { op: Op::Input, deps: Vec::new(), ins: Vec::new(), num_outs };
        let df = Dataflow { nodes: vec![entry] };
        proof {
            assert(df.deps(Node { index: 0 }) =~= Seq::<Node>::empty());
            assert(df.ins(Node { index: 0 }) =~= Seq::<Out>::empty());
        }
        df
    }

    /// The entry node of the graph.
    pub fn entry_node(&self) -> (n: Node)
        requires
            self.wf(),
        ensures
            n == (Node { index: 0 }),
            self.is_node(n),
    {
        Node { index: 0 }
    }

    /// The number of nodes, as an executable value.
    pub fn num_nodes(&self) -> (n: usize)
        ensures
            n as int == self.len(),
    {
        self.nodes.len()
    }

    /// Appends a node performing `op`, whose side effects must follow
    /// those of `deps` and which reads the values `ins`, and which defines
    /// `num_outs` fresh values.  Returns the new node.
    pub fn add_node(&mut self, op: Op, deps: &Vec<Node>, ins: &Vec<Out>, num_outs: usize) -> (n:
        Node)
        requires
            old(self).wf(),
            op != Op::Input,
            forall|i: int| 0 <= i < deps@.len() ==> old(self).is_node(#[trigger] deps@[i]),
            forall|i: int| 0 <= i < ins@.len() ==> old(self).is_out(#[trigger] ins@[i]),
            old(self).len() < usize::MAX,
        ensures
            final(self).wf(),
            final(self).len() == old(self).len() + 1,
            n.index == old(self).len(),
            final(self).op(n) == op,
            final(self).deps(n) =~= deps@,
            final(self).ins(n) =~= ins@,
            final(self).num_outs(n) == num_outs,
            // The rest of the graph is unchanged.
            forall|m: Node| old(self).is_node(m) ==> final(self).op(m) == old(self).op(m),
            forall|m: Node| old(self).is_node(m) ==> final(self).deps(m) =~= old(self).deps(m),
            forall|m: Node| old(self).is_node(m) ==> final(self).ins(m) =~= old(self).ins(m),
            forall|m: Node|
                old(self).is_node(m) ==> final(self).num_outs(m) == old(self).num_outs(m),
    {
        let n = Node { index: self.nodes.len() };
        let data = NodeData { op, deps: deps.clone(), ins: ins.clone(), num_outs };
        self.nodes.push(data);
        proof {
            assert(self.deps(n) =~= deps@);
            assert(self.ins(n) =~= ins@);
            assert forall|m: Node| old(self).is_node(m) implies final(self).deps(m) =~= old(
                self,
            ).deps(m) by {}
            assert forall|m: Node| old(self).is_node(m) implies final(self).ins(m) =~= old(
                self,
            ).ins(m) by {}
        }
        n
    }

    /// The operation of `node`.
    pub fn node_op(&self, node: Node) -> (op: Op)
        requires
            self.is_node(node),
        ensures
            op == self.op(node),
    {
        self.nodes[node.index].op
    }

    /// The cost of `node`.
    pub fn cost(&self, node: Node) -> (c: Cost)
        requires
            self.is_node(node),
        ensures
            c == op_cost(self.op(node)),
    {
        match self.nodes[node.index].op {
            Op::Input => Cost { latency: 0, resources: Resources(0) },
            Op::Convention => Cost { latency: 0, resources: Resources(0) },
            Op::Guard => Cost { latency: 0, resources: Resources(0) },
            Op::Constant(_, _) => Cost { latency: 1, resources: Resources(1) },
            Op::Unary(_, _) => Cost { latency: 1, resources: Resources(1) },
            Op::Binary(_, _) => Cost { latency: 1, resources: Resources(1) },
            Op::Division(_, _) => Cost { latency: 30, resources: Resources(1) },
            Op::Load(_) => Cost { latency: 3, resources: Resources(1) },
            Op::Store(_) => Cost { latency: 3, resources: Resources(1) },
        }
    }

    /// The effect dependencies of `node`.
    pub fn node_deps(&self, node: Node) -> (deps: &Vec<Node>)
        requires
            self.is_node(node),
        ensures
            deps@ =~= self.deps(node),
    {
        &self.nodes[node.index].deps
    }

    /// The data inputs of `node`.
    pub fn node_ins(&self, node: Node) -> (ins: &Vec<Out>)
        requires
            self.is_node(node),
        ensures
            ins@ =~= self.ins(node),
    {
        &self.nodes[node.index].ins
    }

    /// The number of outputs of `node`, as an executable value.
    pub fn node_num_outs(&self, node: Node) -> (n: usize)
        requires
            self.is_node(node),
        ensures
            n as int == self.num_outs(node),
    {
        self.nodes[node.index].num_outs
    }

    /// The outputs of `node`, in order.
    pub fn outs(&self, node: Node) -> (outs: Vec<Out>)
        requires
            self.is_node(node),
        ensures
            outs@.len() == self.num_outs(node),
            forall|i: int|
                0 <= i < outs@.len() ==> outs@[i] == (Out { node, index: i as usize }),
    {
        let n = self.nodes[node.index].num_outs;
        let mut outs: Vec<Out> = Vec::new();
        let mut i: usize = 0;
        while i < n
            invariant
                i <= n,
                n == self.num_outs(node),
                outs@.len() == i,
                forall|j: int|
                    0 <= j < outs@.len() ==> outs@[j] == (Out { node, index: j as usize }),
            decreases n - i,
        {
            outs.push(Out { node, index: i });
            i = i + 1;
        }
        outs
    }

    /// The defining node and output position of `o`.
    pub fn out(&self, o: Out) -> (r: (Node, usize))
        ensures
            r == (o.node, o.index),
    {
        (o.node, o.index)
    }

    /// A fresh map from the nodes of this graph to `usize`, initially zero:
    /// used as the `marks` array of a traversal.
    pub fn node_map(&self) -> (m: Vec<usize>)
        ensures
            m@.len() == self.len(),
            forall|i: int| 0 <= i < m@.len() ==> m@[i] == 0usize,
    {
        let n = self.nodes.len();
        let mut m: Vec<usize> = Vec::new();
        let mut i: usize = 0;
        while i < n
            invariant
                i <= n,
                m@.len() == i,
                forall|j: int| 0 <= j < m@.len() ==> m@[j] == 0usize,
            decreases n - i,
        {
            m.push(0);
            i = i + 1;
        }
        m
    }
}

} // verus!
