//! The code generator: turns scheduled instructions into the actions of an
//! extended basic block, walking the schedule in reverse from the exit
//! towards the entry.

use vstd::prelude::*;

use crate::code::{Action, Ending, Register, Slot, Variable, EBB};
use crate::dataflow::{Dataflow, Node, Op, Out};
use crate::util::OutMap;

verus! {

/// The operands of `n` are available: its inputs have locations and its
/// outputs have destination registers, with the arity its operation
/// needs.
pub open spec fn node_operands_ok(
    df: Dataflow,
    alloc: Map<Out, Register>,
    vars: Map<Out, Variable>,
    n: Node,
) -> bool {
    match df.op(n) {
        Op::Constant(_, _) => df.num_outs(n) >= 1 && alloc.dom().contains(
            Out { node: n, index: 0 },
        ),
        Op::Unary(_, _) => {
            &&& df.num_outs(n) >= 1
            &&& alloc.dom().contains(Out { node: n, index: 0 })
            &&& df.ins(n).len() >= 1
            &&& vars.dom().contains(df.ins(n)[0])
        },
        Op::Binary(_, _) => {
            &&& df.num_outs(n) >= 1
            &&& alloc.dom().contains(Out { node: n, index: 0 })
            &&& df.ins(n).len() >= 2
            &&& vars.dom().contains(df.ins(n)[0])
            &&& vars.dom().contains(df.ins(n)[1])
        },
        Op::Division(_, _) => {
            &&& df.num_outs(n) >= 2
            &&& alloc.dom().contains(Out { node: n, index: 0 })
            &&& alloc.dom().contains(Out { node: n, index: 1 })
            &&& df.ins(n).len() >= 2
            &&& vars.dom().contains(df.ins(n)[0])
            &&& vars.dom().contains(df.ins(n)[1])
        },
        Op::Load(_) => {
            &&& df.num_outs(n) >= 1
            &&& alloc.dom().contains(Out { node: n, index: 0 })
            &&& df.ins(n).len() >= 1
            &&& vars.dom().contains(df.ins(n)[0])
        },
        Op::Store(_) => {
            &&& df.ins(n).len() >= 2
            &&& vars.dom().contains(df.ins(n)[0])
            &&& vars.dom().contains(df.ins(n)[1])
        },
        _ => false,
    }
}

/// The [`Action`] that executes node `n`, reading its operands from
/// `vars` and writing its results to the registers of `alloc`.
pub open spec fn node_action(
    df: Dataflow,
    alloc: Map<Out, Register>,
    vars: Map<Out, Variable>,
    n: Node,
) -> Action<(), ()> {
    match df.op(n) {
        Op::Constant(p, c) => Action::Constant(p, alloc[Out { node: n, index: 0 }], c),
        Op::Unary(u, p) => Action::Unary(
            u,
            p,
            alloc[Out { node: n, index: 0 }],
            vars[df.ins(n)[0]],
        ),
        Op::Binary(b, p) => Action::Binary(
            b,
            p,
            alloc[Out { node: n, index: 0 }],
            vars[df.ins(n)[0]],
            vars[df.ins(n)[1]],
        ),
        Op::Division(d, p) => Action::Division(
            d,
            p,
            alloc[Out { node: n, index: 0 }],
            alloc[Out { node: n, index: 1 }],
            vars[df.ins(n)[0]],
            vars[df.ins(n)[1]],
        ),
        Op::Load(w) => Action::Load(alloc[Out { node: n, index: 0 }], vars[df.ins(n)[0]], w, ()),
        Op::Store(w) => Action::Store(vars[df.ins(n)[0]], vars[df.ins(n)[1]], w, ()),
        _ => Action::Debug(Variable::Slot(Slot(0))),
    }
}

/// The state of the reverse pass: the destination registers, the
/// location of every value at the current program point, the number of
/// spill slots in use there, and the actions accumulated so far, in
/// reverse order.
pub struct CodeGen {
    /// The destination register of every value the schedule defines.
    allocation: OutMap<Register>,
    /// The location of every value at the current program point.
    variables: OutMap<Variable>,
    /// The number of spill slots in use at the current program point.
    slots_used: usize,
    /// The actions after the current program point, in reverse order.
    actions_rev: Vec<Action<(), ()>>,
}

impl CodeGen {
    /// The destination registers.
    pub closed spec fn dests(self) -> Map<Out, Register> {
        self.allocation@
    }

    /// The current locations.
    pub closed spec fn vars(self) -> Map<Out, Variable> {
        self.variables@
    }

    /// The current number of spill slots in use.
    pub closed spec fn slots(self) -> int {
        self.slots_used as int
    }

    /// The accumulated actions, in reverse order.
    pub closed spec fn rev_actions(self) -> Seq<Action<(), ()>> {
        self.actions_rev@
    }

    /// Starts a reverse pass at a program point with the given
    /// allocation, locations and slot count.
    pub fn new(allocation: OutMap<Register>, variables: OutMap<Variable>, slots_used: usize) -> (cg:
        CodeGen)
        ensures
            cg.dests() =~= allocation@,
            cg.vars() =~= variables@,
            cg.slots() == slots_used,
            cg.rev_actions() =~= Seq::<Action<(), ()>>::empty(),
    {
        CodeGen { allocation, variables, slots_used, actions_rev: Vec::new() }
    }

    /// The number of spill slots in use at the current point.
    pub fn slots_used(&self) -> (n: usize)
        ensures
            n == self.slots(),
    {
        self.slots_used
    }

    /// The current location of `o`, if it has one.
    pub fn read(&self, o: Out) -> (r: Option<Variable>)
        ensures
            match r {
                Some(v) => self.vars().dom().contains(o) && self.vars()[o] == v,
                None => !self.vars().dom().contains(o),
            },
    {
        self.variables.get(o)
    }

    /// The current locations, for a recursive walk of a cold path.
    pub fn variables_ref(&self) -> (r: &OutMap<Variable>)
        ensures
            r@ =~= self.vars(),
    {
        &self.variables
    }

    /// The destination register of `o`, if the schedule defines it.
    pub fn dest(&self, o: Out) -> (r: Option<Register>)
        ensures
            match r {
                Some(reg) => self.dests().dom().contains(o) && self.dests()[o] == reg,
                None => !self.dests().dom().contains(o),
            },
    {
        self.allocation.get(o)
    }

    /// Crosses a spill while walking backwards: before it, the two
    /// values still live at `v1` and `v2`, and the two topmost slots are
    /// not yet in use.  Emits the two stores.
    pub fn add_spill(&mut self, o1: Out, o2: Out, v1: Variable, v2: Variable)
        requires
            old(self).slots() >= 2,
        ensures
            final(self).dests() =~= old(self).dests(),
            final(self).slots() == old(self).slots() - 2,
            final(self).vars() =~= old(self).vars().insert(o1, v1).insert(o2, v2),
            final(self).rev_actions() =~= old(self).rev_actions().push(
                Action::Move(Variable::Slot(Slot((old(self).slots() - 1) as usize)), v2),
            ).push(Action::Move(Variable::Slot(Slot((old(self).slots() - 2) as usize)), v1)),
    {
        self.slots_used = self.slots_used - 2;
        // In reverse order: the store of `o2` happens second.
        self.actions_rev.push(Action::Move(Variable::Slot(Slot(self.slots_used + 1)), v2));
        self.actions_rev.push(Action::Move(Variable::Slot(Slot(self.slots_used)), v1));
        self.variables.insert(o1, v1);
        self.variables.insert(o2, v2);
    }

    /// Whether the operands of `node` are available, as
    /// [`node_operands_ok`] requires.
    pub fn operands_ok(&self, df: &Dataflow, node: Node) -> (r: bool)
        requires
            df.wf(),
            df.is_node(node),
        ensures
            r == node_operands_ok(*df, self.dests(), self.vars(), node),
    {
        match df.node_op(node) {
            Op::Constant(_, _) => df.node_num_outs(node) >= 1 && self.allocation.get(
                Out { node, index: 0 },
            ).is_some(),
            Op::Unary(_, _) => {
                let ins = df.node_ins(node);
                df.node_num_outs(node) >= 1 && self.allocation.get(
                    Out { node, index: 0 },
                ).is_some() && ins.len() >= 1 && self.variables.get(ins[0]).is_some()
            },
            Op::Binary(_, _) => {
                let ins = df.node_ins(node);
                df.node_num_outs(node) >= 1 && self.allocation.get(
                    Out { node, index: 0 },
                ).is_some() && ins.len() >= 2 && self.variables.get(ins[0]).is_some()
                    && self.variables.get(ins[1]).is_some()
            },
            Op::Division(_, _) => {
                let ins = df.node_ins(node);
                df.node_num_outs(node) >= 2 && self.allocation.get(
                    Out { node, index: 0 },
                ).is_some() && self.allocation.get(Out { node, index: 1 }).is_some() && ins.len()
                    >= 2 && self.variables.get(ins[0]).is_some() && self.variables.get(
                    ins[1],
                ).is_some()
            },
            Op::Load(_) => {
                let ins = df.node_ins(node);
                df.node_num_outs(node) >= 1 && self.allocation.get(
                    Out { node, index: 0 },
                ).is_some() && ins.len() >= 1 && self.variables.get(ins[0]).is_some()
            },
            Op::Store(_) => {
                let ins = df.node_ins(node);
                ins.len() >= 2 && self.variables.get(ins[0]).is_some() && self.variables.get(
                    ins[1],
                ).is_some()
            },
            _ => false,
        }
    }

    /// Crosses a computing node while walking backwards: emits its
    /// action.
    pub fn add_node(&mut self, df: &Dataflow, node: Node)
        requires
            df.wf(),
            df.is_node(node),
            node_operands_ok(*df, old(self).dests(), old(self).vars(), node),
        ensures
            final(self).dests() =~= old(self).dests(),
            final(self).vars() =~= old(self).vars(),
            final(self).slots() == old(self).slots(),
            final(self).rev_actions() =~= old(self).rev_actions().push(
                node_action(*df, old(self).dests(), old(self).vars(), node),
            ),
    {
        let action: Action<(), ()> = match df.node_op(node) {
            Op::Constant(p, c) => {
                let d = self.allocation.get(Out { node, index: 0 }).unwrap();
                Action::Constant(p, d, c)
            },
            Op::Unary(u, p) => {
                let d = self.allocation.get(Out { node, index: 0 }).unwrap();
                let ins = df.node_ins(node);
                let s = self.variables.get(ins[0]).unwrap();
                Action::Unary(u, p, d, s)
            },
            Op::Binary(b, p) => {
                let d = self.allocation.get(Out { node, index: 0 }).unwrap();
                let ins = df.node_ins(node);
                let s1 = self.variables.get(ins[0]).unwrap();
                let s2 = self.variables.get(ins[1]).unwrap();
                Action::Binary(b, p, d, s1, s2)
            },
            Op::Division(dv, p) => {
                let d1 = self.allocation.get(Out { node, index: 0 }).unwrap();
                let d2 = self.allocation.get(Out { node, index: 1 }).unwrap();
                let ins = df.node_ins(node);
                let s1 = self.variables.get(ins[0]).unwrap();
                let s2 = self.variables.get(ins[1]).unwrap();
                Action::Division(dv, p, d1, d2, s1, s2)
            },
            Op::Load(w) => {
                let d = self.allocation.get(Out { node, index: 0 }).unwrap();
                let ins = df.node_ins(node);
                let s = self.variables.get(ins[0]).unwrap();
                Action::Load(d, s, w, ())
            },
            Op::Store(w) => {
                let ins = df.node_ins(node);
                let s1 = self.variables.get(ins[0]).unwrap();
                let s2 = self.variables.get(ins[1]).unwrap();
                Action::Store(s1, s2, w, ())
            },
            _ => {
                proof {
                    assert(false);
                }
                Action::Debug(Variable::Slot(Slot(0)))
            },
        };
        self.actions_rev.push(action);
    }

    /// Closes the block accumulated so far with `ending`, in forward
    /// order, and starts a fresh block at the same program point.
    pub fn ebb<L>(&mut self, ending: Ending<L>) -> (r: EBB<L>)
        ensures
            final(self).dests() =~= old(self).dests(),
            final(self).vars() =~= old(self).vars(),
            final(self).slots() == old(self).slots(),
            final(self).rev_actions() =~= Seq::<Action<(), ()>>::empty(),
            r.actions@ =~= old(self).rev_actions().reverse(),
            r.ending == ending,
    {
        let n = self.actions_rev.len();
        let mut actions: Vec<Action<(), ()>> = Vec::new();
        let mut i: usize = n;
        while i > 0
            invariant
                i <= n,
                n == self.actions_rev@.len(),
                actions@.len() == n - i,
                forall|j: int|
                    0 <= j < actions@.len() ==> actions@[j] == self.actions_rev@[n - 1 - j],
            decreases i,
        {
            i = i - 1;
            actions.push(self.actions_rev[i]);
        }
        self.actions_rev = Vec::new();
        proof {
            assert(actions@ =~= old(self).rev_actions().reverse());
        }
        EBB { actions, ending }
    }
}

} // verus!
