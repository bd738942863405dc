//! Tests of the register allocator and the builder.

use mijit::allocator::{allocate, GuardKeeps, Instruction};
use mijit::builder::{all_registers, build, Builder};
use mijit::cft::CFT;
use mijit::code::Precision::P64;
use mijit::code::{
    empty_convention, Action, BinaryOp, Convention, Ending, Leaf, Switch, Variable, NUM_REGISTERS,
};
use mijit::dataflow::{Dataflow, Node, Op, Out};
use mijit::util::{NodeSet, OutMap};

fn leaf() -> Leaf {
    Leaf {
        weight: 1,
        after: empty_convention(0),
    }
}

#[test]
fn registers() {
    let regs = all_registers();
    assert_eq!(regs.len(), NUM_REGISTERS);
    for i in 0..regs.len() {
        for j in 0..i {
            assert_ne!(regs[i], regs[j]);
        }
    }
}

#[test]
fn schedule_keeps_order() {
    // Three constants and an addition: the schedule is the node list, in
    // order, and every value gets a register.
    let mut df = Dataflow::new(0);
    let entry = df.entry_node();
    let c1 = df.add_node(Op::Constant(P64, 1), &vec![], &vec![], 1);
    let c2 = df.add_node(Op::Constant(P64, 2), &vec![], &vec![], 1);
    let o1 = Out { node: c1, index: 0 };
    let o2 = Out { node: c2, index: 0 };
    let add = df.add_node(Op::Binary(BinaryOp::Add, P64), &vec![], &vec![o1, o2], 1);
    let _ = entry;
    let nodes = vec![c1, c2, add];
    let effects = NodeSet::new();
    let variables: OutMap<Variable> = OutMap::new();
    let keeps: Vec<GuardKeeps> = Vec::new();
    let (instrs, alloc, _tr) = allocate(&effects, &variables, &df, &nodes, &keeps).unwrap();
    let scheduled: Vec<Node> = instrs
        .iter()
        .filter_map(|i| match i {
            Instruction::Node(n) => Some(*n),
            Instruction::Spill(_, _) => None,
        })
        .collect();
    assert_eq!(scheduled, nodes);
    let r1 = alloc.get(o1).unwrap();
    let r2 = alloc.get(o2).unwrap();
    let r3 = alloc.get(Out { node: add, index: 0 }).unwrap();
    // The two operands are live at the same time: distinct registers.
    assert_ne!(r1, r2);
    let _ = r3;
}

#[test]
fn too_many_outputs_fail() {
    // A node that defines as many values as there are registers cannot
    // be allocated: there would be no room to spill in pairs.
    let mut df = Dataflow::new(0);
    let big = df.add_node(Op::Division(mijit::code::DivisionOp::SignedDivMod, P64), &vec![], &vec![], NUM_REGISTERS);
    let nodes = vec![big];
    let effects = NodeSet::new();
    let variables: OutMap<Variable> = OutMap::new();
    let keeps: Vec<GuardKeeps> = Vec::new();
    assert!(allocate(&effects, &variables, &df, &nodes, &keeps).is_err());
}

#[test]
fn straight_line_build() {
    // entry(a, b) -> add -> exit.  The built block holds one addition.
    let mut df = Dataflow::new(2);
    let entry = df.entry_node();
    let a = Out { node: entry, index: 0 };
    let b = Out { node: entry, index: 1 };
    let add = df.add_node(Op::Binary(BinaryOp::Add, P64), &vec![], &vec![a, b], 1);
    let s = Out { node: add, index: 0 };
    let exit = df.add_node(Op::Convention, &vec![], &vec![s], 0);
    let cft = CFT::Merge {
        exit,
        leaf: leaf(),
    };
    let regs = all_registers();
    let before = Convention {
        live_values: vec![
            Variable::Register(regs[0]),
            Variable::Register(regs[1]),
        ],
        slots_used: 0,
    };
    let ebb = build(&before, &df, &cft).0.unwrap();
    assert_eq!(ebb.actions.len(), 1);
    match &ebb.actions[0] {
        Action::Binary(BinaryOp::Add, P64, _, s1, s2) => {
            assert_eq!(*s1, Variable::Register(regs[0]));
            assert_eq!(*s2, Variable::Register(regs[1]));
        }
        other => panic!("unexpected action {:?}", other),
    }
    match ebb.ending {
        Ending::Leaf(l) => assert_eq!(l, leaf()),
        Ending::Switch(_) => panic!("unexpected switch"),
    }
}

#[test]
fn guard_builds_switch() {
    // entry(x) -> guard(x); hot exit and cold exit both return x.
    let mut df = Dataflow::new(1);
    let entry = df.entry_node();
    let x = Out { node: entry, index: 0 };
    let guard = df.add_node(Op::Guard, &vec![], &vec![x], 0);
    let hot_exit = df.add_node(Op::Convention, &vec![guard], &vec![x], 0);
    let cold_exit = df.add_node(Op::Convention, &vec![guard], &vec![x], 0);
    let cft = CFT::switch(
        guard,
        vec![CFT::Merge {
            exit: hot_exit,
            leaf: leaf(),
        }],
        CFT::Merge {
            exit: cold_exit,
            leaf: leaf(),
        },
        0,
    );
    let regs = all_registers();
    let before = Convention {
        live_values: vec![Variable::Register(regs[0])],
        slots_used: 0,
    };
    let ebb = build(&before, &df, &cft).0.unwrap();
    match ebb.ending {
        Ending::Switch(Switch::Index {
            discriminant,
            cases,
            default_,
        }) => {
            assert_eq!(discriminant, Variable::Register(regs[0]));
            assert_eq!(cases.len(), 1);
            let _ = default_;
        }
        Ending::Leaf(_) => panic!("expected a switch"),
    }
}

#[test]
fn spill_round_trip() {
    // More values stay live across a guard than there are registers, so
    // the builder must spill a pair to slots.
    let n_live = NUM_REGISTERS + 1;
    let mut df = Dataflow::new(0);
    let mut consts: Vec<Out> = Vec::new();
    let mut const_nodes: Vec<Node> = Vec::new();
    for i in 0..n_live {
        let c = df.add_node(Op::Constant(P64, i as i64), &vec![], &vec![], 1);
        const_nodes.push(c);
        consts.push(Out { node: c, index: 0 });
    }
    // The guard comes after every constant, and both exits read every
    // constant: all of them are live at once across the guard.
    let guard = df.add_node(Op::Guard, &const_nodes, &vec![consts[0]], 0);
    let hot_exit = df.add_node(Op::Convention, &vec![guard], &consts, 0);
    let cold_exit = df.add_node(Op::Convention, &vec![guard], &consts, 0);
    let cft = CFT::switch(
        guard,
        vec![CFT::Merge {
            exit: hot_exit,
            leaf: leaf(),
        }],
        CFT::Merge {
            exit: cold_exit,
            leaf: leaf(),
        },
        0,
    );
    let before = Convention {
        live_values: vec![],
        slots_used: 0,
    };
    let ebb = build(&before, &df, &cft).0.unwrap();
    // Some value was moved to a spill slot.
    let spills = ebb
        .actions
        .iter()
        .filter(|a| matches!(a, Action::Move(Variable::Slot(_), _)))
        .count();
    assert!(spills >= 2);
    // And all the constants are emitted.
    let constants = ebb
        .actions
        .iter()
        .filter(|a| matches!(a, Action::Constant(_, _, _)))
        .count();
    assert_eq!(constants, n_live);
}

#[test]
fn builder_restores_marks() {
    // After a walk, the entry node is marked 1 and everything else 0,
    // exactly as before.
    let mut df = Dataflow::new(1);
    let entry = df.entry_node();
    let x = Out { node: entry, index: 0 };
    let exit = df.add_node(Op::Convention, &vec![], &vec![x], 0);
    let cft: CFT<Leaf> = CFT::Merge {
        exit,
        leaf: leaf(),
    };
    let tree = mijit::keep_alive::keep_alive_sets(&df, &cft);
    let mut builder = Builder::new(&df);
    let marks_before = builder.marks.clone();
    let regs = all_registers();
    let mut input_map: OutMap<Variable> = OutMap::new();
    input_map.insert(x, Variable::Register(regs[0]));
    let _ = builder.walk(&tree, 2, 0, &input_map).0.unwrap();
    assert_eq!(builder.marks, marks_before);
}
