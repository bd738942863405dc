//! Tests of the keep-alive analysis.

use mijit::cft::{Cold, CFT};
use mijit::code::{empty_convention, Leaf};
use mijit::dataflow::{Dataflow, Node, Op, Out};
use mijit::keep_alive::{keep_alive_sets, GuardFailure, HotPathTree, KeepAlive};
use mijit::util::OutSet;

fn guard_failure(
    guard: Node,
    hot_index: usize,
    keep: &[Out],
    colds: Vec<HotPathTree<Leaf>>,
) -> GuardFailure<Leaf> {
    let mut keep_alives = OutSet::new();
    for &o in keep {
        keep_alives.insert(o);
    }
    GuardFailure {
        cold: Cold {
            guard,
            hot_index,
            colds,
        },
        keep_alives,
    }
}

fn set_eq(a: &OutSet, b: &OutSet) -> bool {
    if a.len() != b.len() {
        return false;
    }
    for i in 0..a.len() {
        if !b.contains(a.get(i)) {
            return false;
        }
    }
    true
}

fn gf_eq(a: &GuardFailure<Leaf>, b: &GuardFailure<Leaf>) -> bool {
    a.cold.guard == b.cold.guard
        && a.cold.hot_index == b.cold.hot_index
        && set_eq(&a.keep_alives, &b.keep_alives)
        && a.cold.colds.len() == b.cold.colds.len()
        && a.cold
            .colds
            .iter()
            .zip(b.cold.colds.iter())
            .all(|(x, y)| tree_eq(x, y))
}

/// Equality of trees, with the guard failures treated as a map keyed by
/// guard, and the keep-alive sets as sets.
fn tree_eq(a: &HotPathTree<Leaf>, b: &HotPathTree<Leaf>) -> bool {
    a.exit == b.exit
        && a.leaf == b.leaf
        && a.children.len() == b.children.len()
        && a.children.iter().all(|ga| {
            b.children
                .iter()
                .any(|gb| ga.cold.guard == gb.cold.guard && gf_eq(ga, gb))
        })
}

/// ```text
/// if a { // guard1, switch1. kas: [c, r, s]
///     if b { // guard2, switch2. kas: [q]
///         return p; // hot_hot, merge4
///     } else {
///         return q; // hot_cold, merge5
///     }
/// } else {
///     if c { // guard3, switch3. kas: [s]
///         return r; // cold_hot, merge6
///     } else {
///         return s; // cold_cold, merge7
///     }
/// }
/// ```
#[test]
fn binary_tree() {
    // Dummy `Leaf`.
    let leaf = Leaf {
        weight: 1,
        after: empty_convention(0),
    };
    // Dataflow
    let mut dataflow = Dataflow::new(7);
    let ins: Vec<Out> = dataflow.outs(dataflow.entry_node());
    let a = ins[0];
    let b = ins[1];
    let c = ins[2];
    let p = ins[3];
    let q = ins[4];
    let r = ins[5];
    let s = ins[6];
    let guard1 = dataflow.add_node(Op::Guard, &vec![], &vec![a], 0);
    let guard2 = dataflow.add_node(Op::Guard, &vec![], &vec![b], 0);
    let guard3 = dataflow.add_node(Op::Guard, &vec![], &vec![c], 0);
    let hot_hot = dataflow.add_node(Op::Convention, &vec![guard1, guard2], &vec![p], 0);
    let hot_cold = dataflow.add_node(Op::Convention, &vec![guard1, guard2], &vec![q], 0);
    let cold_hot = dataflow.add_node(Op::Convention, &vec![guard1, guard3], &vec![r], 0);
    let cold_cold = dataflow.add_node(Op::Convention, &vec![guard1, guard3], &vec![s], 0);
    // CFT
    let merge4 = CFT::Merge {
        exit: hot_hot,
        leaf: leaf.clone(),
    };
    let merge5 = CFT::Merge {
        exit: hot_cold,
        leaf: leaf.clone(),
    };
    let merge6 = CFT::Merge {
        exit: cold_hot,
        leaf: leaf.clone(),
    };
    let merge7 = CFT::Merge {
        exit: cold_cold,
        leaf: leaf.clone(),
    };
    let switch2 = CFT::switch(guard2, vec![merge4], merge5, 0);
    let switch3 = CFT::switch(guard3, vec![merge6], merge7, 0);
    let switch1 = CFT::switch(guard1, vec![switch2], switch3, 0);
    // Test
    let expected = HotPathTree::new(
        hot_hot,
        leaf.clone(),
        vec![
            guard_failure(
                guard1,
                0,
                &[c, r, s],
                vec![HotPathTree::new(
                    cold_hot,
                    leaf.clone(),
                    vec![guard_failure(
                        guard3,
                        0,
                        &[s],
                        vec![HotPathTree::new(cold_cold, leaf.clone(), vec![])],
                    )],
                )],
            ),
            guard_failure(
                guard2,
                0,
                &[q],
                vec![HotPathTree::new(hot_cold, leaf.clone(), vec![])],
            ),
        ],
    );
    let observed = keep_alive_sets(&dataflow, &switch1);
    assert!(tree_eq(&observed, &expected));
}

/// After every call to `walk`, the marks are exactly as before: the
/// entry node at `1` and every other node at `0`.
#[test]
fn walk_restores_marks() {
    let leaf = Leaf {
        weight: 1,
        after: empty_convention(0),
    };
    let mut dataflow = Dataflow::new(2);
    let ins: Vec<Out> = dataflow.outs(dataflow.entry_node());
    let a = ins[0];
    let b = ins[1];
    let guard = dataflow.add_node(Op::Guard, &vec![], &vec![a], 0);
    let hot = dataflow.add_node(Op::Convention, &vec![guard], &vec![a], 0);
    let cold = dataflow.add_node(Op::Convention, &vec![guard], &vec![b], 0);
    let cft = CFT::switch(
        guard,
        vec![CFT::Merge {
            exit: hot,
            leaf: leaf.clone(),
        }],
        CFT::Merge {
            exit: cold,
            leaf: leaf.clone(),
        },
        0,
    );
    let mut ka = KeepAlive::new(&dataflow);
    let marks_before = ka.marks.clone();
    assert_eq!(marks_before[0], 1);
    assert!(marks_before[1..].iter().all(|&m| m == 0));
    let mut inputs = OutSet::new();
    let tree = ka.walk(&cft, &mut inputs, 2);
    assert_eq!(ka.marks, marks_before);
    // The guard keeps `b` alive: the cold path reads it.
    assert_eq!(tree.children.len(), 1);
    let gf = &tree.children[0];
    assert_eq!(gf.cold.guard, guard);
    assert_eq!(gf.keep_alives.len(), 1);
    assert!(gf.keep_alives.contains(b));
    // Both entry values are inputs of the tree.
    assert!(inputs.contains(a));
    assert!(inputs.contains(b));
}

/// Re-inserting the hot branch restores a full switch: the hot branch
/// lands at `hot_index` and the last successor becomes the default.
#[test]
fn insert_hot_restores_switch() {
    let n = |i: usize| Node { index: i };
    let cold = Cold {
        guard: n(9),
        hot_index: 1,
        colds: vec![n(1), n(2), n(3)],
    };
    let sw = cold.insert_hot(n(7));
    assert_eq!(sw.guard, n(9));
    assert_eq!(sw.cases, vec![n(1), n(7), n(2)]);
    assert_eq!(*sw.default_, n(3));
}
