use egraph_undo::egraph::{EGraph, ENode};
use egraph_undo::undo::{remove_top_enode, remove_unreachable, undo_rewrites, ENodeOrVar, Rewrite, Subst};

fn pat_node(op: usize, slots: Vec<usize>) -> ENodeOrVar {
    ENodeOrVar::ENode(ENode { op, children: slots })
}

fn subst(pairs: Vec<(usize, usize)>) -> Subst {
    Subst { pairs }
}

/// A class holding two leaves `op_a` and `op_b`.
fn two_leaf_graph(op_a: usize, op_b: usize) -> (EGraph, usize) {
    let mut eg = EGraph::new();
    let c = eg.add_class();
    assert!(eg.add_node(c, op_a, vec![]));
    assert!(eg.add_node(c, op_b, vec![]));
    (eg, c)
}

#[test]
fn var_root_pattern_is_noop() {
    // a pattern AST of length 1 with a Var root retracts nothing
    let (mut eg, c) = two_leaf_graph(1, 2);
    let ast = vec![ENodeOrVar::Var(0)];
    let r = remove_top_enode(&mut eg, &ast, &subst(vec![(0, c)]));
    assert_eq!(r, Ok(false));
    assert_eq!(eg.memo.len(), 2);
    assert_eq!(eg.classes[c].as_ref().unwrap().nodes.len(), 2);
}

#[test]
fn leaf_root_pattern_removes() {
    // an ENode leaf root resolves with zero children and is removed when the
    // class keeps another ground term
    let (mut eg, c) = two_leaf_graph(1, 2);
    let ast = vec![pat_node(2, vec![])];
    let r = remove_top_enode(&mut eg, &ast, &subst(vec![]));
    assert_eq!(r, Ok(true));
    let nodes = &eg.classes[c].as_ref().unwrap().nodes;
    assert_eq!(nodes.len(), 1);
    assert_eq!(nodes[0].op, 1);
    assert_eq!(eg.memo.len(), 1);
    assert_eq!(eg.lookup(&ENode { op: 2, children: vec![] }), None);
    assert_eq!(eg.lookup(&ENode { op: 1, children: vec![] }), Some(c));
}

#[test]
fn last_node_is_not_grounded() {
    // a class whose only e-node is the one to be removed is not grounded
    let mut eg = EGraph::new();
    let c = eg.add_class();
    assert!(eg.add_node(c, 5, vec![]));
    let ast = vec![pat_node(5, vec![])];
    let r = remove_top_enode(&mut eg, &ast, &subst(vec![]));
    assert_eq!(r, Ok(false));
    assert_eq!(eg.classes[c].as_ref().unwrap().nodes.len(), 1);
    assert_eq!(eg.memo.len(), 1);
}

#[test]
fn cyclic_witness_is_not_grounded() {
    // class a = { f(b) }, class b = { g(a) }: removing f(b) would leave only
    // a cyclic, infinite term, so the retraction is skipped
    let mut eg = EGraph::new();
    let a = eg.add_class();
    let b = eg.add_class();
    assert!(eg.add_node(a, 10, vec![b])); // f(b)
    assert!(eg.add_node(b, 11, vec![a])); // g(a)
    let ast = vec![ENodeOrVar::Var(0), pat_node(10, vec![0])];
    let r = remove_top_enode(&mut eg, &ast, &subst(vec![(0, b)]));
    assert_eq!(r, Ok(false));
    assert_eq!(eg.classes[a].as_ref().unwrap().nodes.len(), 1);
    assert_eq!(eg.memo.len(), 2);
}

#[test]
fn vanished_subterm_is_noop() {
    // an inner pattern e-node that no longer exists makes the whole
    // retraction a benign skip
    let (mut eg, c) = two_leaf_graph(1, 2);
    let ast = vec![pat_node(9, vec![]), pat_node(10, vec![0])];
    let r = remove_top_enode(&mut eg, &ast, &subst(vec![]));
    assert_eq!(r, Ok(false));
    assert_eq!(eg.memo.len(), 2);
    assert_eq!(eg.classes[c].as_ref().unwrap().nodes.len(), 2);
}

#[test]
fn empty_pattern_is_an_error() {
    let (mut eg, _c) = two_leaf_graph(1, 2);
    let ast: Vec<ENodeOrVar> = vec![];
    let r = remove_top_enode(&mut eg, &ast, &subst(vec![]));
    assert_eq!(r, Err("pattern_ast should not be empty".to_owned()));
}

#[test]
fn missing_binding_is_an_error() {
    let mut eg = EGraph::new();
    let a = eg.add_class();
    let b = eg.add_class();
    assert!(eg.add_node(a, 1, vec![]));
    assert!(eg.add_node(b, 10, vec![a]));
    let ast = vec![ENodeOrVar::Var(0), pat_node(10, vec![0])];
    let r = remove_top_enode(&mut eg, &ast, &subst(vec![(7, a)]));
    assert_eq!(r, Err("substitution should contain variable".to_owned()));
}

#[test]
fn second_retraction_does_not_mutate() {
    // retracting the same top e-node twice: the second call finds no
    // hash-cons entry any more and leaves the e-graph untouched
    let (mut eg, c) = two_leaf_graph(1, 2);
    let ast = vec![pat_node(2, vec![])];
    assert_eq!(remove_top_enode(&mut eg, &ast, &subst(vec![])), Ok(true));
    let nodes_after = eg.classes[c].as_ref().unwrap().nodes.len();
    let memo_after = eg.memo.len();
    let r = remove_top_enode(&mut eg, &ast, &subst(vec![]));
    assert_eq!(r, Ok(false));
    assert_eq!(eg.classes[c].as_ref().unwrap().nodes.len(), nodes_after);
    assert_eq!(eg.memo.len(), memo_after);
}

/// Root class 0 reaches classes 1, 2 and 3; classes 4 and 5 are orphans.
fn reachable_graph() -> (EGraph, usize) {
    let mut eg = EGraph::new();
    let r = eg.add_class();
    let c1 = eg.add_class();
    let c2 = eg.add_class();
    let c3 = eg.add_class();
    let c4 = eg.add_class();
    let c5 = eg.add_class();
    assert!(eg.add_node(c1, 1, vec![]));
    assert!(eg.add_node(c2, 2, vec![]));
    assert!(eg.add_node(c3, 3, vec![]));
    assert!(eg.add_node(r, 20, vec![c1, c2, c3]));
    assert!(eg.add_node(c4, 4, vec![]));
    assert!(eg.add_node(c5, 5, vec![c4]));
    (eg, r)
}

#[test]
fn gc_counts_dropped_classes() {
    let (mut eg, r) = reachable_graph();
    let memo_before = eg.memo.len();
    let dropped = remove_unreachable(&mut eg, &vec![r]);
    assert_eq!(dropped, 2);
    // the memo shrank by exactly the e-nodes of the two orphan classes
    assert_eq!(eg.memo.len(), memo_before - 2);
    assert!(eg.classes[4].is_none());
    assert!(eg.classes[5].is_none());
    for c in 0..4 {
        assert!(eg.classes[c].is_some());
    }
}

#[test]
fn gc_is_idempotent() {
    let (mut eg, r) = reachable_graph();
    let first = remove_unreachable(&mut eg, &vec![r]);
    assert_eq!(first, 2);
    let second = remove_unreachable(&mut eg, &vec![r]);
    assert_eq!(second, 0);
}

#[test]
fn gc_trims_op_index() {
    let (mut eg, r) = reachable_graph();
    eg.add_op_index(4, vec![4]);
    eg.add_op_index(20, vec![0]);
    remove_unreachable(&mut eg, &vec![r]);
    assert_eq!(eg.classes_by_op[0].0, 4);
    assert!(eg.classes_by_op[0].1.is_empty());
    assert_eq!(eg.classes_by_op[1].0, 20);
    assert_eq!(eg.classes_by_op[1].1, vec![0]);
}

#[test]
fn variable_only_rhs_is_skipped() {
    // a rewrite whose applier pattern is a single variable never removes an
    // e-node, regardless of how many substitutions matched
    let (mut eg, c) = two_leaf_graph(1, 2);
    let rw = Rewrite { applier_ast: Some(vec![ENodeOrVar::Var(0)]) };
    let substs = vec![
        subst(vec![(0, c)]),
        subst(vec![(0, c)]),
        subst(vec![(0, c)]),
    ];
    let r = undo_rewrites(&mut eg, &vec![(rw, substs)], &vec![c]);
    assert_eq!(r, Ok(()));
    assert_eq!(eg.memo.len(), 2);
    assert_eq!(eg.classes[c].as_ref().unwrap().nodes.len(), 2);
}

#[test]
fn single_match_is_kept_and_gc_still_runs() {
    // with at most one substitution nothing is retracted, but the
    // unreachable sweep still runs
    let (mut eg, r) = reachable_graph();
    let rw = Rewrite { applier_ast: Some(vec![pat_node(1, vec![])]) };
    let substs = vec![subst(vec![])];
    let res = undo_rewrites(&mut eg, &vec![(rw, substs)], &vec![r]);
    assert_eq!(res, Ok(()));
    assert!(eg.classes[4].is_none());
    assert!(eg.classes[5].is_none());
    assert_eq!(eg.classes[1].as_ref().unwrap().nodes.len(), 1);
}

#[test]
fn undo_rewrites_retracts_later_matches() {
    // two matches of a leaf-introducing rewrite: the first is kept as a
    // witness, the second is retracted
    let mut eg = EGraph::new();
    let a = eg.add_class();
    let b = eg.add_class();
    assert!(eg.add_node(a, 1, vec![]));
    assert!(eg.add_node(b, 2, vec![]));
    // the rewrite introduced 9(b) in class a and 9(a) in class b
    assert!(eg.add_node(a, 9, vec![b]));
    assert!(eg.add_node(b, 9, vec![a]));
    let rw = Rewrite { applier_ast: Some(vec![ENodeOrVar::Var(0), pat_node(9, vec![0])]) };
    let substs = vec![subst(vec![(0, b)]), subst(vec![(0, a)])];
    let res = undo_rewrites(&mut eg, &vec![(rw, substs)], &vec![a]);
    assert_eq!(res, Ok(()));
    // the first match (9(b), the witness) stays, the second (9(a)) is gone
    assert_eq!(eg.lookup(&ENode { op: 9, children: vec![a] }), None);
    assert_eq!(eg.lookup(&ENode { op: 9, children: vec![b] }), Some(a));
    assert_eq!(eg.classes[b].as_ref().unwrap().nodes.len(), 1);
    assert_eq!(eg.classes[a].as_ref().unwrap().nodes.len(), 2);
}

#[test]
fn explanations_enabled_is_refused() {
    let (mut eg, c) = two_leaf_graph(1, 2);
    eg.set_explanations_enabled(true);
    let rw = Rewrite { applier_ast: Some(vec![ENodeOrVar::Var(0)]) };
    let r = undo_rewrites(&mut eg, &vec![(rw, vec![subst(vec![(0, c)])])], &vec![c]);
    assert_eq!(
        r,
        Err("undoing rewrites with explanations enabled is not supported".to_owned())
    );
    // nothing was touched
    assert_eq!(eg.memo.len(), 2);
}

#[test]
fn applier_without_pattern_is_refused() {
    let (mut eg, c) = two_leaf_graph(1, 2);
    let rw = Rewrite { applier_ast: None };
    let r = undo_rewrites(&mut eg, &vec![(rw, vec![])], &vec![c]);
    assert_eq!(r, Err("applier must support get_pattern_ast".to_owned()));
}

#[test]
fn empty_pattern_propagates_from_undo_rewrites() {
    let (mut eg, c) = two_leaf_graph(1, 2);
    let rw = Rewrite { applier_ast: Some(vec![]) };
    let substs = vec![subst(vec![]), subst(vec![])];
    let r = undo_rewrites(&mut eg, &vec![(rw, substs)], &vec![c]);
    assert_eq!(r, Err("pattern_ast should not be empty".to_owned()));
}

#[test]
fn memo_only_holds_live_classes() {
    // after any operation every memo entry still names a live class
    let (mut eg, r) = reachable_graph();
    let ast = vec![pat_node(2, vec![])];
    let _ = remove_top_enode(&mut eg, &ast, &subst(vec![]));
    let _ = remove_unreachable(&mut eg, &vec![r]);
    for (_, class) in &eg.memo {
        assert!(eg.classes[*class].is_some());
    }
}
