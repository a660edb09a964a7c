use substrate::graph::deps::{compute_deps_for_node, extract_symbols};
use substrate::graph::ids::NodeId;
use substrate::graph::invalidate::invalidation_closure;
use substrate::graph::node::NodeKind;
use substrate::graph::store::GraphStore;
use substrate::graph::table::DepTable;
use substrate::harness::create_genesis_graph;
use substrate::lisp::ast::Expr;
use substrate::lisp::parse::parse;

#[test]
fn simple_invalidation() {
    let mut reverse = DepTable::new();
    reverse.insert(NodeId(1), vec![NodeId(2), NodeId(3)]);
    reverse.insert(NodeId(2), vec![NodeId(4)]);

    let changed = vec![NodeId(1)];
    let result = invalidation_closure(&changed, &reverse);
    assert!(result.contains(&NodeId(1)));
    assert!(result.contains(&NodeId(2)));
    assert!(result.contains(&NodeId(3)));
    assert!(result.contains(&NodeId(4)));
}

#[test]
fn invalidation_is_exactly_the_transitive_dependents() {
    let mut reverse = DepTable::new();
    reverse.insert(NodeId(1), vec![NodeId(2)]);
    reverse.insert(NodeId(2), vec![NodeId(1), NodeId(5)]);
    reverse.insert(NodeId(7), vec![NodeId(8)]);
    let result = invalidation_closure(&vec![NodeId(2)], &reverse);
    assert_eq!(result, vec![NodeId(1), NodeId(2), NodeId(5)]);
}

fn sig(name: &str, args: &[&str]) -> NodeKind {
    NodeKind::FuncSig {
        name: name.to_string(),
        args: args.iter().map(|a| a.to_string()).collect(),
        ret: None,
        effects: vec![],
    }
}

#[test]
fn dependencies_follow_named_calls() {
    let mut g = GraphStore::new();
    let f = g.alloc_id();
    let fb = g.alloc_id();
    let h = g.alloc_id();
    let hb = g.alloc_id();
    g.insert(f, sig("f", &["x"]));
    g.insert(fb, NodeKind::FuncBody { sig_id: f, ast: parse("(h x)").unwrap() });
    g.insert(h, sig("h", &["y"]));
    g.insert(hb, NodeKind::FuncBody { sig_id: h, ast: parse("(* y 2)").unwrap() });
    g.rebuild_all_deps();
    // A body depends on its own signature and on those of the functions it
    // calls; a change to h's signature invalidates both bodies.
    assert_eq!(g.forward_deps().get(fb), Some(&vec![f, h]));
    assert_eq!(g.forward_deps().get(f), Some(&vec![]));
    let inv = g.invalidation_closure(&vec![h]);
    assert_eq!(inv, vec![fb, h, hb]);
    let deps = compute_deps_for_node(fb, g.get(fb).unwrap(), g.name_index());
    assert_eq!(deps, vec![f, h]);
    let syms = extract_symbols(&parse("(h x (h 1))").unwrap());
    assert_eq!(syms.len(), 2);
}

#[test]
fn store_lookups() {
    let g = create_genesis_graph();
    assert_eq!(g.node_count(), 10);
    assert_eq!(
        g.body_node_ids(),
        vec![NodeId(2), NodeId(4), NodeId(6), NodeId(8), NodeId(10)]
    );
    assert_eq!(g.all_node_ids().len(), 10);
    let (abs_sig, node) = g.lookup_sig("abs").unwrap();
    assert_eq!(abs_sig, NodeId(5));
    assert_eq!(node.sig_name(), Some("abs"));
    let (abs_body, _) = g.find_body_for_sig(abs_sig).unwrap();
    assert_eq!(abs_body, NodeId(6));
    assert!(g.lookup_sig("missing").is_none());
    match g.get(NodeId(10)) {
        Some(NodeKind::FuncBody { ast, .. }) => assert_eq!(*ast, Expr::Symbol("x".to_string())),
        _ => panic!("identity's body"),
    }
}

#[test]
fn replace_moves_the_name_index() {
    let mut g = create_genesis_graph();
    let old = g.replace(NodeId(1), sig("plus", &["a", "b"]));
    assert_eq!(old, Some(sig("add", &["a", "b"])));
    assert!(g.lookup_sig("add").is_none());
    assert_eq!(g.lookup_sig("plus").unwrap().0, NodeId(1));
}

#[test]
fn alloc_after_replace_skips_used_ids() {
    let mut g = GraphStore::new();
    let old = g.replace(NodeId(1), sig("f", &["x"]));
    assert!(old.is_none());
    let fresh = g.alloc_id();
    assert_eq!(fresh, NodeId(2));
    assert!(g.get(fresh).is_none());
    g.replace(NodeId(7), sig("g", &[]));
    assert_eq!(g.alloc_id(), NodeId(8));
}

/// Every edge of the reverse table is an edge of the forward one turned round,
/// and the other way round.
fn assert_transposed(g: &GraphStore) {
    let ids = g.all_node_ids();
    for a in &ids {
        for b in &ids {
            let rev = g.reverse_deps().get(*a).map_or(false, |s| s.contains(b));
            let fwd = g.forward_deps().get(*b).map_or(false, |s| s.contains(a));
            assert_eq!(rev, fwd, "edge {:?} -> {:?}", b, a);
        }
    }
}

#[test]
fn reverse_edges_stay_the_transpose() {
    let mut g = GraphStore::new();
    let f = g.alloc_id();
    let fb = g.alloc_id();
    let h = g.alloc_id();
    let hb = g.alloc_id();
    g.insert(f, sig("f", &["x"]));
    g.insert(fb, NodeKind::FuncBody { sig_id: f, ast: parse("(h x)").unwrap() });
    g.insert(h, sig("h", &["y"]));
    g.insert(hb, NodeKind::FuncBody { sig_id: h, ast: parse("(+ y 1)").unwrap() });
    g.rebuild_all_deps();
    assert_transposed(&g);
    // A body depends on its own signature and on those it calls.
    assert_eq!(g.reverse_deps().get(h), Some(&vec![fb, hb]));
    // f's body stops calling h and calls f instead.
    g.replace(fb, NodeKind::FuncBody { sig_id: f, ast: parse("(f x)").unwrap() });
    g.rebuild_deps_for(&[fb]);
    assert_transposed(&g);
    assert_eq!(g.reverse_deps().get(f), Some(&vec![fb]));
    assert_eq!(g.reverse_deps().get(h), Some(&vec![hb]));
}
