use metis::graph::Graph;
use metis::types::{EdgeId, EdgeKind, MetisError, NodeId};

#[test]
fn empty_nodes_hash_cons() {
    let mut g = Graph::new();
    let a = g.intern_empty().unwrap();
    let b = g.intern_empty().unwrap();
    assert_eq!(a, b);
    assert_eq!(g.node_count(), 1);
    assert_eq!(g.edge_count(), 0);
}

#[test]
fn labels_are_distinct_and_consed() {
    let mut g = Graph::new();
    let a = g.intern_label(b"a").unwrap();
    let b = g.intern_label(b"b").unwrap();
    let a2 = g.intern_label(b"a").unwrap();
    assert_ne!(a, b);
    assert_eq!(a, a2);
    assert_eq!(g.node_count(), 2);
}

#[test]
fn judgment_does_not_merge_labels() {
    let mut g = Graph::new();
    let a = g.intern_label(b"a").unwrap();
    let b = g.intern_label(b"b").unwrap();
    g.assert_judgment(a, EdgeKind::Equal, b).unwrap();
    assert_eq!(g.node_count(), 2);
    assert_eq!(g.judgment_outgoing(a).unwrap().len(), 1);
    assert!(g.find_equal_path(a, b).unwrap().is_some());
    assert!(g.find_equal_path(b, a).unwrap().is_some());
}

#[test]
fn structured_nodes_hash_cons_and_reach() {
    let mut g = Graph::new();
    let leaf = g.intern_empty().unwrap();
    let a = g.intern(&[(EdgeKind::In, leaf)]).unwrap();
    let b = g.intern(&[(EdgeKind::In, leaf)]).unwrap();
    assert_eq!(a, b);
    assert_eq!(g.node_count(), 2);
    assert_eq!(g.edge_count(), 1);
    assert!(g.reaches(a, leaf).unwrap());
    assert!(!g.reaches(leaf, a).unwrap());
}

#[test]
fn intern_ignores_out_order() {
    let mut g = Graph::new();
    let x = g.intern_label(b"x").unwrap();
    let y = g.intern_label(b"y").unwrap();
    let p = g.intern(&[(EdgeKind::In, x), (EdgeKind::Custom(3), y)]).unwrap();
    let q = g.intern(&[(EdgeKind::Custom(3), y), (EdgeKind::In, x)]).unwrap();
    assert_eq!(p, q);
    let r = g.intern(&[(EdgeKind::In, y), (EdgeKind::Custom(3), x)]).unwrap();
    assert_ne!(p, r);
    assert_eq!(g.structural_outgoing(p).unwrap().len(), 2);
    assert_eq!(g.node_count(), 4);
}

#[test]
fn first_handles_start_at_one() {
    let mut g = Graph::default();
    let a = g.intern_label(b"a").unwrap();
    assert_eq!(a, NodeId(1));
    let b = g.intern_label(b"b").unwrap();
    let e = g.assert_judgment(a, EdgeKind::In, b).unwrap();
    assert_eq!(e, EdgeId(1));
    assert_eq!(g.edge(e).unwrap(), (a, EdgeKind::In, b));
    assert!(g.is_judgment(e).unwrap());
    assert_eq!(g.label_of(a).unwrap(), Some(&b"a"[..]));
}

#[test]
fn unknown_handles_are_reported() {
    let mut g = Graph::new();
    let a = g.intern_label(b"a").unwrap();
    assert_eq!(g.judgment_outgoing(NodeId(0)).unwrap_err(), MetisError::InvalidHandle);
    assert_eq!(g.judgment_outgoing(NodeId(5)).unwrap_err(), MetisError::NodeNotFound);
    assert_eq!(g.edge(EdgeId(0)).unwrap_err(), MetisError::InvalidHandle);
    assert_eq!(g.edge(EdgeId(1)).unwrap_err(), MetisError::EdgeNotFound);
    assert_eq!(g.assert_judgment(a, EdgeKind::Equal, NodeId(2)).unwrap_err(), MetisError::NodeNotFound);
    assert_eq!(g.intern(&[(EdgeKind::In, NodeId(7))]).unwrap_err(), MetisError::NodeNotFound);
    assert_eq!(g.node_count(), 1);
    assert_eq!(g.edge_count(), 0);
}

#[test]
fn equal_paths_are_reflexive_symmetric_transitive() {
    let mut g = Graph::new();
    let a = g.intern_label(b"a").unwrap();
    let b = g.intern_label(b"b").unwrap();
    let c = g.intern_label(b"c").unwrap();
    let d = g.intern_label(b"d").unwrap();
    g.assert_judgment(a, EdgeKind::Equal, b).unwrap();
    g.assert_judgment(c, EdgeKind::Equal, b).unwrap();
    assert_eq!(g.find_equal_path(a, a).unwrap(), Some(Vec::new()));
    let ab = g.find_equal_path(a, b).unwrap().unwrap();
    assert_eq!(ab.len(), 1);
    assert!(ab[0].forward);
    let ba = g.find_equal_path(b, a).unwrap().unwrap();
    assert!(!ba[0].forward);
    assert_eq!(g.find_equal_path(a, c).unwrap().unwrap().len(), 2);
    assert!(g.find_equal_path(a, d).unwrap().is_none());
    assert_eq!(g.equal_steps(b).unwrap().len(), 2);
}

#[test]
fn directed_path_follows_edge_direction() {
    let mut g = Graph::new();
    let a = g.intern_label(b"a").unwrap();
    let b = g.intern_label(b"b").unwrap();
    let c = g.intern_label(b"c").unwrap();
    let e1 = g.assert_judgment(a, EdgeKind::In, b).unwrap();
    let e2 = g.assert_judgment(b, EdgeKind::Custom(2), c).unwrap();
    assert_eq!(g.find_directed_path(a, c).unwrap(), Some(vec![e1, e2]));
    assert_eq!(g.find_directed_path(c, a).unwrap(), None);
    assert_eq!(g.find_directed_path(b, b).unwrap(), Some(Vec::new()));
    assert_eq!(g.outgoing(a).unwrap().len(), 1);
}

#[test]
fn judgments_keep_hash_cons_identity() {
    let mut g = Graph::new();
    let leaf = g.intern_empty().unwrap();
    let x = g.intern_label(b"x").unwrap();
    let s = g.intern(&[(EdgeKind::In, leaf), (EdgeKind::In, x)]).unwrap();
    g.assert_judgment(s, EdgeKind::Equal, x).unwrap();
    g.assert_judgment(leaf, EdgeKind::In, s).unwrap();
    assert_eq!(g.intern(&[(EdgeKind::In, x), (EdgeKind::In, leaf)]).unwrap(), s);
    assert_eq!(g.intern_empty().unwrap(), leaf);
    assert_eq!(g.structural_outgoing(s).unwrap().len(), 2);
    assert_eq!(g.node_count(), 3);
    assert_eq!(g.edge_count(), 4);
}

#[test]
fn searches_return_shortest_paths() {
    let mut g = Graph::new();
    let a = g.intern_label(b"a").unwrap();
    let b = g.intern_label(b"b").unwrap();
    let c = g.intern_label(b"c").unwrap();
    g.assert_judgment(a, EdgeKind::Equal, b).unwrap();
    g.assert_judgment(b, EdgeKind::Equal, c).unwrap();
    let ac = g.assert_judgment(c, EdgeKind::Equal, a).unwrap();
    let p = g.find_equal_path(a, c).unwrap().unwrap();
    assert_eq!(p.len(), 1);
    assert_eq!(p[0].edge, ac);
    assert!(!p[0].forward);
    let direct = g.assert_judgment(a, EdgeKind::In, c).unwrap();
    assert_eq!(g.find_directed_path(a, c).unwrap(), Some(vec![direct]));
}

#[test]
fn label_identity_survives_other_changes() {
    let mut g = Graph::new();
    let a = g.intern_label(b"a").unwrap();
    let b = g.intern_label(b"b").unwrap();
    let leaf = g.intern_empty().unwrap();
    g.assert_judgment(a, EdgeKind::In, leaf).unwrap();
    let counts = (g.node_count(), g.edge_count());
    assert_eq!(g.intern_label(b"a").unwrap(), a);
    assert_eq!((g.node_count(), g.edge_count()), counts);
    assert_ne!(a, b);
    assert_ne!(g.intern_label(b"").unwrap(), leaf);
    assert!(g.structural_outgoing(a).unwrap().is_empty());
    assert_eq!(g.label_of(b).unwrap(), Some(&b"b"[..]));
}
