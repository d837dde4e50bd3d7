use metis::admission::{QueryStatus, WorldId};
use metis::conflict::{detect_judgment_conflict, query_under_incompatibility, Incompatibility};
use metis::graph::Graph;
use metis::types::{EdgeKind, IslandId};

const NOT_EQ: u16 = 42;

fn world() -> WorldId {
    WorldId { island: IslandId::from_raw(1), version: 1 }
}

#[test]
fn both_sides_are_inconsistent_not_explosion() {
    let mut g = Graph::new();
    let a = g.intern_label(b"a").unwrap();
    let b = g.intern_label(b"b").unwrap();
    g.assert_judgment(a, EdgeKind::Equal, b).unwrap();
    g.assert_judgment(a, EdgeKind::Custom(NOT_EQ), b).unwrap();
    let policy = Incompatibility::equal_vs_custom_not_equal(NOT_EQ);
    assert_eq!(query_under_incompatibility(&g, (a, b), policy).unwrap(), QueryStatus::Inconsistent);
    let report = detect_judgment_conflict(&g, world(), (a, b), policy).unwrap().unwrap();
    assert_eq!(report.world, world());
    // No third conclusion is minted — only the conflict object exists.
    assert_eq!(report.left.endpoints(), (a, b));
    assert_eq!(report.right.endpoints(), (a, b));
}

#[test]
fn only_equal_is_proven() {
    let mut g = Graph::new();
    let a = g.intern_label(b"a").unwrap();
    let b = g.intern_label(b"b").unwrap();
    g.assert_judgment(a, EdgeKind::Equal, b).unwrap();
    let policy = Incompatibility::equal_vs_custom_not_equal(NOT_EQ);
    assert_eq!(query_under_incompatibility(&g, (a, b), policy).unwrap(), QueryStatus::Proven);
    assert!(detect_judgment_conflict(&g, world(), (a, b), policy).unwrap().is_none());
}

#[test]
fn neither_side_is_unknown() {
    let mut g = Graph::new();
    let a = g.intern_label(b"a").unwrap();
    let b = g.intern_label(b"b").unwrap();
    let policy = Incompatibility::equal_vs_custom_not_equal(NOT_EQ);
    assert_eq!(query_under_incompatibility(&g, (a, b), policy).unwrap(), QueryStatus::Unknown);
}

#[test]
fn only_incompatible_side_is_refuted() {
    let mut g = Graph::new();
    let a = g.intern_label(b"a").unwrap();
    let b = g.intern_label(b"b").unwrap();
    g.assert_judgment(a, EdgeKind::Custom(NOT_EQ), b).unwrap();
    let policy = Incompatibility::equal_vs_custom_not_equal(NOT_EQ);
    assert_eq!(query_under_incompatibility(&g, (a, b), policy).unwrap(), QueryStatus::Refuted);
    assert!(detect_judgment_conflict(&g, world(), (a, b), policy).unwrap().is_none());
}

#[test]
fn conflict_query_on_unknown_node_fails() {
    let mut g = Graph::new();
    let a = g.intern_label(b"a").unwrap();
    let policy = Incompatibility::equal_vs_custom_not_equal(NOT_EQ);
    let missing = metis::types::NodeId(9);
    assert!(query_under_incompatibility(&g, (missing, a), policy).is_err());
}
