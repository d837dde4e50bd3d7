use metis::admission::{AdmittedRelation, WorldId};
use metis::graph::Graph;
use metis::relation::{admit_equal_relation, compose_equal_relations, form_relation};
use metis::types::{EdgeKind, IslandId, MetisError, NodeId};

fn world(v: u64) -> WorldId {
    WorldId { island: IslandId::from_raw(1), version: v }
}

#[test]
fn form_is_outer_only() {
    let c = form_relation(world(1), (NodeId(0), NodeId(1)), None);
    assert_eq!(c.endpoints, (NodeId(0), NodeId(1)));
    assert_eq!(c.world.version, 1);
}

#[test]
fn compose_requires_shared_endpoint() {
    let w = world(1);
    let a = AdmittedRelation::bootstrap_unchecked(w, (NodeId(0), NodeId(1)), 1);
    let b = AdmittedRelation::bootstrap_unchecked(w, (NodeId(1), NodeId(2)), 2);
    let c = compose_equal_relations(a, b).unwrap();
    assert_eq!(c.endpoints, (NodeId(0), NodeId(2)));

    let bad = AdmittedRelation::bootstrap_unchecked(w, (NodeId(3), NodeId(4)), 3);
    assert_eq!(compose_equal_relations(a, bad).unwrap_err(), MetisError::ProofInvalid);
}

#[test]
fn admit_equal_needs_path() {
    let mut g = Graph::new();
    let a = g.intern_label(b"a").unwrap();
    let b = g.intern_label(b"b").unwrap();
    let c = g.intern_label(b"c").unwrap();
    g.assert_judgment(a, EdgeKind::Equal, b).unwrap();
    g.assert_judgment(b, EdgeKind::Equal, c).unwrap();
    let w = world(1);
    let cand = form_relation(w, (a, c), None);
    let adm = admit_equal_relation(&g, w, cand).unwrap();
    assert_eq!(adm.endpoints(), (a, c));

    let missing = form_relation(w, (a, g.intern_label(b"z").unwrap()), None);
    assert_eq!(admit_equal_relation(&g, w, missing).unwrap_err(), MetisError::ProofInvalid);
}

#[test]
fn compose_across_worlds_refused() {
    let a = AdmittedRelation::bootstrap_unchecked(world(1), (NodeId(0), NodeId(1)), 1);
    let b = AdmittedRelation::bootstrap_unchecked(world(2), (NodeId(1), NodeId(2)), 2);
    assert_eq!(compose_equal_relations(a, b).unwrap_err(), MetisError::ProofInvalid);
}

#[test]
fn admit_in_other_world_refused() {
    let mut g = Graph::new();
    let a = g.intern_label(b"a").unwrap();
    let cand = form_relation(world(2), (a, a), None);
    assert_eq!(admit_equal_relation(&g, world(1), cand).unwrap_err(), MetisError::ProofInvalid);
    let same = form_relation(world(1), (a, a), None);
    assert_eq!(admit_equal_relation(&g, world(1), same).unwrap().endpoints(), (a, a));
}
