use metis::admission::{QueryStatus, WorldId};
use metis::derivation::{
    fingerprint_diagram, replay_equal_derivation, search_and_admit_equal, verify_equal_steps, DerivationDiagram,
};
use metis::graph::Graph;
use metis::types::{EdgeKind, IslandId, MetisError};

fn world() -> WorldId {
    WorldId { island: IslandId::from_raw(1), version: 1 }
}

#[test]
fn admit_reflexive_and_path() {
    let mut g = Graph::new();
    let a = g.intern_label(b"a").unwrap();
    let b = g.intern_label(b"b").unwrap();
    g.assert_judgment(a, EdgeKind::Equal, b).unwrap();
    let w = world();
    let (st, adm) = search_and_admit_equal(&g, w, a, b).unwrap();
    assert_eq!(st, QueryStatus::Proven);
    let adm = adm.unwrap();
    assert_eq!(adm.world(), w);
    assert_eq!(adm.endpoints(), (a, b));
}

#[test]
fn missing_path_is_unknown_without_admission() {
    let mut g = Graph::new();
    let a = g.intern_label(b"a").unwrap();
    let b = g.intern_label(b"b").unwrap();
    let (st, adm) = search_and_admit_equal(&g, world(), a, b).unwrap();
    assert_eq!(st, QueryStatus::Unknown);
    assert!(adm.is_none());
}

#[test]
fn tampered_steps_rejected() {
    let mut g = Graph::new();
    let a = g.intern_label(b"a").unwrap();
    let b = g.intern_label(b"b").unwrap();
    let c = g.intern_label(b"c").unwrap();
    g.assert_judgment(a, EdgeKind::Equal, b).unwrap();
    g.assert_judgment(b, EdgeKind::Equal, c).unwrap();
    let steps = g.find_equal_path(a, c).unwrap().unwrap();
    let bad = DerivationDiagram {
        world: world(),
        conclusion: (a, b), // wrong conclusion for these steps
        steps,
    };
    assert_eq!(replay_equal_derivation(&g, &bad).unwrap_err(), MetisError::ProofInvalid);
}

#[test]
fn same_diagram_same_evidence_tag() {
    let mut g = Graph::new();
    let a = g.intern_label(b"a").unwrap();
    let b = g.intern_label(b"b").unwrap();
    g.assert_judgment(a, EdgeKind::Equal, b).unwrap();
    let w = world();
    let (_, x) = search_and_admit_equal(&g, w, a, b).unwrap();
    let (_, y) = search_and_admit_equal(&g, w, a, b).unwrap();
    assert_eq!(x.unwrap().evidence_tag(), y.unwrap().evidence_tag());
}

#[test]
fn reflexive_equal_is_admitted_with_empty_steps() {
    let mut g = Graph::new();
    let a = g.intern_label(b"a").unwrap();
    let (st, adm) = search_and_admit_equal(&g, world(), a, a).unwrap();
    assert_eq!(st, QueryStatus::Proven);
    assert_eq!(adm.unwrap().endpoints(), (a, a));
    assert!(verify_equal_steps(&g, a, a, &[]).is_ok());
}

#[test]
fn replayed_diagram_carries_its_fingerprint() {
    let mut g = Graph::new();
    let a = g.intern_label(b"a").unwrap();
    let b = g.intern_label(b"b").unwrap();
    let c = g.intern_label(b"c").unwrap();
    g.assert_judgment(a, EdgeKind::Equal, b).unwrap();
    g.assert_judgment(c, EdgeKind::Equal, b).unwrap();
    let steps = g.find_equal_path(a, c).unwrap().unwrap();
    let diagram = DerivationDiagram { world: world(), conclusion: (a, c), steps };
    let adm = replay_equal_derivation(&g, &diagram).unwrap();
    assert_eq!(adm.endpoints(), (a, c));
    assert_eq!(adm.evidence_tag(), fingerprint_diagram(&diagram));
}

#[test]
fn search_on_unknown_node_fails() {
    let g = Graph::new();
    let x = metis::types::NodeId(1);
    let y = metis::types::NodeId(2);
    assert_eq!(search_and_admit_equal(&g, world(), x, y).unwrap_err(), MetisError::NodeNotFound);
    let zero = metis::types::NodeId(0);
    assert_eq!(search_and_admit_equal(&g, world(), zero, y).unwrap_err(), MetisError::InvalidHandle);
}

#[test]
fn evidence_tag_is_the_fnv_fold_of_the_diagram() {
    let mut g = Graph::new();
    let a = g.intern_label(b"a").unwrap();
    let b = g.intern_label(b"b").unwrap();
    g.assert_judgment(a, EdgeKind::Equal, b).unwrap();
    let (_, adm) = search_and_admit_equal(&g, world(), a, b).unwrap();
    // words: island 1, version 1, ends 1 and 2, one step, edge 1 forward
    assert_eq!(adm.unwrap().evidence_tag(), 5391052305146550197);
}
