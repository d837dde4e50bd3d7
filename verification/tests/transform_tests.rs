use metis::admission::WorldId;
use metis::graph::Graph;
use metis::transform::{replay_two_premise, PremisePattern, TransformationInstance, TransformationSchema};
use metis::types::{EdgeKind, IslandId, MetisError};

fn world() -> WorldId {
    WorldId { island: IslandId::from_raw(1), version: 1 }
}

#[test]
fn transitivity_schema_admits_when_premises_exist() {
    let mut g = Graph::new();
    let a = g.intern_label(b"a").unwrap();
    let b = g.intern_label(b"b").unwrap();
    let c = g.intern_label(b"c").unwrap();
    g.assert_judgment(a, EdgeKind::Equal, b).unwrap();
    g.assert_judgment(b, EdgeKind::Equal, c).unwrap();
    let schema = TransformationSchema::equal_transitivity();
    let inst = TransformationInstance { premise_a: (a, b), premise_b: (b, c), conclusion: (a, c) };
    let adm = replay_two_premise(&g, world(), &schema, &inst).unwrap();
    assert_eq!(adm.endpoints(), (a, c));
}

#[test]
fn transitivity_rejects_missing_premise() {
    let mut g = Graph::new();
    let a = g.intern_label(b"a").unwrap();
    let b = g.intern_label(b"b").unwrap();
    let c = g.intern_label(b"c").unwrap();
    g.assert_judgment(a, EdgeKind::Equal, b).unwrap();
    // missing b=c
    let schema = TransformationSchema::equal_transitivity();
    let inst = TransformationInstance { premise_a: (a, b), premise_b: (b, c), conclusion: (a, c) };
    assert_eq!(replay_two_premise(&g, world(), &schema, &inst).unwrap_err(), MetisError::ProofInvalid);
}

#[test]
fn transitivity_rejects_tampered_wiring() {
    let mut g = Graph::new();
    let a = g.intern_label(b"a").unwrap();
    let b = g.intern_label(b"b").unwrap();
    let c = g.intern_label(b"c").unwrap();
    g.assert_judgment(a, EdgeKind::Equal, b).unwrap();
    g.assert_judgment(b, EdgeKind::Equal, c).unwrap();
    let schema = TransformationSchema::equal_transitivity();
    let inst = TransformationInstance {
        premise_a: (a, b),
        premise_b: (b, c),
        conclusion: (a, b), // wrong conclusion
    };
    assert_eq!(replay_two_premise(&g, world(), &schema, &inst).unwrap_err(), MetisError::ProofInvalid);
}

#[test]
fn equal_premise_accepts_reverse_witness() {
    let mut g = Graph::new();
    let a = g.intern_label(b"a").unwrap();
    let b = g.intern_label(b"b").unwrap();
    let c = g.intern_label(b"c").unwrap();
    g.assert_judgment(b, EdgeKind::Equal, a).unwrap();
    g.assert_judgment(c, EdgeKind::Equal, b).unwrap();
    let schema = TransformationSchema::equal_transitivity();
    let inst = TransformationInstance { premise_a: (a, b), premise_b: (b, c), conclusion: (a, c) };
    assert_eq!(replay_two_premise(&g, world(), &schema, &inst).unwrap().world(), world());
}

#[test]
fn schema_matching_checks_wiring_only_for_transitivity() {
    let mut g = Graph::new();
    let a = g.intern_label(b"a").unwrap();
    let b = g.intern_label(b"b").unwrap();
    let t = TransformationSchema::equal_transitivity();
    let wired = TransformationInstance { premise_a: (a, b), premise_b: (b, a), conclusion: (a, a) };
    let unwired = TransformationInstance { premise_a: (a, b), premise_b: (a, b), conclusion: (a, b) };
    assert!(t.matches_instance(&wired));
    assert!(!t.matches_instance(&unwired));
    let custom = TransformationSchema {
        name: String::from("in_chain"),
        premise_a: PremisePattern { kind: EdgeKind::In, from: None, to: None },
        premise_b: PremisePattern { kind: EdgeKind::In, from: None, to: None },
        conclusion_kind: EdgeKind::In,
    };
    assert!(custom.matches_instance(&unwired));
    g.assert_judgment(a, EdgeKind::In, b).unwrap();
    let adm = replay_two_premise(&g, world(), &custom, &unwired).unwrap();
    assert_eq!(adm.endpoints(), (a, b));
    // `In` has no reverse witness.
    let reversed = TransformationInstance { premise_a: (b, a), premise_b: (b, a), conclusion: (b, a) };
    assert_eq!(replay_two_premise(&g, world(), &custom, &reversed).unwrap_err(), MetisError::ProofInvalid);
}

#[test]
fn transitivity_evidence_tag_is_the_fnv_fold_of_the_instance() {
    let mut g = Graph::new();
    let a = g.intern_label(b"a").unwrap();
    let b = g.intern_label(b"b").unwrap();
    let c = g.intern_label(b"c").unwrap();
    g.assert_judgment(a, EdgeKind::Equal, b).unwrap();
    g.assert_judgment(b, EdgeKind::Equal, c).unwrap();
    let schema = TransformationSchema::equal_transitivity();
    let inst = TransformationInstance { premise_a: (a, b), premise_b: (b, c), conclusion: (a, c) };
    let adm = replay_two_premise(&g, world(), &schema, &inst).unwrap();
    // words: island 1, version 1, the six endpoints, then the 18-byte schema name
    assert_eq!(adm.evidence_tag(), 7191077908707489355);
}
