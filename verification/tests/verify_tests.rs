use metis::graph::Graph;
use metis::types::{EdgeKind, MetisError, NodeId};
use metis::verify::{prove, verify, Goal, Justification, Proof};

fn labels(g: &mut Graph) -> (NodeId, NodeId, NodeId, NodeId) {
    let a = g.intern_label(b"a").unwrap();
    let b = g.intern_label(b"b").unwrap();
    let c = g.intern_label(b"c").unwrap();
    let d = g.intern_label(b"d").unwrap();
    (a, b, c, d)
}

#[test]
fn prove_reflexivity() {
    let mut g = Graph::new();
    let (a, _, _, _) = labels(&mut g);
    let proof = prove(&g, Goal::Equal(a, a)).unwrap();
    assert!(matches!(proof.justification, Justification::EqualSteps(ref s) if s.is_empty()));
    verify(&g, &proof).unwrap();
}

#[test]
fn prove_symmetry() {
    let mut g = Graph::new();
    let (a, b, _, _) = labels(&mut g);
    g.assert_judgment(a, EdgeKind::Equal, b).unwrap();
    let proof = prove(&g, Goal::Equal(b, a)).unwrap();
    match &proof.justification {
        Justification::EqualSteps(steps) => {
            assert_eq!(steps.len(), 1);
            assert!(!steps[0].forward);
        },
        _ => panic!("expected equal steps"),
    }
    verify(&g, &proof).unwrap();
}

#[test]
fn prove_transitivity() {
    let mut g = Graph::new();
    let (a, b, c, _) = labels(&mut g);
    g.assert_judgment(a, EdgeKind::Equal, b).unwrap();
    g.assert_judgment(b, EdgeKind::Equal, c).unwrap();
    let proof = prove(&g, Goal::Equal(a, c)).unwrap();
    match &proof.justification {
        Justification::EqualSteps(steps) => assert_eq!(steps.len(), 2),
        _ => panic!("expected equal steps"),
    }
    verify(&g, &proof).unwrap();
}

#[test]
fn prove_rejects_unrelated() {
    let mut g = Graph::new();
    let (a, _, _, d) = labels(&mut g);
    let err = prove(&g, Goal::Equal(a, d)).unwrap_err();
    assert_eq!(err, MetisError::PathNotFound);
}

#[test]
fn verify_rejects_tampered_path() {
    let mut g = Graph::new();
    let (a, b, c, _) = labels(&mut g);
    g.assert_judgment(a, EdgeKind::Equal, b).unwrap();
    g.assert_judgment(b, EdgeKind::Equal, c).unwrap();
    let mut proof = prove(&g, Goal::Equal(a, c)).unwrap();
    proof.goal = Goal::Equal(a, b);
    assert_eq!(verify(&g, &proof).unwrap_err(), MetisError::ProofInvalid);
}

#[test]
fn longer_chain_a_to_d() {
    let mut g = Graph::new();
    let (a, b, c, d) = labels(&mut g);
    g.assert_judgment(a, EdgeKind::Equal, b).unwrap();
    g.assert_judgment(c, EdgeKind::Equal, b).unwrap();
    g.assert_judgment(c, EdgeKind::Equal, d).unwrap();
    let proof = prove(&g, Goal::Equal(a, d)).unwrap();
    verify(&g, &proof).unwrap();
    match &proof.justification {
        Justification::EqualSteps(steps) => assert!(steps.len() >= 3),
        _ => panic!("expected equal steps"),
    }
}

#[test]
fn negative_goals_hold_only_without_witness() {
    let mut g = Graph::new();
    let (a, b, c, d) = labels(&mut g);
    g.assert_judgment(a, EdgeKind::Equal, b).unwrap();
    g.assert_judgment(c, EdgeKind::In, d).unwrap();
    assert_eq!(prove(&g, Goal::NotEqual(a, b)).unwrap_err(), MetisError::ProofInvalid);
    assert_eq!(prove(&g, Goal::NotEqual(a, a)).unwrap_err(), MetisError::ProofInvalid);
    let ne = prove(&g, Goal::NotEqual(a, c)).unwrap();
    assert_eq!(ne.justification, Justification::Negation);
    assert_eq!(prove(&g, Goal::NotMember(c, d)).unwrap_err(), MetisError::ProofInvalid);
    assert!(prove(&g, Goal::NotMember(d, c)).is_ok());
}

#[test]
fn membership_needs_an_in_judgment() {
    let mut g = Graph::new();
    let (a, b, _, _) = labels(&mut g);
    assert_eq!(prove(&g, Goal::Member(a, b)).unwrap_err(), MetisError::PathNotFound);
    let e = g.assert_judgment(a, EdgeKind::In, b).unwrap();
    let p = prove(&g, Goal::Member(a, b)).unwrap();
    assert_eq!(p.justification, Justification::MemberIn(e));
    let wrong = Proof { goal: Goal::Member(b, a), justification: Justification::MemberIn(e) };
    assert_eq!(verify(&g, &wrong).unwrap_err(), MetisError::ProofInvalid);
    let mismatched = Proof { goal: Goal::Equal(a, a), justification: Justification::Negation };
    assert_eq!(verify(&g, &mismatched).unwrap_err(), MetisError::ProofInvalid);
}
