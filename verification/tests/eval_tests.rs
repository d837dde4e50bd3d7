use metis::admission::{QueryStatus, WorldId};
use metis::eval::{
    eval_is_not_equal, eval_query_status, form_eval_attachment, form_eval_candidate, may_request_admission,
    refuse_eval_as_equal, EvalCertificateKind,
};
use metis::types::{IslandId, MetisError, NodeId};

fn world() -> WorldId {
    WorldId { island: IslandId::from_raw(1), version: 1 }
}

#[test]
fn eval_never_counts_as_equal_or_proven() {
    assert!(eval_is_not_equal());
    let att = form_eval_attachment(world(), NodeId(0), 42, EvalCertificateKind::Approximate);
    assert_eq!(refuse_eval_as_equal(&att).unwrap_err(), MetisError::ProofInvalid);
    assert!(!may_request_admission(&att));
    assert_eq!(eval_query_status(false), QueryStatus::Unknown);
    assert_eq!(eval_query_status(true), QueryStatus::Unknown);
}

#[test]
fn exact_bounded_may_request_admission_only() {
    let ok = form_eval_attachment(world(), NodeId(1), 7, EvalCertificateKind::ExactBounded);
    assert!(may_request_admission(&ok));
    assert_eq!(refuse_eval_as_equal(&ok).unwrap_err(), MetisError::ProofInvalid);
    let fail = form_eval_attachment(world(), NodeId(1), 8, EvalCertificateKind::Failed);
    assert!(!may_request_admission(&fail));
}

#[test]
fn form_eval_candidate_is_outer() {
    let c = form_eval_candidate(world(), NodeId(0), NodeId(1));
    assert_eq!(c.endpoints, (NodeId(0), NodeId(1)));
}

#[test]
fn interval_stays_outer() {
    let att = form_eval_attachment(world(), NodeId(2), 3, EvalCertificateKind::Interval);
    assert!(!may_request_admission(&att));
    assert_eq!(att.position, NodeId(2));
    assert_eq!(att.certificate_tag, 3);
    let c = form_eval_candidate(world(), NodeId(2), NodeId(5));
    assert_eq!(c.world, world());
    assert_eq!(c.kind_edge, None);
}
