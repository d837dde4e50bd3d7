use metis::payload::{EdgePayload, NodePayload};
use metis::types::EdgeKind;

#[test]
fn payloads_mark_labels_and_edge_roles() {
    assert_eq!(NodePayload::unlabeled().label, None);
    assert_eq!(NodePayload::default(), NodePayload::unlabeled());
    assert_eq!(NodePayload::labeled(b"ZFC").label, Some(b"ZFC".to_vec()));
    let s = EdgePayload::structural(EdgeKind::In);
    let j = EdgePayload::judgment(EdgeKind::Equal);
    assert!(s.structural);
    assert!(!j.structural);
    assert_eq!(j.kind, EdgeKind::Equal);
}
