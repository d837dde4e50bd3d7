use metis::admission::{unknown_if_missing, AdmittedRelation, QueryStatus, WorldId};
use metis::types::{IslandId, NodeId};

#[test]
fn missing_is_unknown_not_refuted() {
    assert_eq!(unknown_if_missing(false), QueryStatus::Unknown);
    assert_eq!(unknown_if_missing(true), QueryStatus::Proven);
}

#[test]
fn admitted_is_opaque_but_readable() {
    let w = WorldId { island: IslandId::from_raw(1), version: 0 };
    let a = AdmittedRelation::bootstrap_unchecked(w, (NodeId(0), NodeId(1)), 7);
    assert_eq!(a.world(), w);
    assert_eq!(a.evidence_tag(), 7);
}

#[test]
fn admitted_parts_round_trip() {
    let w = WorldId { island: IslandId::from_raw(3), version: 9 };
    let a = AdmittedRelation::bootstrap_unchecked(w, (NodeId(4), NodeId(5)), 11);
    assert_eq!(a.endpoints(), (NodeId(4), NodeId(5)));
    assert_eq!(a.world().island.get(), 3);
    assert_eq!(a.world().version, 9);
}
