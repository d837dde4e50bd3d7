use std::collections::HashMap;

use metis::admission::WorldId;
use metis::connection::{
    bidirectional_skeleton, refuse_galois_without_proof, validate_candidate, CandidateConnection, ConnectionClass,
};
use metis::types::{IslandId, MetisError};

fn world(n: u32, v: u64) -> WorldId {
    WorldId { island: IslandId::from_raw(n), version: v }
}

#[test]
fn bidirectional_is_not_galois() {
    let a = world(1, 1);
    let b = world(2, 1);
    let (fwd, back) = bidirectional_skeleton(a, b, HashMap::new(), HashMap::new()).unwrap();
    assert_eq!(fwd.class, ConnectionClass::BidirectionalSkeleton);
    assert_eq!(back.source, b);
    assert!(refuse_galois_without_proof(&fwd).is_err());
}

#[test]
fn same_world_rejected() {
    let a = world(1, 1);
    assert_eq!(
        bidirectional_skeleton(a, a, HashMap::new(), HashMap::new()).unwrap_err(),
        MetisError::ConnectionInvalid
    );
}

#[test]
fn lossy_galois_claim_rejected() {
    let c = CandidateConnection {
        source: world(1, 1),
        target: world(2, 1),
        class: ConnectionClass::GaloisClaimed,
        object_map: HashMap::new(),
        relation_map: HashMap::new(),
        lossy: true,
    };
    assert_eq!(validate_candidate(&c).unwrap_err(), MetisError::ConnectionInvalid);
}

#[test]
fn skeleton_pair_is_opposite() {
    let a = world(1, 2);
    let b = world(2, 5);
    let (fwd, back) = bidirectional_skeleton(a, b, HashMap::new(), HashMap::new()).unwrap();
    assert_eq!(fwd.source, a);
    assert_eq!(fwd.target, b);
    assert_eq!(back.target, a);
    assert_eq!(back.class, ConnectionClass::BidirectionalSkeleton);
    assert!(validate_candidate(&fwd).is_ok());
    assert!(validate_candidate(&back).is_ok());
}

#[test]
fn world_morphism_to_self_rejected() {
    let c = CandidateConnection {
        source: world(1, 1),
        target: world(1, 1),
        class: ConnectionClass::WorldMorphism,
        object_map: HashMap::new(),
        relation_map: HashMap::new(),
        lossy: false,
    };
    assert_eq!(validate_candidate(&c).unwrap_err(), MetisError::ConnectionInvalid);
}
