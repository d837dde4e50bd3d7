//! Island / world connection contracts. A connection is first a world morphism;
//! surface `A <-> B` yields only a bidirectional skeleton, never a Galois
//! connection by itself.

use vstd::prelude::*;
use std::collections::HashMap;
use crate::types::{EdgeKind, MetisError, NodeId};
use crate::admission::WorldId;

verus! {

/// Declared strength of a connection candidate.
#[derive(Clone, Copy, Debug, PartialEq, Eq, Structural, Hash)]
pub enum ConnectionClass {
    /// Minimal legal connection: world morphism skeleton.
    WorldMorphism,
    /// Pair of opposite morphisms from `connection A <-> B` surface syntax.
    BidirectionalSkeleton,
    /// User *claimed* Galois; not yet admitted as such.
    GaloisClaimed,
}

/// Candidate connection (outer world). Cannot mint trusted transport by itself.
#[derive(Clone, Debug, PartialEq, Eq)]
pub struct CandidateConnection {
    pub source: WorldId,
    pub target: WorldId,
    pub class: ConnectionClass,
    /// Partial object / position map (source node → target node).
    pub object_map: HashMap<NodeId, NodeId>,
    /// Relation-kind map (source kind → target kind).
    pub relation_map: HashMap<EdgeKind, EdgeKind>,
    /// True when the map is declared lossy (must not be treated as isomorphism).
    pub lossy: bool,
}

/// Opaque admitted connection. Its fields are private.
#[derive(Clone, Copy, Debug, PartialEq, Eq, Structural)]
pub struct AdmittedConnection {
    source: WorldId,
    target: WorldId,
    class: ConnectionClass,
    evidence_tag: u64,
}

impl AdmittedConnection {
    pub closed spec fn spec_source(&self) -> WorldId {
        self.source
    }

    pub closed spec fn spec_target(&self) -> WorldId {
        self.target
    }

    pub closed spec fn spec_class(&self) -> ConnectionClass {
        self.class
    }

    pub closed spec fn spec_evidence_tag(&self) -> u64 {
        self.evidence_tag
    }

    /// Bootstrap helper: builds an admitted connection from its parts.
    pub fn bootstrap_unchecked(source: WorldId, target: WorldId, class: ConnectionClass, evidence_tag: u64) -> (r: Self)
        ensures
            r.spec_source() == source,
            r.spec_target() == target,
            r.spec_class() == class,
            r.spec_evidence_tag() == evidence_tag,
    {
        AdmittedConnection { source, target, class, evidence_tag }
    }

    pub fn source(&self) -> (r: WorldId)
        ensures
            r == self.spec_source(),
    {
        self.source
    }

    pub fn target(&self) -> (r: WorldId)
        ensures
            r == self.spec_target(),
    {
        self.target
    }

    pub fn class(&self) -> (r: ConnectionClass)
        ensures
            r == self.spec_class(),
    {
        self.class
    }

    pub fn evidence_tag(&self) -> (r: u64)
        ensures
            r == self.spec_evidence_tag(),
    {
        self.evidence_tag
    }
}

/// The structural checks a candidate must pass.
pub open spec fn candidate_ok(c: CandidateConnection) -> bool {
    c.source != c.target && !(c.class == ConnectionClass::GaloisClaimed && c.lossy)
}

/// Structural checks for a candidate. Does **not** prove Galois or transport theorems.
pub fn validate_candidate(c: &CandidateConnection) -> (r: Result<(), MetisError>)
    ensures
        candidate_ok(*c) ==> r is Ok,
        !candidate_ok(*c) ==> r == Err::<(), MetisError>(MetisError::ConnectionInvalid),
        r is Ok <==> c.source != c.target && !(c.class == ConnectionClass::GaloisClaimed && c.lossy),
        c.source != c.target && c.class != ConnectionClass::GaloisClaimed ==> r is Ok,
{
    if c.source == c.target {
        return Err(MetisError::ConnectionInvalid);
    }
    if c.class == ConnectionClass::GaloisClaimed && c.lossy {
        // Lossy maps cannot even claim Galois.
        return Err(MetisError::ConnectionInvalid);
    }
    Ok(())
}

/// Lowering for surface `connection A <-> B`: two opposite world-morphism skeletons.
///
/// Neither direction is a Galois connection by default.
pub fn bidirectional_skeleton(
    left: WorldId,
    right: WorldId,
    forward_objects: HashMap<NodeId, NodeId>,
    forward_relations: HashMap<EdgeKind, EdgeKind>,
) -> (r: Result<(CandidateConnection, CandidateConnection), MetisError>)
    ensures
        left == right ==> r is Err && r->Err_0 == MetisError::ConnectionInvalid,
        left != right ==> (r matches Ok(p) && {
            let (fwd, back) = p;
            &&& fwd.source == left
            &&& fwd.target == right
            &&& fwd.class == ConnectionClass::BidirectionalSkeleton
            &&& fwd.object_map == forward_objects
            &&& fwd.relation_map == forward_relations
            &&& !fwd.lossy
            &&& back.source == right
            &&& back.target == left
            &&& back.class == ConnectionClass::BidirectionalSkeleton
            &&& back.object_map@ == Map::<NodeId, NodeId>::empty()
            &&& back.relation_map@ == Map::<EdgeKind, EdgeKind>::empty()
            &&& !back.lossy
        }),
{
    if left == right {
        return Err(MetisError::ConnectionInvalid);
    }
    let forward = CandidateConnection {
        source: left,
        target: right,
        class: ConnectionClass::BidirectionalSkeleton,
        object_map: forward_objects,
        relation_map: forward_relations,
        lossy: false,
    };
    // Reverse maps are left empty until an elaborator fills them — still a legal skeleton.
    let backward = CandidateConnection {
        source: right,
        target: left,
        class: ConnectionClass::BidirectionalSkeleton,
        object_map: HashMap::new(),
        relation_map: HashMap::new(),
        lossy: false,
    };
    validate_candidate(&forward)?;
    validate_candidate(&backward)?;
    Ok((forward, backward))
}

/// Each direction of a skeleton for two distinct worlds passes the structural
/// checks, and is still refused as a Galois connection.
pub proof fn law_skeleton_valid_not_galois(left: WorldId, right: WorldId, c: CandidateConnection)
    requires
        left != right,
        c.class == ConnectionClass::BidirectionalSkeleton,
        !c.lossy,
        (c.source == left && c.target == right) || (c.source == right && c.target == left),
    ensures
        candidate_ok(c),
        c.class != ConnectionClass::WorldMorphism,
{
}

/// Lossiness is refused only together with a Galois claim: between two distinct
/// worlds, a world morphism or a skeleton passes the structural checks whether
/// or not it is lossy, and so does a Galois claim that is not lossy; a lossy
/// Galois claim, or any candidate from a world to itself, fails them.
pub proof fn law_candidate_checks(c: CandidateConnection)
    ensures
        c.source != c.target && c.class != ConnectionClass::GaloisClaimed ==> candidate_ok(c),
        c.source != c.target && !c.lossy ==> candidate_ok(c),
        c.class == ConnectionClass::GaloisClaimed && c.lossy ==> !candidate_ok(c),
        c.source == c.target ==> !candidate_ok(c),
{
}

/// Refuse treating a bidirectional skeleton (or a Galois claim) as an admitted Galois connection.
pub fn refuse_galois_without_proof(c: &CandidateConnection) -> (r: Result<(), MetisError>)
    ensures
        c.class == ConnectionClass::WorldMorphism ==> r is Ok,
        c.class != ConnectionClass::WorldMorphism ==> r == Err::<(), MetisError>(
            MetisError::ConnectionInvalid),
{
    match c.class {
        ConnectionClass::GaloisClaimed | ConnectionClass::BidirectionalSkeleton => Err(
            MetisError::ConnectionInvalid,
        ),
        ConnectionClass::WorldMorphism => Ok(()),
    }
}

} // verus!
