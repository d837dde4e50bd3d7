//! Admission contract: candidates come from the outer world; only replay mints
//! opaque admitted relations.

use vstd::prelude::*;
use crate::types::{EdgeId, IslandId, NodeId};

verus! {

/// Four-valued query outcome. Missing a path is [`QueryStatus::Unknown`], not negation.
#[derive(Clone, Copy, Debug, PartialEq, Eq, Structural, Hash)]
pub enum QueryStatus {
    /// Target relation has a trusted derivation.
    Proven,
    /// An island-declared incompatible relation has a trusted derivation.
    Refuted,
    /// Neither side has a trusted derivation.
    Unknown,
    /// Both a relation and an incompatible counterpart are trusted, or the world is quarantined.
    Inconsistent,
}

/// Relative world handle (island version / staging context).
#[derive(Clone, Copy, Debug, PartialEq, Eq, Structural, Hash)]
pub struct WorldId {
    pub island: IslandId,
    pub version: u64,
}

/// Candidate relation awaiting admission (outer world).
#[derive(Clone, Copy, Debug, PartialEq, Eq, Hash)]
pub struct CandidateRelation {
    pub world: WorldId,
    pub kind_edge: Option<EdgeId>,
    pub endpoints: (NodeId, NodeId),
}

/// Opaque admitted relation. Its fields are private: only replay paths mint it.
#[derive(Clone, Copy, Debug, PartialEq, Eq, Hash)]
pub struct AdmittedRelation {
    world: WorldId,
    endpoints: (NodeId, NodeId),
    evidence_tag: u64,
}

impl AdmittedRelation {
    pub closed spec fn spec_world(self) -> WorldId {
        self.world
    }

    pub closed spec fn spec_endpoints(self) -> (NodeId, NodeId) {
        self.endpoints
    }

    pub closed spec fn spec_evidence_tag(self) -> u64 {
        self.evidence_tag
    }

    /// Bootstrap helper: builds an admitted relation from its parts.
    pub fn bootstrap_unchecked(world: WorldId, endpoints: (NodeId, NodeId), evidence_tag: u64) -> (r: Self)
        ensures
            r.spec_world() == world,
            r.spec_endpoints() == endpoints,
            r.spec_evidence_tag() == evidence_tag,
    {
        AdmittedRelation { world, endpoints, evidence_tag }
    }

    pub fn world(self) -> (r: WorldId)
        ensures
            r == self.spec_world(),
    {
        self.world
    }

    pub fn endpoints(self) -> (r: (NodeId, NodeId))
        ensures
            r == self.spec_endpoints(),
    {
        self.endpoints
    }

    pub fn evidence_tag(self) -> (r: u64)
        ensures
            r == self.spec_evidence_tag(),
    {
        self.evidence_tag
    }

    /// Two admitted relations are equal exactly when their parts are.
    pub proof fn lemma_parts_determine(a: Self, b: Self)
        ensures
            (a == b) == (a.spec_world() == b.spec_world() && a.spec_endpoints() == b.spec_endpoints()
                && a.spec_evidence_tag() == b.spec_evidence_tag()),
    {
    }
}

/// Explicit conflict report. Does not explode into arbitrary relations.
#[derive(Clone, Copy, Debug, PartialEq, Eq)]
pub struct ConflictReport {
    pub world: WorldId,
    pub left: AdmittedRelation,
    pub right: AdmittedRelation,
}

/// Map absence of a directed proof to [`QueryStatus::Unknown`] (never automatic negation).
pub fn unknown_if_missing(found: bool) -> (r: QueryStatus)
    ensures
        found ==> r == QueryStatus::Proven,
        !found ==> r == QueryStatus::Unknown,
{
    if found {
        QueryStatus::Proven
    } else {
        QueryStatus::Unknown
    }
}

} // verus!
