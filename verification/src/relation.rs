//! Form / compose / admit relation helpers. These construct candidates, or mint
//! admissions only after replay; they never invent judgment edges.

use vstd::prelude::*;
use crate::types::{EdgeId, MetisError, NodeId};
use crate::admission::{AdmittedRelation, CandidateRelation, QueryStatus, WorldId};
use crate::derivation::{minted_for, search_and_admit_equal};
use crate::graph::{node_handle_error, Graph, Step};

verus! {

/// Form an outer-world candidate relation (no admission).
pub fn form_relation(world: WorldId, endpoints: (NodeId, NodeId), kind_edge: Option<EdgeId>) -> (r: CandidateRelation)
    ensures
        r == (CandidateRelation { world, kind_edge, endpoints }),
{
    CandidateRelation { world, kind_edge, endpoints }
}

/// Compose two admitted EQ relations in the same world when they share an endpoint.
///
/// `a: x ~ y` and `b: y ~ z` yield candidate `x ~ z`. Does **not** mint admission.
pub fn compose_equal_relations(left: AdmittedRelation, right: AdmittedRelation) -> (r: Result<CandidateRelation, MetisError>)
    ensures
        left.spec_world() != right.spec_world() ==> r == Err::<CandidateRelation, MetisError>(
            MetisError::ProofInvalid),
        left.spec_world() == right.spec_world() && left.spec_endpoints().1 != right.spec_endpoints().0
            ==> r == Err::<CandidateRelation, MetisError>(MetisError::ProofInvalid),
        left.spec_world() == right.spec_world() && left.spec_endpoints().1 == right.spec_endpoints().0
            ==> r == Ok::<CandidateRelation, MetisError>(CandidateRelation {
                world: left.spec_world(),
                kind_edge: None,
                endpoints: (left.spec_endpoints().0, right.spec_endpoints().1),
            }),
{
    if left.world() != right.world() {
        return Err(MetisError::ProofInvalid);
    }
    let (x, y) = left.endpoints();
    let (u, z) = right.endpoints();
    if y != u {
        return Err(MetisError::ProofInvalid);
    }
    Ok(form_relation(left.world(), (x, z), None))
}

/// Admit an EQ candidate only when the graph replay succeeds under `world`.
///
/// Missing path → [`MetisError::ProofInvalid`] (admission refused).
pub fn admit_equal_relation(graph: &Graph, world: WorldId, candidate: CandidateRelation) -> (r: Result<AdmittedRelation, MetisError>)
    ensures
        ({
            let (a, b) = candidate.endpoints;
            &&& candidate.world != world ==> r == Err::<AdmittedRelation, MetisError>(MetisError::ProofInvalid)
            &&& candidate.world == world && a == b ==> (r matches Ok(adm) && minted_for(adm, world, (a, b),
                Seq::empty()))
            &&& candidate.world == world && a != b && !graph.has_node(a) ==> r == Err::<AdmittedRelation, MetisError>(
                node_handle_error(a))
            &&& candidate.world == world && a != b && graph.has_node(a) && !graph.has_node(b) ==> r == Err::<
                AdmittedRelation, MetisError>(node_handle_error(b))
            &&& candidate.world == world && a != b && graph.has_node(a) && graph.has_node(b) && !graph.equal_connected(a, b)
                ==> r == Err::<AdmittedRelation, MetisError>(MetisError::ProofInvalid)
            &&& candidate.world == world && a != b && graph.has_node(a) && graph.has_node(b) && graph.equal_connected(a, b)
                ==> (r matches Ok(adm) && exists|steps: Seq<Step>| graph.is_shortest_equal_path(a, b, steps) && minted_for(
                adm, world, (a, b), steps))
        }),
{
    if candidate.world != world {
        return Err(MetisError::ProofInvalid);
    }
    let (status, admitted) = search_and_admit_equal(graph, world, candidate.endpoints.0, candidate.endpoints.1)?;
    match (status, admitted) {
        (QueryStatus::Proven, Some(adm)) => Ok(adm),
        _ => Err(MetisError::ProofInvalid),
    }
}

} // verus!
