//! Explicit conflict detection without explosion. When an island declares two
//! relation kinds mutually exclusive and both have evidence on the same
//! endpoints, a conflict report is produced; nothing else is derived.

use vstd::prelude::*;
use crate::types::{EdgeKind, MetisError, NodeId};
use crate::admission::{AdmittedRelation, ConflictReport, QueryStatus, WorldId};
use crate::graph::Graph;

verus! {

/// Island-declared mutual exclusion between two judgment kinds on one endpoint pair.
#[derive(Clone, Copy, Debug, PartialEq, Eq, Structural, Hash)]
pub struct Incompatibility {
    pub left_kind: EdgeKind,
    pub right_kind: EdgeKind,
}

impl Incompatibility {
    /// `Equal` vs custom not-equal witness (finite-fragment demo policy).
    pub fn equal_vs_custom_not_equal(not_equal_tag: u16) -> (r: Self)
        ensures
            r == (Incompatibility { left_kind: EdgeKind::Equal, right_kind: EdgeKind::Custom(not_equal_tag) }),
    {
        Incompatibility { left_kind: EdgeKind::Equal, right_kind: EdgeKind::Custom(not_equal_tag) }
    }
}

/// The four-valued status of a pair of incompatible judgments.
pub open spec fn status_of(has_left: bool, has_right: bool) -> QueryStatus {
    if has_left && has_right {
        QueryStatus::Inconsistent
    } else if has_left {
        QueryStatus::Proven
    } else if has_right {
        QueryStatus::Refuted
    } else {
        QueryStatus::Unknown
    }
}

/// Look for both sides of an incompatibility as judgment edges.
pub fn detect_judgment_conflict(
    graph: &Graph,
    world: WorldId,
    endpoints: (NodeId, NodeId),
    policy: Incompatibility,
) -> (r: Result<Option<ConflictReport>, MetisError>)
    ensures
        ({
            let (a, b) = endpoints;
            let l = graph.judgment_lookup(policy.left_kind, a, b);
            let rr = graph.judgment_lookup(policy.right_kind, a, b);
            match (l, rr) {
                (Err(e), _) => r == Err::<Option<ConflictReport>, MetisError>(e),
                (Ok(_), Err(e)) => r == Err::<Option<ConflictReport>, MetisError>(e),
                (Ok(x), Ok(y)) => r matches Ok(o) && (o is Some <==> (x && y)) && (
                    o matches Some(rep) ==> {
                        &&& rep.world == world
                        &&& rep.left.spec_world() == world
                        &&& rep.left.spec_endpoints() == endpoints
                        &&& rep.left.spec_evidence_tag() == 1
                        &&& rep.right.spec_world() == world
                        &&& rep.right.spec_endpoints() == endpoints
                        &&& rep.right.spec_evidence_tag() == 2
                    }),
            }
        }),
{
    let left = find_judgment(graph, policy.left_kind, endpoints)?;
    let right = find_judgment(graph, policy.right_kind, endpoints)?;
    match (left, right) {
        (Some(_), Some(_)) => {
            let left = AdmittedRelation::bootstrap_unchecked(world, endpoints, 1);
            let right = AdmittedRelation::bootstrap_unchecked(world, endpoints, 2);
            Ok(Some(ConflictReport { world, left, right }))
        },
        _ => Ok(None),
    }
}

/// Query status under an incompatibility policy (no failure-as-negation).
pub fn query_under_incompatibility(graph: &Graph, endpoints: (NodeId, NodeId), policy: Incompatibility) -> (r: Result<QueryStatus, MetisError>)
    ensures
        ({
            let (a, b) = endpoints;
            let l = graph.judgment_lookup(policy.left_kind, a, b);
            let rr = graph.judgment_lookup(policy.right_kind, a, b);
            match (l, rr) {
                (Err(e), _) => r == Err::<QueryStatus, MetisError>(e),
                (Ok(_), Err(e)) => r == Err::<QueryStatus, MetisError>(e),
                (Ok(x), Ok(y)) => r == Ok::<QueryStatus, MetisError>(status_of(x, y)),
            }
        }),
{
    let has_left = find_judgment(graph, policy.left_kind, endpoints)?.is_some();
    let has_right = find_judgment(graph, policy.right_kind, endpoints)?.is_some();
    Ok(match (has_left, has_right) {
        (true, true) => QueryStatus::Inconsistent,
        (true, false) => QueryStatus::Proven,
        (false, true) => QueryStatus::Refuted,
        (false, false) => QueryStatus::Unknown,
    })
}

/// Finds `kind(from, to)` among the judgment edges; `Equal` also matches `to → from`.
fn find_judgment(graph: &Graph, kind: EdgeKind, endpoints: (NodeId, NodeId)) -> (r: Result<Option<()>, MetisError>)
    ensures
        ({
            let (a, b) = endpoints;
            match graph.judgment_lookup(kind, a, b) {
                Err(e) => r == Err::<Option<()>, MetisError>(e),
                Ok(found) => r matches Ok(o) && (o is Some <==> found),
            }
        }),
{
    let (from, to) = endpoints;
    if graph.scan_judgment(from, kind, to)? {
        return Ok(Some(()));
    }
    if kind == EdgeKind::Equal {
        if graph.scan_judgment(to, EdgeKind::Equal, from)? {
            return Ok(Some(()));
        }
    }
    Ok(None)
}

/// A conflict is reported exactly when the query status is `Inconsistent`, and a
/// status is never derived from one side alone beyond `Proven` / `Refuted`.
pub proof fn law_conflict_iff_inconsistent(x: bool, y: bool)
    ensures
        (status_of(x, y) == QueryStatus::Inconsistent) == (x && y),
        (status_of(x, y) == QueryStatus::Unknown) == (!x && !y),
{
}

} // verus!
