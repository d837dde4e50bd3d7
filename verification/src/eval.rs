//! Outer-world Eval attachments (numeric boundary). Numeric routines may form
//! these candidates; they never mint inner-world `Equal` judgments.

use vstd::prelude::*;
use crate::types::{EdgeKind, MetisError, NodeId};
use crate::admission::{CandidateRelation, QueryStatus, WorldId};
use crate::relation::form_relation;

verus! {

/// How a numeric routine classified its outer result.
#[derive(Clone, Copy, Debug, PartialEq, Eq, Structural, Hash)]
pub enum EvalCertificateKind {
    /// Exact rational (or integer) with a replayable certificate handle.
    ExactBounded,
    /// Interval enclosure — outer only, never Equal.
    Interval,
    /// Floating / approximate — outer only, never Equal.
    Approximate,
    /// Timeout / diverge / NaN — outer failure record, not Refuted.
    Failed,
}

/// Outer numeric attachment at a symbolic position (sidecar, not an admitted fact).
#[derive(Clone, Copy, Debug, PartialEq, Eq, Structural, Hash)]
pub struct EvalAttachment {
    pub world: WorldId,
    pub position: NodeId,
    /// Opaque certificate / numeric shadow handle.
    pub certificate_tag: u64,
    pub kind: EvalCertificateKind,
}

/// Form an outer Eval candidate relation (position → shadow node) without admission.
pub fn form_eval_candidate(world: WorldId, position: NodeId, shadow: NodeId) -> (r: CandidateRelation)
    ensures
        r == (CandidateRelation { world, kind_edge: None, endpoints: (position, shadow) }),
{
    form_relation(world, (position, shadow), None)
}

/// Record an outer Eval attachment sidecar.
pub fn form_eval_attachment(world: WorldId, position: NodeId, certificate_tag: u64, kind: EvalCertificateKind) -> (r: EvalAttachment)
    ensures
        r == (EvalAttachment { world, position, certificate_tag, kind }),
{
    EvalAttachment { world, position, certificate_tag, kind }
}

/// Refuse treating any Eval attachment as an Equal judgment.
pub fn refuse_eval_as_equal(att: &EvalAttachment) -> (r: Result<(), MetisError>)
    ensures
        r == Err::<(), MetisError>(MetisError::ProofInvalid),
{
    let _ = att;
    Err(MetisError::ProofInvalid)
}

/// Only exact bounded certificates may *apply* for admission later.
pub fn may_request_admission(att: &EvalAttachment) -> (r: bool)
    ensures
        r == (att.kind == EvalCertificateKind::ExactBounded),
{
    matches!(att.kind, EvalCertificateKind::ExactBounded)
}

/// An Eval attachment, present or missing, is never Proven or Refuted.
pub fn eval_query_status(found: bool) -> (r: QueryStatus)
    ensures
        r == QueryStatus::Unknown,
{
    if found {
        // Presence of an outer attachment is not proven mathematics.
        QueryStatus::Unknown
    } else {
        QueryStatus::Unknown
    }
}

/// The Eval kind is not the Equal kind.
pub fn eval_is_not_equal() -> (r: bool)
    ensures
        r,
        EdgeKind::Eval != EdgeKind::Equal,
{
    !matches!(EdgeKind::Eval, EdgeKind::Equal)
}

} // verus!
