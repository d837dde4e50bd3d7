//! Derivation diagram replay. This slice accepts the degenerate diagram used by
//! EQ: an ordered list of judgment `Equal` steps. Search may propose a diagram;
//! only replay mints an admitted relation.

use vstd::prelude::*;
use crate::types::{MetisError, NodeId};
use crate::admission::{AdmittedRelation, QueryStatus, WorldId};
use crate::graph::{Graph, Step};
use crate::fnv::{fnv_fold, fnv_mix, lemma_fnv_fold_push, FNV_OFFSET};

verus! {

/// Degenerate derivation diagram: ordered EQ steps under a fixed world version.
#[derive(Debug, PartialEq, Eq)]
pub struct DerivationDiagram {
    pub world: WorldId,
    /// Conclusion `Equal(left, right)` endpoints.
    pub conclusion: (NodeId, NodeId),
    /// Ordered undirected EQ steps from left toward right.
    pub steps: Vec<Step>,
}

/// Words contributed by the steps of a diagram: edge handle, then direction.
pub open spec fn steps_words(steps: Seq<Step>) -> Seq<u64>
    decreases steps.len(),
{
    if steps.len() == 0 {
        Seq::empty()
    } else {
        steps_words(steps.drop_last()) + seq![steps.last().edge.0 as u64, if steps.last().forward { 1u64 } else { 0u64 }]
    }
}

/// All words folded into a diagram's evidence tag.
pub open spec fn diagram_words(world: WorldId, conclusion: (NodeId, NodeId), steps: Seq<Step>) -> Seq<u64> {
    seq![
        world.island.raw() as u64,
        world.version,
        conclusion.0.0 as u64,
        conclusion.1.0 as u64,
        steps.len() as u64,
    ] + steps_words(steps)
}

/// The evidence tag of a diagram.
pub open spec fn diagram_tag(world: WorldId, conclusion: (NodeId, NodeId), steps: Seq<Step>) -> u64 {
    fnv_fold(FNV_OFFSET, diagram_words(world, conclusion, steps))
}

/// `adm` is the admission minted for a diagram with these parts.
pub open spec fn minted_for(adm: AdmittedRelation, world: WorldId, conclusion: (NodeId, NodeId), steps: Seq<Step>) -> bool {
    &&& adm.spec_world() == world
    &&& adm.spec_endpoints() == conclusion
    &&& adm.spec_evidence_tag() == diagram_tag(world, conclusion, steps)
}

/// Same diagram, same evidence: two admissions minted for one diagram are the
/// same admission, tag included.
pub proof fn law_same_diagram_same_admission(
    a: AdmittedRelation,
    b: AdmittedRelation,
    world: WorldId,
    conclusion: (NodeId, NodeId),
    steps: Seq<Step>,
)
    requires
        minted_for(a, world, conclusion, steps),
        minted_for(b, world, conclusion, steps),
    ensures
        a == b,
{
    AdmittedRelation::lemma_parts_determine(a, b);
}

/// Replay a diagram against `graph`. On success, mint an opaque [`AdmittedRelation`].
///
/// Does not invent edges. Tampered steps / endpoints fail with [`MetisError::ProofInvalid`].
pub fn replay_equal_derivation(graph: &Graph, diagram: &DerivationDiagram) -> (r: Result<AdmittedRelation, MetisError>)
    ensures
        match graph.equal_check(diagram.conclusion.0, diagram.conclusion.1, diagram.steps@) {
            Err(e) => r == Err::<AdmittedRelation, MetisError>(e),
            Ok(_) => r matches Ok(adm) && minted_for(adm, diagram.world, diagram.conclusion, diagram.steps@),
        },
{
    let (start, end) = diagram.conclusion;
    verify_equal_steps(graph, start, end, diagram.steps.as_slice())?;
    let tag = fingerprint_diagram(diagram);
    Ok(AdmittedRelation::bootstrap_unchecked(diagram.world, diagram.conclusion, tag))
}

/// Search then replay: missing path → [`QueryStatus::Unknown`] (no admission).
pub fn search_and_admit_equal(graph: &Graph, world: WorldId, left: NodeId, right: NodeId) -> (r: Result<(QueryStatus, Option<AdmittedRelation>), MetisError>)
    ensures
        left == right ==> (r matches Ok((QueryStatus::Proven, Some(adm)))
            && minted_for(adm, world, (left, right), Seq::empty())),
        left != right && !graph.has_node(left) ==> r == Err::<(QueryStatus, Option<AdmittedRelation>), MetisError>(
            crate::graph::node_handle_error(left)),
        left != right && graph.has_node(left) && !graph.has_node(right) ==> r == Err::<(QueryStatus, Option<AdmittedRelation>), MetisError>(
            crate::graph::node_handle_error(right)),
        left != right && graph.has_node(left) && graph.has_node(right) && !graph.equal_connected(left, right)
            ==> r == Ok::<(QueryStatus, Option<AdmittedRelation>), MetisError>((QueryStatus::Unknown, None)),
        left != right && graph.has_node(left) && graph.has_node(right) && graph.equal_connected(left, right)
            ==> (r matches Ok((QueryStatus::Proven, Some(adm))) && exists|steps: Seq<Step>|
                graph.is_shortest_equal_path(left, right, steps) && minted_for(adm, world, (left, right), steps)),
{
    if left == right {
        let diagram = DerivationDiagram { world, conclusion: (left, right), steps: Vec::new() };
        let admitted = replay_equal_derivation(graph, &diagram)?;
        return Ok((QueryStatus::Proven, Some(admitted)));
    }
    match graph.find_equal_path(left, right)? {
        Some(steps) => {
            let diagram = DerivationDiagram { world, conclusion: (left, right), steps };
            let admitted = replay_equal_derivation(graph, &diagram)?;
            Ok((QueryStatus::Proven, Some(admitted)))
        },
        None => Ok((QueryStatus::Unknown, None)),
    }
}

/// Checks `steps` as an `Equal` path from `start` to `end`, front to back.
pub fn verify_equal_steps(graph: &Graph, start: NodeId, end: NodeId, steps: &[Step]) -> (r: Result<(), MetisError>)
    ensures
        r == graph.equal_check(start, end, steps@),
{
    if steps.len() == 0 {
        return if start == end { Ok(()) } else { Err(MetisError::ProofInvalid) };
    }
    let mut cur = start;
    let mut i: usize = 0;
    proof {
        assert(steps@.skip(0) == steps@);
    }
    while i < steps.len()
        invariant
            i <= steps@.len(),
            graph.eq_walk(start, steps@) == graph.eq_walk(cur, steps@.skip(i as int)),
        decreases steps.len() - i,
    {
        let step = steps[i];
        proof {
            assert(steps@.skip(i as int)[0] == step);
            assert(steps@.skip(i as int).drop_first() == steps@.skip(i + 1));
        }
        let (from, kind, to) = graph.edge(step.edge)?;
        if kind != crate::types::EdgeKind::Equal || !graph.is_judgment(step.edge)? {
            return Err(MetisError::ProofInvalid);
        }
        let (expected_from, nxt) = if step.forward { (from, to) } else { (to, from) };
        if cur != expected_from {
            return Err(MetisError::ProofInvalid);
        }
        cur = nxt;
        i = i + 1;
    }
    proof {
        assert(steps@.skip(steps@.len() as int) == Seq::<Step>::empty());
    }
    if cur == end { Ok(()) } else { Err(MetisError::ProofInvalid) }
}

/// Deterministic evidence tag of a diagram.
pub fn fingerprint_diagram(diagram: &DerivationDiagram) -> (r: u64)
    ensures
        r == diagram_tag(diagram.world, diagram.conclusion, diagram.steps@),
{
    let head: [u64; 5] = [
        diagram.world.island.get() as u64,
        diagram.world.version,
        diagram.conclusion.0.0 as u64,
        diagram.conclusion.1.0 as u64,
        diagram.steps.len() as u64,
    ];
    let ghost words = diagram_words(diagram.world, diagram.conclusion, diagram.steps@);
    let mut h: u64 = FNV_OFFSET;
    let mut i: usize = 0;
    while i < 5
        invariant
            i <= 5,
            head@.len() == 5,
            h == fnv_fold(FNV_OFFSET, head@.take(i as int)),
        decreases 5 - i,
    {
        proof {
            lemma_fnv_fold_push(FNV_OFFSET, head@.take(i as int), head@[i as int]);
            assert(head@.take(i + 1) == head@.take(i as int).push(head@[i as int]));
        }
        h = fnv_mix(h, head[i]);
        i = i + 1;
    }
    proof {
        assert(head@.take(5) == head@);
    }
    let ghost prefix = head@;
    let mut k: usize = 0;
    while k < diagram.steps.len()
        invariant
            k <= diagram.steps@.len(),
            h == fnv_fold(FNV_OFFSET, prefix + steps_words(diagram.steps@.take(k as int))),
        decreases diagram.steps.len() - k,
    {
        let step = diagram.steps[k];
        let ghost before = prefix + steps_words(diagram.steps@.take(k as int));
        let fw: u64 = if step.forward { 1 } else { 0 };
        proof {
            lemma_fnv_fold_push(FNV_OFFSET, before, step.edge.0 as u64);
            lemma_fnv_fold_push(FNV_OFFSET, before.push(step.edge.0 as u64), fw);
            let t = diagram.steps@.take(k + 1);
            assert(t.drop_last() == diagram.steps@.take(k as int));
            assert(t.last() == step);
            assert(prefix + steps_words(t) == before.push(step.edge.0 as u64).push(fw));
        }
        h = fnv_mix(h, step.edge.0 as u64);
        h = fnv_mix(h, fw);
        k = k + 1;
    }
    proof {
        assert(diagram.steps@.take(diagram.steps@.len() as int) == diagram.steps@);
        assert(prefix =~= seq![
            diagram.world.island.raw() as u64,
            diagram.world.version,
            diagram.conclusion.0.0 as u64,
            diagram.conclusion.1.0 as u64,
            diagram.steps@.len() as u64,
        ]);
    }
    h
}

} // verus!
