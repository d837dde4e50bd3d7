//! Proof search and proof checking over the relation graph.
//!
//! - **EQ**: reflexivity, symmetry, transitivity of `Equal` judgment edges.
//! - **Membership**: a judgment `In` edge witnesses `x ∈ S`; its absence is `x ∉ S`.

use vstd::prelude::*;
use crate::types::{EdgeId, EdgeKind, MetisError, NodeId};
use crate::graph::{edge_handle_error, node_handle_error, Graph, Out, Step};
use crate::derivation::verify_equal_steps;

verus! {

/// A goal that can be proved or verified.
#[derive(Clone, Copy, Debug, PartialEq, Eq, Structural)]
pub enum Goal {
    /// Propositional equality under EQ rules (and definitional identity).
    Equal(NodeId, NodeId),
    /// Weak inequality: distinct handles and no `Equal` path.
    NotEqual(NodeId, NodeId),
    /// Membership `x ∈ S` via judgment `In`.
    Member(NodeId, NodeId),
    /// `x ∉ S` when no justifying `In` exists.
    NotMember(NodeId, NodeId),
}

/// How a goal was justified.
#[derive(Clone, Debug, PartialEq, Eq)]
pub enum Justification {
    /// EQ path (empty = reflexivity or definitional same node).
    EqualSteps(Vec<Step>),
    /// Witness `In` edge for membership.
    MemberIn(EdgeId),
    /// Negative goals.
    Negation,
}

/// Certificate that `goal` holds under the island rules used to build it.
#[derive(Clone, Debug, PartialEq, Eq)]
pub struct Proof {
    /// Goal proved.
    pub goal: Goal,
    /// Justification payload.
    pub justification: Justification,
}

/// The first `In` judgment in `js` that points at `set`.
pub open spec fn first_in_edge(js: Seq<Out>, set: NodeId) -> Option<EdgeId>
    decreases js.len(),
{
    if js.len() == 0 {
        None
    } else if js[0].1 == EdgeKind::In && js[0].2 == set {
        Some(js[0].0)
    } else {
        first_in_edge(js.drop_first(), set)
    }
}

/// The `In` witness for `elem ∈ set`, if any.
pub open spec fn member_edge(graph: &Graph, elem: NodeId, set: NodeId) -> Option<EdgeId> {
    first_in_edge(graph.node_of(elem).judgments, set)
}

/// The outcome of checking a proof against the graph.
pub open spec fn verify_result(graph: &Graph, proof: &Proof) -> Result<(), MetisError> {
    match (proof.goal, proof.justification) {
        (Goal::Equal(a, b), Justification::EqualSteps(steps)) => graph.equal_check(a, b, steps@),
        (Goal::NotEqual(a, b), Justification::Negation) => {
            if a == b {
                Err(MetisError::ProofInvalid)
            } else if !graph.has_node(a) {
                Err(node_handle_error(a))
            } else if !graph.has_node(b) {
                Err(node_handle_error(b))
            } else if graph.equal_connected(a, b) {
                Err(MetisError::ProofInvalid)
            } else {
                Ok(())
            }
        },
        (Goal::Member(x, s), Justification::MemberIn(e)) => {
            if !graph.has_edge(e) {
                Err(edge_handle_error(e))
            } else if graph.edge_of(e) == (crate::graph::EdgeRec { from: x, to: s, kind: EdgeKind::In, judgment: true }) {
                Ok(())
            } else {
                Err(MetisError::ProofInvalid)
            }
        },
        (Goal::NotMember(x, s), Justification::Negation) => {
            if !graph.has_node(x) {
                Err(node_handle_error(x))
            } else if member_edge(graph, x, s) is Some {
                Err(MetisError::ProofInvalid)
            } else {
                Ok(())
            }
        },
        _ => Err(MetisError::ProofInvalid),
    }
}

/// The outcome of searching a proof of `goal`: the justification found, or why none is.
pub open spec fn prove_succeeds(graph: &Graph, goal: Goal) -> bool {
    match goal {
        Goal::Equal(a, b) => a == b || (graph.has_node(a) && graph.has_node(b) && graph.equal_connected(a, b)),
        Goal::NotEqual(a, b) => a != b && graph.has_node(a) && graph.has_node(b) && !graph.equal_connected(a, b),
        Goal::Member(x, s) => graph.has_node(x) && member_edge(graph, x, s) is Some,
        Goal::NotMember(x, s) => graph.has_node(x) && member_edge(graph, x, s) is None,
    }
}

/// The error reported when no proof of `goal` is found.
pub open spec fn prove_error(graph: &Graph, goal: Goal) -> MetisError {
    match goal {
        Goal::Equal(a, b) => if !graph.has_node(a) {
            node_handle_error(a)
        } else if !graph.has_node(b) {
            node_handle_error(b)
        } else {
            MetisError::PathNotFound
        },
        Goal::NotEqual(a, b) => if a == b {
            MetisError::ProofInvalid
        } else if !graph.has_node(a) {
            node_handle_error(a)
        } else if !graph.has_node(b) {
            node_handle_error(b)
        } else {
            MetisError::ProofInvalid
        },
        Goal::Member(x, s) => if !graph.has_node(x) {
            node_handle_error(x)
        } else {
            MetisError::PathNotFound
        },
        Goal::NotMember(x, s) => if !graph.has_node(x) {
            node_handle_error(x)
        } else {
            MetisError::ProofInvalid
        },
    }
}

/// Search a proof of `goal`; every proof returned passes [`verify`].
pub fn prove(graph: &Graph, goal: Goal) -> (r: Result<Proof, MetisError>)
    ensures
        prove_succeeds(graph, goal) ==> (r matches Ok(p) && p.goal == goal && verify_result(graph, &p) is Ok),
        !prove_succeeds(graph, goal) ==> r == Err::<Proof, MetisError>(prove_error(graph, goal)),
        r matches Ok(p) ==> match (goal, p.justification) {
            (Goal::Equal(a, b), Justification::EqualSteps(steps)) => graph.is_shortest_equal_path(a, b, steps@),
            (Goal::Member(x, s), Justification::MemberIn(e)) => member_edge(graph, x, s) == Some(e),
            (Goal::NotEqual(_, _), Justification::Negation) => true,
            (Goal::NotMember(_, _), Justification::Negation) => true,
            _ => false,
        },
        goal matches Goal::Member(x, s) ==> (r is Ok <==> graph.has_node(x) && graph.has_judgment_out(
            x,
            EdgeKind::In,
            s,
        )),
        goal matches Goal::NotMember(x, s) ==> (r is Ok <==> graph.has_node(x) && !graph.has_judgment_out(
            x,
            EdgeKind::In,
            s,
        )),
{
    proof {
        match goal {
            Goal::Member(x, s) => lemma_first_in_edge_finds(graph.node_of(x).judgments, s),
            Goal::NotMember(x, s) => lemma_first_in_edge_finds(graph.node_of(x).judgments, s),
            _ => {},
        }
    }
    let proof = match goal {
        Goal::Equal(a, b) => {
            if a == b {
                let steps: Vec<Step> = Vec::new();
                proof {
                    assert(graph.is_equal_path(a, b, steps@));
                    assert(graph.is_shortest_equal_path(a, b, steps@));
                }
                Proof { goal, justification: Justification::EqualSteps(steps) }
            } else {
                match graph.find_equal_path(a, b)? {
                    Some(steps) => Proof { goal, justification: Justification::EqualSteps(steps) },
                    None => return Err(MetisError::PathNotFound),
                }
            }
        },
        Goal::NotEqual(a, b) => {
            if a == b {
                return Err(MetisError::ProofInvalid);
            }
            if graph.find_equal_path(a, b)?.is_some() {
                return Err(MetisError::ProofInvalid);
            }
            Proof { goal, justification: Justification::Negation }
        },
        Goal::Member(x, s) => {
            match find_member_edge(graph, x, s)? {
                Some(eid) => {
                    proof {
                        lemma_first_in_edge_valid(graph, x, s);
                    }
                    Proof { goal, justification: Justification::MemberIn(eid) }
                },
                None => return Err(MetisError::PathNotFound),
            }
        },
        Goal::NotMember(x, s) => {
            if find_member_edge(graph, x, s)?.is_some() {
                return Err(MetisError::ProofInvalid);
            }
            Proof { goal, justification: Justification::Negation }
        },
    };
    verify(graph, &proof)?;
    Ok(proof)
}

/// An `In` witness found in the judgment outs of `x` is a stored `In` judgment from `x` to `s`.
proof fn lemma_first_in_edge_valid(graph: &Graph, x: NodeId, s: NodeId)
    requires
        graph.has_node(x),
        graph.outs_valid(x, graph.node_of(x).judgments, true),
        member_edge(graph, x, s) is Some,
    ensures
        graph.has_edge(member_edge(graph, x, s)->0),
        graph.edge_of(member_edge(graph, x, s)->0) == (crate::graph::EdgeRec { from: x, to: s, kind: EdgeKind::In, judgment: true }),
{
    lemma_first_in_edge_index(graph.node_of(x).judgments, s);
}

proof fn lemma_first_in_edge_index(js: Seq<Out>, s: NodeId)
    requires
        first_in_edge(js, s) is Some,
    ensures
        exists|j: int| 0 <= j < js.len() && #[trigger] js[j] == (first_in_edge(js, s)->0, EdgeKind::In, s),
    decreases js.len(),
{
    if js[0].1 == EdgeKind::In && js[0].2 == s {
        assert(js[0] == (first_in_edge(js, s)->0, EdgeKind::In, s));
    } else {
        lemma_first_in_edge_index(js.drop_first(), s);
        let j = choose|j: int| 0 <= j < js.drop_first().len() && #[trigger] js.drop_first()[j] == (first_in_edge(
            js.drop_first(), s)->0, EdgeKind::In, s);
        assert(js[j + 1] == js.drop_first()[j]);
    }
}

/// Recheck a proof against the graph. Does not invent edges.
pub fn verify(graph: &Graph, proof: &Proof) -> (r: Result<(), MetisError>)
    ensures
        r == verify_result(graph, proof),
        proof.goal matches Goal::Member(x, s) ==> (proof.justification matches Justification::MemberIn(e) ==> (r is Ok
            <==> {
            &&& graph.has_edge(e)
            &&& graph.edge_of(e).from == x
            &&& graph.edge_of(e).to == s
            &&& graph.edge_of(e).kind == EdgeKind::In
            &&& graph.edge_of(e).judgment
        })),
{
    match (&proof.goal, &proof.justification) {
        (Goal::Equal(a, b), Justification::EqualSteps(steps)) => verify_equal(graph, *a, *b, steps),
        (Goal::NotEqual(a, b), Justification::Negation) => {
            if *a == *b || graph.find_equal_path(*a, *b)?.is_some() {
                Err(MetisError::ProofInvalid)
            } else {
                Ok(())
            }
        },
        (Goal::Member(x, s), Justification::MemberIn(eid)) => {
            let (from, kind, to) = graph.edge(*eid)?;
            if kind != EdgeKind::In || !graph.is_judgment(*eid)? || from != *x || to != *s {
                return Err(MetisError::ProofInvalid);
            }
            Ok(())
        },
        (Goal::NotMember(x, s), Justification::Negation) => {
            if find_member_edge(graph, *x, *s)?.is_some() {
                Err(MetisError::ProofInvalid)
            } else {
                Ok(())
            }
        },
        _ => Err(MetisError::ProofInvalid),
    }
}

/// The first `In` judgment from `elem` to `set`.
fn find_member_edge(graph: &Graph, elem: NodeId, set: NodeId) -> (r: Result<Option<EdgeId>, MetisError>)
    ensures
        !graph.has_node(elem) ==> r == Err::<Option<EdgeId>, MetisError>(node_handle_error(elem)),
        graph.has_node(elem) ==> r == Ok::<Option<EdgeId>, MetisError>(member_edge(graph, elem, set)),
        graph.has_node(elem) ==> graph.outs_valid(elem, graph.node_of(elem).judgments, true),
        graph.has_node(elem) ==> (r matches Ok(found) && (found is Some <==> graph.has_judgment_out(
            elem,
            EdgeKind::In,
            set,
        ))),
        r matches Ok(Some(e)) ==> graph.node_of(elem).judgments.contains((e, EdgeKind::In, set)),
{
    proof {
        lemma_first_in_edge_finds(graph.node_of(elem).judgments, set);
        if let Some(e) = member_edge(graph, elem, set) {
            let js = graph.node_of(elem).judgments;
            let j = choose|j: int| 0 <= j < js.len() && #[trigger] js[j] == (e, EdgeKind::In, set);
            assert(js.contains(js[j]));
        }
    }
    let js = graph.judgment_outgoing(elem)?;
    let mut i: usize = 0;
    proof {
        assert(js@.skip(0) == js@);
    }
    while i < js.len()
        invariant
            graph.has_node(elem),
            js@ == graph.node_of(elem).judgments,
            graph.outs_valid(elem, graph.node_of(elem).judgments, true),
            i <= js@.len(),
            first_in_edge(js@, set) == first_in_edge(js@.skip(i as int), set),
        decreases js.len() - i,
    {
        let (eid, kind, to) = js[i];
        proof {
            assert(js@.skip(i as int)[0] == js@[i as int]);
            assert(js@.skip(i as int).drop_first() == js@.skip(i + 1));
        }
        if kind == EdgeKind::In && to == set {
            return Ok(Some(eid));
        }
        i = i + 1;
    }
    proof {
        assert(js@.skip(js@.len() as int) == Seq::<Out>::empty());
    }
    Ok(None)
}

/// Checks `steps` as an `Equal` path from `start` to `end`.
fn verify_equal(graph: &Graph, start: NodeId, end: NodeId, steps: &Vec<Step>) -> (r: Result<(), MetisError>)
    ensures
        r == graph.equal_check(start, end, steps@),
{
    verify_equal_steps(graph, start, end, steps.as_slice())
}


/// The first `In` judgment into `set` is found wherever it stands in the list:
/// there is one exactly when some entry is an `In` judgment into `set`, and the
/// edge found is such an entry.
proof fn lemma_first_in_edge_finds(js: Seq<Out>, set: NodeId)
    ensures
        first_in_edge(js, set) is Some <==> exists|j: int| 0 <= j < js.len() && (#[trigger] js[j]).1 == EdgeKind::In
            && js[j].2 == set,
        first_in_edge(js, set) matches Some(e) ==> exists|j: int| 0 <= j < js.len() && #[trigger] js[j] == (
            e,
            EdgeKind::In,
            set,
        ),
    decreases js.len(),
{
    if js.len() > 0 {
        lemma_first_in_edge_finds(js.drop_first(), set);
        if !(js[0].1 == EdgeKind::In && js[0].2 == set) {
            if exists|j: int| 0 <= j < js.len() && (#[trigger] js[j]).1 == EdgeKind::In && js[j].2 == set {
                let j = choose|j: int| 0 <= j < js.len() && (#[trigger] js[j]).1 == EdgeKind::In && js[j].2 == set;
                assert(js.drop_first()[j - 1] == js[j]);
            }
            if let Some(e) = first_in_edge(js, set) {
                let j = choose|j: int| 0 <= j < js.len() - 1 && #[trigger] js.drop_first()[j] == (e, EdgeKind::In, set);
                assert(js[j + 1] == js.drop_first()[j]);
            }
        }
    }
}

/// Membership is decided by the `In` judgments of the element alone: a
/// membership witness exists exactly when the element has an `In` judgment into
/// the set (whatever other sets it belongs to), the witness is such a judgment,
/// `Member` is provable exactly then, and `NotMember` exactly when it is not.
pub proof fn law_membership_witness(graph: &Graph, x: NodeId, s: NodeId)
    ensures
        member_edge(graph, x, s) is Some <==> graph.has_judgment_out(x, EdgeKind::In, s),
        member_edge(graph, x, s) matches Some(e) ==> graph.node_of(x).judgments.contains((e, EdgeKind::In, s)),
        prove_succeeds(graph, Goal::Member(x, s)) <==> graph.has_node(x) && graph.has_judgment_out(x, EdgeKind::In, s),
        prove_succeeds(graph, Goal::NotMember(x, s)) <==> graph.has_node(x) && !graph.has_judgment_out(
            x,
            EdgeKind::In,
            s,
        ),
{
    lemma_first_in_edge_finds(graph.node_of(x).judgments, s);
    if let Some(e) = member_edge(graph, x, s) {
        let js = graph.node_of(x).judgments;
        let j = choose|j: int| 0 <= j < js.len() && #[trigger] js[j] == (e, EdgeKind::In, s);
        assert(js.contains(js[j]));
    }
}

/// A membership certificate names its own edge: `Member(x, s)` checks with
/// witness `e` exactly when `e` is a stored `In` judgment from `x` to `s`; an
/// `In` judgment from `x` into any other set never justifies it.
pub proof fn law_membership_certificate(graph: &Graph, x: NodeId, s: NodeId, e: EdgeId)
    ensures
        verify_result(graph, &(Proof { goal: Goal::Member(x, s), justification: Justification::MemberIn(e) })) is Ok
            <==> {
            &&& graph.has_edge(e)
            &&& graph.edge_of(e).from == x
            &&& graph.edge_of(e).to == s
            &&& graph.edge_of(e).kind == EdgeKind::In
            &&& graph.edge_of(e).judgment
        },
        graph.has_edge(e) && graph.edge_of(e).to != s ==> verify_result(
            graph,
            &(Proof { goal: Goal::Member(x, s), justification: Justification::MemberIn(e) }),
        ) is Err,
{
}


/// What each certificate checks: an `Equal` certificate is accepted exactly
/// when its steps walk from one end to the other along `Equal` judgments; a
/// `NotEqual` one exactly when the two nodes are distinct, known and not joined
/// by any such walk; a `NotMember` one exactly when the element is known and
/// has no `In` judgment into the set; and a certificate of the wrong kind for
/// its goal never.
pub proof fn law_certificate_meaning(graph: &Graph, a: NodeId, b: NodeId, steps: Vec<Step>, e: EdgeId)
    ensures
        verify_result(graph, &(Proof { goal: Goal::Equal(a, b), justification: Justification::EqualSteps(steps) }))
            is Ok <==> graph.is_equal_path(a, b, steps@),
        verify_result(graph, &(Proof { goal: Goal::NotEqual(a, b), justification: Justification::Negation })) is Ok
            <==> a != b && graph.has_node(a) && graph.has_node(b) && !graph.equal_connected(a, b),
        verify_result(graph, &(Proof { goal: Goal::NotMember(a, b), justification: Justification::Negation })) is Ok
            <==> graph.has_node(a) && !graph.has_judgment_out(a, EdgeKind::In, b),
        verify_result(graph, &(Proof { goal: Goal::Equal(a, b), justification: Justification::Negation })) is Err,
        verify_result(graph, &(Proof { goal: Goal::Member(a, b), justification: Justification::Negation })) is Err,
        verify_result(graph, &(Proof { goal: Goal::NotEqual(a, b), justification: Justification::MemberIn(e) })) is Err,
{
    law_membership_witness(graph, a, b);
}

} // verus!
