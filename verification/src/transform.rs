//! Relation transformation schemas: premise relation patterns → conclusion
//! pattern. Ships the two-premise skeleton (EQ transitivity).

use vstd::prelude::*;
use crate::types::{EdgeKind, MetisError, NodeId};
use crate::admission::{AdmittedRelation, WorldId};
use crate::graph::{Graph, Step};
use crate::fnv::{fnv_fold, fnv_mix, lemma_fnv_fold_push, FNV_OFFSET};

verus! {

/// Pattern for one premise judgment: `kind(from, to)` with optional fixed endpoints.
#[derive(Clone, Copy, Debug, PartialEq, Eq, Structural, Hash)]
pub struct PremisePattern {
    pub kind: EdgeKind,
    /// If set, the source endpoint must match this node.
    pub from: Option<NodeId>,
    /// If set, the target endpoint must match this node.
    pub to: Option<NodeId>,
}

/// Declared two-premise transformation schema.
#[derive(Clone, Debug, PartialEq, Eq)]
pub struct TransformationSchema {
    pub name: String,
    pub premise_a: PremisePattern,
    pub premise_b: PremisePattern,
    pub conclusion_kind: EdgeKind,
}

/// One concrete instance proposed by search (still a candidate until replay).
#[derive(Clone, Copy, Debug, PartialEq, Eq, Hash)]
pub struct TransformationInstance {
    pub premise_a: (NodeId, NodeId),
    pub premise_b: (NodeId, NodeId),
    pub conclusion: (NodeId, NodeId),
}

/// The name of the EQ transitivity schema.
pub open spec fn transitivity_name() -> Seq<char> {
    "equal_transitivity"@
}

/// The wiring an instance must have to match a schema with `name`.
pub open spec fn instance_wired(name: Seq<char>, inst: TransformationInstance) -> bool {
    name == transitivity_name() ==> {
        &&& inst.premise_a.1 == inst.premise_b.0
        &&& inst.conclusion.0 == inst.premise_a.0
        &&& inst.conclusion.1 == inst.premise_b.1
    }
}

impl TransformationSchema {
    /// EQ transitivity skeleton: `Equal(x,y)` and `Equal(y,z)` ⇒ `Equal(x,z)`.
    pub fn equal_transitivity() -> (r: Self)
        ensures
            r.name@ == transitivity_name(),
            r.premise_a == (PremisePattern { kind: EdgeKind::Equal, from: None, to: None }),
            r.premise_b == (PremisePattern { kind: EdgeKind::Equal, from: None, to: None }),
            r.conclusion_kind == EdgeKind::Equal,
    {
        TransformationSchema {
            name: "equal_transitivity".to_owned(),
            premise_a: PremisePattern { kind: EdgeKind::Equal, from: None, to: None },
            premise_b: PremisePattern { kind: EdgeKind::Equal, from: None, to: None },
            conclusion_kind: EdgeKind::Equal,
        }
    }

    /// Check that an instance matches this schema's shape (shared middle node for transitivity).
    pub fn matches_instance(&self, inst: &TransformationInstance) -> (r: bool)
        ensures
            r == instance_wired(self.name@, *inst),
            self.name@ != transitivity_name() ==> r,
            self.name@ == transitivity_name() ==> (r <==> inst.premise_a.1 == inst.premise_b.0
                && inst.conclusion == (inst.premise_a.0, inst.premise_b.1)),
    {
        if self.name == "equal_transitivity".to_owned() {
            let (x, y1) = inst.premise_a;
            let (y2, z) = inst.premise_b;
            let (cx, cz) = inst.conclusion;
            return y1 == y2 && cx == x && cz == z;
        }
        // Generic: endpoint wiring is left to replay against the graph.
        true
    }
}

/// The evidence words of an instance under a world and schema-name length.
/// Length in UTF-8 bytes of a name, as a word.
pub open spec fn name_byte_len(name: Seq<char>) -> u64 {
    (vstd::utf8::encode_utf8(name).len() as usize) as u64
}

pub open spec fn instance_words(world: WorldId, name_len: u64, inst: TransformationInstance) -> Seq<u64> {
    seq![
        world.island.raw() as u64,
        world.version,
        inst.premise_a.0.0 as u64,
        inst.premise_a.1.0 as u64,
        inst.premise_b.0.0 as u64,
        inst.premise_b.1.0 as u64,
        inst.conclusion.0.0 as u64,
        inst.conclusion.1.0 as u64,
        name_len,
    ]
}

/// The judgment `kind(a, b)` is present (an `Equal` one in either direction).
pub open spec fn judgment_result(graph: &Graph, kind: EdgeKind, ends: (NodeId, NodeId)) -> Result<(), MetisError> {
    match graph.judgment_lookup(kind, ends.0, ends.1) {
        Err(e) => Err(e),
        Ok(true) => Ok(()),
        Ok(false) => Err(MetisError::ProofInvalid),
    }
}

/// Only EQ transitivity constrains how an instance is wired: it needs the
/// shared middle node and a conclusion joining the outer ends. Any other schema
/// accepts every instance, whatever its conclusion endpoints, leaving the
/// premises to replay.
pub proof fn law_instance_wiring(name: Seq<char>, inst: TransformationInstance)
    ensures
        name != transitivity_name() ==> instance_wired(name, inst),
        name == transitivity_name() ==> (instance_wired(name, inst) <==> {
            &&& inst.premise_a.1 == inst.premise_b.0
            &&& inst.conclusion == (inst.premise_a.0, inst.premise_b.1)
        }),
{
}

/// Replay a two-premise instance: both premises must already be judgment edges in `graph`.
///
/// On success, mints an [`AdmittedRelation`] for the conclusion under `world`.
/// Does **not** insert the conclusion edge — admission is epistemic, not mutation.
pub fn replay_two_premise(
    graph: &Graph,
    world: WorldId,
    schema: &TransformationSchema,
    inst: &TransformationInstance,
) -> (r: Result<AdmittedRelation, MetisError>)
    ensures
        !instance_wired(schema.name@, *inst) ==> r == Err::<AdmittedRelation, MetisError>(
            MetisError::ProofInvalid),
        instance_wired(schema.name@, *inst) && judgment_result(graph, schema.premise_a.kind, inst.premise_a) is Err
            ==> r == Err::<AdmittedRelation, MetisError>(
                judgment_result(graph, schema.premise_a.kind, inst.premise_a)->Err_0),
        instance_wired(schema.name@, *inst) && judgment_result(graph, schema.premise_a.kind, inst.premise_a) is Ok
            && judgment_result(graph, schema.premise_b.kind, inst.premise_b) is Err
            ==> r == Err::<AdmittedRelation, MetisError>(
                judgment_result(graph, schema.premise_b.kind, inst.premise_b)->Err_0),
        instance_wired(schema.name@, *inst) && judgment_result(graph, schema.premise_a.kind, inst.premise_a) is Ok
            && judgment_result(graph, schema.premise_b.kind, inst.premise_b) is Ok && schema.name@
            == transitivity_name() && !graph.equal_connected(inst.conclusion.0, inst.conclusion.1)
            ==> r == Err::<AdmittedRelation, MetisError>(MetisError::ProofInvalid),
        r matches Ok(adm) ==> {
            &&& instance_wired(schema.name@, *inst)
            &&& judgment_result(graph, schema.premise_a.kind, inst.premise_a) is Ok
            &&& judgment_result(graph, schema.premise_b.kind, inst.premise_b) is Ok
            &&& schema.name@ == transitivity_name() ==> graph.equal_connected(inst.conclusion.0, inst.conclusion.1)
            &&& adm.spec_world() == world
            &&& adm.spec_endpoints() == inst.conclusion
            &&& adm.spec_evidence_tag() == fnv_fold(FNV_OFFSET, instance_words(world, name_byte_len(schema.name@), *inst))
        },
        instance_wired(schema.name@, *inst) && judgment_result(graph, schema.premise_a.kind, inst.premise_a) is Ok
            && judgment_result(graph, schema.premise_b.kind, inst.premise_b) is Ok && schema.name@
            != transitivity_name() ==> r is Ok,
        // a schema other than transitivity needs only its two premises, whatever the conclusion
        schema.name@ != transitivity_name() && judgment_result(graph, schema.premise_a.kind, inst.premise_a) is Ok
            && judgment_result(graph, schema.premise_b.kind, inst.premise_b) is Ok ==> (r matches Ok(adm)
            && adm.spec_endpoints() == inst.conclusion),
        instance_wired(schema.name@, *inst) && judgment_result(graph, schema.premise_a.kind, inst.premise_a) is Ok
            && judgment_result(graph, schema.premise_b.kind, inst.premise_b) is Ok && schema.name@
            == transitivity_name() && graph.equal_connected(inst.conclusion.0, inst.conclusion.1) ==> r is Ok,
        // transitivity is sound: present `Equal` premises always yield the conclusion
        instance_wired(schema.name@, *inst) && schema.name@ == transitivity_name() && schema.premise_a.kind
            == EdgeKind::Equal && schema.premise_b.kind == EdgeKind::Equal && judgment_result(
            graph,
            EdgeKind::Equal,
            inst.premise_a,
        ) is Ok && judgment_result(graph, EdgeKind::Equal, inst.premise_b) is Ok ==> r is Ok,
{
    if !schema.matches_instance(inst) {
        return Err(MetisError::ProofInvalid);
    }
    ensure_judgment(graph, schema.premise_a.kind, inst.premise_a)?;
    ensure_judgment(graph, schema.premise_b.kind, inst.premise_b)?;
    // Conclusion must be entailed by the schema wiring; for equal_transitivity the path x-y-z exists.
    if schema.name == "equal_transitivity".to_owned() {
        let (x, z) = inst.conclusion;
        proof {
            if schema.premise_a.kind == EdgeKind::Equal && schema.premise_b.kind == EdgeKind::Equal {
                let y = inst.premise_a.1;
                let p = choose|p: Seq<Step>| graph.is_equal_path(x, y, p);
                let q = choose|q: Seq<Step>| graph.is_equal_path(y, z, q);
                graph.law_equal_transitive(x, y, z, p, q);
            }
        }
        if graph.find_equal_path(x, z)?.is_none() {
            return Err(MetisError::ProofInvalid);
        }
    }
    let tag = fingerprint_instance(world, schema, inst);
    Ok(AdmittedRelation::bootstrap_unchecked(world, inst.conclusion, tag))
}

/// Requires the judgment `kind(from, to)`; a reversed `Equal` witness also counts.
fn ensure_judgment(graph: &Graph, kind: EdgeKind, endpoints: (NodeId, NodeId)) -> (r: Result<(), MetisError>)
    ensures
        r == judgment_result(graph, kind, endpoints),
        r is Ok ==> graph.has_node(endpoints.0) && graph.has_node(endpoints.1),
        r is Ok && kind == EdgeKind::Equal ==> graph.equal_connected(endpoints.0, endpoints.1),
{
    let (from, to) = endpoints;
    if graph.scan_judgment(from, kind, to)? {
        return Ok(());
    }
    // Symmetric Equal: allow reverse witness.
    if kind == EdgeKind::Equal {
        if graph.scan_judgment(to, EdgeKind::Equal, from)? {
            return Ok(());
        }
    }
    Err(MetisError::ProofInvalid)
}

fn fingerprint_instance(world: WorldId, schema: &TransformationSchema, inst: &TransformationInstance) -> (r: u64)
    ensures
        r == fnv_fold(FNV_OFFSET, instance_words(world, name_byte_len(schema.name@), *inst)),
{
    let name = schema.name.as_str();
    let name_len = name.len();
    let words: [u64; 9] = [
        world.island.get() as u64,
        world.version,
        inst.premise_a.0.0 as u64,
        inst.premise_a.1.0 as u64,
        inst.premise_b.0.0 as u64,
        inst.premise_b.1.0 as u64,
        inst.conclusion.0.0 as u64,
        inst.conclusion.1.0 as u64,
        name_len as u64,
    ];
    proof {
        assert(words@ =~= instance_words(world, name_byte_len(schema.name@), *inst));
    }
    let mut h: u64 = FNV_OFFSET;
    let mut i: usize = 0;
    while i < 9
        invariant
            i <= 9,
            words@.len() == 9,
            h == fnv_fold(FNV_OFFSET, words@.take(i as int)),
        decreases 9 - i,
    {
        proof {
            lemma_fnv_fold_push(FNV_OFFSET, words@.take(i as int), words@[i as int]);
            assert(words@.take(i + 1) == words@.take(i as int).push(words@[i as int]));
        }
        h = fnv_mix(h, words[i]);
        i = i + 1;
    }
    proof {
        assert(words@.take(9) == words@);
    }
    h
}

} // verus!
