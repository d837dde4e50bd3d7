//! Path and query compile units: a reachability query between two node handles
//! is compiled into a deterministic unit identity.

use vstd::prelude::*;
use crate::types::{MetisError, NodeId};
use crate::fnv::{fnv_fold, fnv_mix, FNV_OFFSET};

verus! {

/// Opaque compile-unit identity for a path/query plan.
#[derive(Clone, Copy, Debug, PartialEq, Eq, Structural, Hash)]
pub struct CompileUnitId(u64);

impl CompileUnitId {
    pub closed spec fn spec_get(self) -> u64 {
        self.0
    }

    pub fn get(self) -> (r: u64)
        ensures
            r == self.spec_get(),
    {
        self.0
    }

    /// Two units are equal exactly when their identities are.
    pub proof fn lemma_spec_get_injective(a: Self, b: Self)
        ensures
            (a.spec_get() == b.spec_get()) == (a == b),
    {
    }
}

/// Eager-or-native artifact handle (foundation: eager only).
#[derive(Clone, Copy, Debug, PartialEq, Eq, Structural)]
pub struct Artifact {
    pub unit: CompileUnitId,
    pub kind: ArtifactKind,
}

#[derive(Clone, Copy, Debug, PartialEq, Eq, Structural)]
pub enum ArtifactKind {
    /// Interpreter / BFS fallback.
    Eager,
    /// Reserved for native code objects.
    Native,
}

/// The unit identity of a reachability query.
pub open spec fn reach_unit(from: NodeId, to: NodeId) -> u64 {
    fnv_fold(FNV_OFFSET, seq![from.0 as u64, to.0 as u64])
}

/// Compiling is deterministic: two artifacts compiled for one query are equal.
pub proof fn law_compile_reach_deterministic(a: Artifact, b: Artifact, from: NodeId, to: NodeId)
    requires
        a.unit.spec_get() == reach_unit(from, to) && a.kind == ArtifactKind::Eager,
        b.unit.spec_get() == reach_unit(from, to) && b.kind == ArtifactKind::Eager,
    ensures
        a == b,
{
    CompileUnitId::lemma_spec_get_injective(a.unit, b.unit);
}

/// Compile a reachability query between two node handles into a unit.
pub fn compile_reach(from: NodeId, to: NodeId) -> (r: Result<Artifact, MetisError>)
    ensures
        r matches Ok(a) && a.unit.spec_get() == reach_unit(from, to) && a.kind == ArtifactKind::Eager,
{
    let mut h: u64 = FNV_OFFSET;
    h = fnv_mix(h, from.get() as u64);
    h = fnv_mix(h, to.get() as u64);
    proof {
        reveal_with_fuel(fnv_fold, 3);
        let s = seq![from.0 as u64, to.0 as u64];
        assert(s.drop_last() == seq![from.0 as u64]);
        assert(s.drop_last().drop_last() == Seq::<u64>::empty());
    }
    Ok(Artifact { unit: CompileUnitId(h), kind: ArtifactKind::Eager })
}

} // verus!
