//! Generating relations and island rule tables. Axioms are generating relations
//! for closure; transformations are declared rule shapes.

use vstd::prelude::*;
use std::collections::HashSet;
use crate::types::EdgeKind;
use crate::keys::{kind_code, exec_kind_code};
use crate::transform::TransformationSchema;

verus! {

broadcast use vstd::std_specs::hash::group_hash_axioms;

/// Declared relation kinds that may appear as generators (axioms) in a world.
/// Kinds are stored by their code (`kind_code`), which is injective.
#[derive(Debug, PartialEq, Eq)]
pub struct RelationSignature {
    kinds: HashSet<u64>,
}

impl RelationSignature {
    /// Codes of the declared kinds.
    pub closed spec fn declared(&self) -> Set<u64> {
        self.kinds@
    }

    /// Only finitely many kinds are ever declared.
    #[verifier::type_invariant]
    spec fn finitely_many(&self) -> bool {
        self.kinds@.finite()
    }

    /// `kind` has been declared.
    pub open spec fn spec_allows(&self, kind: EdgeKind) -> bool {
        self.declared().contains(kind_code(kind))
    }

    pub fn new() -> (r: Self)
        ensures
            r.declared() == Set::<u64>::empty(),
            r.declared().finite(),
    {
        RelationSignature { kinds: HashSet::new() }
    }

    /// Declare that `kind` may be used as a generating / axiom relation.
    /// Declaring a kind twice changes nothing.
    pub fn declare_kind(&mut self, kind: EdgeKind)
        ensures
            final(self).declared() == old(self).declared().insert(kind_code(kind)),
            final(self).declared().finite(),
            final(self).declared().len() == old(self).declared().len() + if old(self).spec_allows(kind) {
                0int
            } else {
                1int
            },
    {
        proof {
            use_type_invariant(&*self);
        }
        // Take the set out, so that the signature stays whole while it grows.
        let mut kinds = HashSet::new();
        std::mem::swap(&mut kinds, &mut self.kinds);
        kinds.insert(exec_kind_code(kind));
        self.kinds = kinds;
    }

    pub fn allows(&self, kind: EdgeKind) -> (r: bool)
        ensures
            r == self.spec_allows(kind),
            self.declared().finite(),
    {
        proof {
            use_type_invariant(self);
        }
        self.kinds.contains(&exec_kind_code(kind))
    }

    /// Number of distinct declared kinds.
    pub fn kind_count(&self) -> (r: usize)
        ensures
            r == self.declared().len(),
            self.declared().finite(),
    {
        proof {
            use_type_invariant(self);
        }
        self.kinds.len()
    }
}

impl Default for RelationSignature {
    fn default() -> (r: Self)
        ensures
            r.declared() == Set::<u64>::empty(),
            r.declared().finite(),
    {
        Self::new()
    }
}

/// Island-local rule table: signature + declared transformations.
#[derive(Debug)]
pub struct RuleTable {
    pub signature: RelationSignature,
    pub transforms: Vec<TransformationSchema>,
}

impl Default for RuleTable {
    fn default() -> (r: Self)
        ensures
            r.signature.declared() == Set::<u64>::empty(),
            r.transforms@.len() == 0,
    {
        RuleTable { signature: RelationSignature::new(), transforms: Vec::new() }
    }
}

impl RuleTable {
    pub fn declare_kind(&mut self, kind: EdgeKind)
        ensures
            final(self).signature.declared() == old(self).signature.declared().insert(kind_code(kind)),
            final(self).transforms == old(self).transforms,
    {
        self.signature.declare_kind(kind);
    }

    pub fn add_transform(&mut self, schema: TransformationSchema)
        ensures
            final(self).transforms@ == old(self).transforms@.push(schema),
            final(self).signature == old(self).signature,
    {
        self.transforms.push(schema);
    }

    /// Some declared transformation carries `name`.
    pub fn has_transform(&self, name: &str) -> (r: bool)
        ensures
            r == exists|i: int| 0 <= i < self.transforms@.len() && (#[trigger] self.transforms@[i]).name@ == name@,
    {
        let target = name.to_owned();
        let mut i: usize = 0;
        while i < self.transforms.len()
            invariant
                i <= self.transforms@.len(),
                target@ == name@,
                forall|k: int| 0 <= k < i ==> (#[trigger] self.transforms@[k]).name@ != name@,
            decreases self.transforms.len() - i,
        {
            if self.transforms[i].name == target {
                return true;
            }
            i = i + 1;
        }
        false
    }
}

/// Declaring a kind makes it allowed, and leaves every other kind as it was.
pub proof fn law_declare_then_allows(before: RelationSignature, after: RelationSignature, k: EdgeKind, other: EdgeKind)
    requires
        after.declared() == before.declared().insert(kind_code(k)),
    ensures
        after.spec_allows(k),
        other != k ==> after.spec_allows(other) == before.spec_allows(other),
{
}

} // verus!
