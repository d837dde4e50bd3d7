//! Payload types: what a node or an edge carries on the underlying discrete graph.

use vstd::prelude::*;
use crate::types::EdgeKind;

verus! {

/// Node payload on the ordinary discrete graph.
#[derive(Clone, Debug, PartialEq, Eq)]
pub struct NodePayload {
    /// Present for `intern_label` atoms. Structural cons nodes use `None`.
    pub label: Option<Vec<u8>>,
}

impl NodePayload {
    pub fn unlabeled() -> (r: Self)
        ensures
            r.label is None,
    {
        NodePayload { label: None }
    }

    pub fn labeled(name: &[u8]) -> (r: Self)
        ensures
            r.label matches Some(l) && l@ == name@,
    {
        let mut v: Vec<u8> = Vec::new();
        let mut i: usize = 0;
        while i < name.len()
            invariant
                i <= name.len(),
                v@ == name@.take(i as int),
            decreases name.len() - i,
        {
            v.push(name[i]);
            i = i + 1;
            proof {
                assert(name@.take(i as int) == name@.take(i - 1).push(name@[i - 1]));
            }
        }
        proof {
            assert(name@.take(name.len() as int) == name@);
        }
        NodePayload { label: Some(v) }
    }
}

impl Default for NodePayload {
    fn default() -> (r: Self)
        ensures
            r.label is None,
    {
        NodePayload { label: None }
    }
}

/// Edge payload on the ordinary discrete graph.
#[derive(Clone, Copy, Debug, PartialEq, Eq, Structural)]
pub struct EdgePayload {
    pub kind: EdgeKind,
    /// `true` = structural (hash-cons identity). `false` = judgment.
    pub structural: bool,
}

impl EdgePayload {
    pub fn structural(kind: EdgeKind) -> (r: Self)
        ensures
            r == (EdgePayload { kind, structural: true }),
    {
        EdgePayload { kind, structural: true }
    }

    pub fn judgment(kind: EdgeKind) -> (r: Self)
        ensures
            r == (EdgePayload { kind, structural: false }),
    {
        EdgePayload { kind, structural: false }
    }
}

} // verus!
