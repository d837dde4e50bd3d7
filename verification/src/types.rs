//! Stable handles and diagnostics for the relation graph.

use vstd::prelude::*;

verus! {

/// Island namespace id (stable within a loaded graph store). Never zero.
#[derive(Clone, Copy, PartialEq, Eq, Structural, Hash, PartialOrd, Ord, Debug)]
pub struct IslandId(u32);

impl IslandId {
    /// The integer behind the handle.
    pub closed spec fn raw(self) -> u32 {
        self.0
    }

    /// Builds a handle from its non-zero integer.
    pub fn from_raw(raw: u32) -> (r: Self)
        requires
            raw != 0,
        ensures
            r.raw() == raw,
    {
        IslandId(raw)
    }

    pub fn get(self) -> (r: u32)
        ensures
            r == self.raw(),
    {
        self.0
    }

    /// Two handles are equal exactly when their integers are.
    pub proof fn lemma_raw_injective(a: Self, b: Self)
        ensures
            (a.raw() == b.raw()) == (a == b),
    {
    }
}

/// Node handle. Identity is defined by outgoing edges (extensional).
#[derive(Clone, Copy, PartialEq, Eq, Structural, Hash, PartialOrd, Ord, Debug)]
pub struct NodeId(pub u32);

impl NodeId {
    /// Builds a handle from its non-zero integer.
    pub fn from_raw(raw: u32) -> (r: Self)
        requires
            raw != 0,
        ensures
            r.0 == raw,
    {
        NodeId(raw)
    }

    pub fn get(self) -> (r: u32)
        ensures
            r == self.0,
    {
        self.0
    }
}

/// Edge (morphism) handle.
#[derive(Clone, Copy, PartialEq, Eq, Structural, Hash, PartialOrd, Ord, Debug)]
pub struct EdgeId(pub u32);

impl EdgeId {
    /// Builds a handle from its non-zero integer.
    pub fn from_raw(raw: u32) -> (r: Self)
        requires
            raw != 0,
        ensures
            r.0 == raw,
    {
        EdgeId(raw)
    }

    pub fn get(self) -> (r: u32)
        ensures
            r == self.0,
    {
        self.0
    }
}

/// Built-in relation kinds for the foundation layer.
#[derive(Clone, Copy, Debug, PartialEq, Eq, Structural, Hash)]
pub enum EdgeKind {
    /// Structural equality / identified shortcut.
    Equal,
    /// Membership / incidence placeholder (island-specific meaning).
    In,
    /// Evaluation / numeric shadow attachment point.
    Eval,
    /// User-declared custom kind index (island vocabulary).
    Custom(u16),
}

/// Errors of the relation graph and the layers above it.
#[derive(Clone, Copy, Debug, PartialEq, Eq, Structural)]
pub enum MetisError {
    IslandNotFound,
    NodeNotFound,
    EdgeNotFound,
    PathNotFound,
    ProofInvalid,
    Capacity,
    InvalidHandle,
    ConnectionInvalid,
}

impl MetisError {
    /// Human-readable description of the error.
    pub fn message(&self) -> (r: &'static str)
        ensures
            r@ == self.spec_message(),
    {
        match self {
            MetisError::IslandNotFound => "island not found",
            MetisError::NodeNotFound => "node not found",
            MetisError::EdgeNotFound => "edge not found",
            MetisError::PathNotFound => "path not found",
            MetisError::ProofInvalid => "proof invalid",
            MetisError::Capacity => "capacity exhausted",
            MetisError::InvalidHandle => "invalid handle",
            MetisError::ConnectionInvalid => "connection invalid",
        }
    }

    pub open spec fn spec_message(&self) -> Seq<char> {
        match self {
            MetisError::IslandNotFound => "island not found"@,
            MetisError::NodeNotFound => "node not found"@,
            MetisError::EdgeNotFound => "edge not found"@,
            MetisError::PathNotFound => "path not found"@,
            MetisError::ProofInvalid => "proof invalid"@,
            MetisError::Capacity => "capacity exhausted"@,
            MetisError::InvalidHandle => "invalid handle"@,
            MetisError::ConnectionInvalid => "connection invalid"@,
        }
    }
}

} // verus!
