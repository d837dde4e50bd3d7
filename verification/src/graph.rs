//! Relation graph with structural hash-consing and judgment edges.
//!
//! - **Structural** outs define extensional identity (`intern`).
//! - **Judgment** edges assert facts without rewriting node identity (`assert`).
//! - **Labels** are content-addressed atoms for named proposition subjects.
//!
//! Node `n` lives in slot `n.0 - 1`, edge `e` in slot `e.0 - 1`; handle `0` is
//! never issued.

use vstd::prelude::*;
use vstd::relations::sorted_by;
use crate::types::{EdgeId, EdgeKind, MetisError, NodeId};
use crate::keys::{key_le, out_key, outs_keys, exec_out_key, sort_keys, keys_eq,
    lemma_sorted_keys_unique};

verus! {

broadcast use vstd::seq_lib::group_to_multiset_ensures;

/// Directed step along a judgment edge, possibly reversed (for symmetric kinds).
#[derive(Clone, Copy, Debug, PartialEq, Eq, Structural)]
pub struct Step {
    pub edge: EdgeId,
    pub forward: bool,
}

/// One outgoing edge as stored on its source node.
pub type Out = (EdgeId, EdgeKind, NodeId);

/// Stored edge record.
#[derive(Clone, Copy, Debug, PartialEq, Eq, Structural)]
pub struct EdgeRec {
    pub from: NodeId,
    pub to: NodeId,
    pub kind: EdgeKind,
    /// True when the edge is a judgment (asserted fact).
    pub judgment: bool,
}

/// Stored node record.
struct NodeRec {
    /// Structural outs (hash-cons identity). Empty for pure labels.
    structural: Vec<Out>,
    /// Judgment outs (facts). Do not affect hash-cons identity.
    judgments: Vec<Out>,
    /// Optional label payload for named atoms.
    label: Option<Vec<u8>>,
}

/// Mathematical view of a node.
pub struct NodeView {
    pub structural: Seq<Out>,
    pub judgments: Seq<Out>,
    pub label: Option<Seq<u8>>,
}

impl NodeRec {
    spec fn view(&self) -> NodeView {
        NodeView {
            structural: self.structural@,
            judgments: self.judgments@,
            label: match self.label {
                Some(l) => Some(l@),
                None => None,
            },
        }
    }
}

/// Fingerprint keys of a node's structural outs, in stored order.
pub open spec fn struct_keys(s: Seq<Out>) -> Seq<u64> {
    s.map_values(|o: Out| out_key(o.1, o.2))
}

/// The error the graph reports for a node handle that names no node.
pub open spec fn node_handle_error(id: NodeId) -> MetisError {
    if id.0 == 0 { MetisError::InvalidHandle } else { MetisError::NodeNotFound }
}

/// The error the graph reports for an edge handle that names no edge.
pub open spec fn edge_handle_error(id: EdgeId) -> MetisError {
    if id.0 == 0 { MetisError::InvalidHandle } else { MetisError::EdgeNotFound }
}

/// Mutable working graph (staging or accepted island body).
pub struct Graph {
    nodes: Vec<NodeRec>,
    edges: Vec<EdgeRec>,
    /// Hash-cons table: sorted structural fingerprint → node.
    cons: Vec<(Vec<u64>, NodeId)>,
    /// Label table: label bytes → node.
    labels: Vec<(Vec<u8>, NodeId)>,
}

impl Graph {
    /// Number of node slots.
    pub closed spec fn node_len(&self) -> nat {
        self.nodes@.len()
    }

    /// Number of edge slots.
    pub closed spec fn edge_len(&self) -> nat {
        self.edges@.len()
    }

    /// The node in slot `i`.
    pub closed spec fn node_at(&self, i: int) -> NodeView {
        self.nodes@[i].view()
    }

    /// The edge in slot `i`.
    pub closed spec fn edge_at(&self, i: int) -> EdgeRec {
        self.edges@[i]
    }

    pub open spec fn has_node(&self, n: NodeId) -> bool {
        1 <= n.0 <= self.node_len()
    }

    pub open spec fn node_of(&self, n: NodeId) -> NodeView {
        self.node_at(n.0 - 1)
    }

    pub open spec fn has_edge(&self, e: EdgeId) -> bool {
        1 <= e.0 <= self.edge_len()
    }

    pub open spec fn edge_of(&self, e: EdgeId) -> EdgeRec {
        self.edge_at(e.0 - 1)
    }

    /// All outgoing edges of a node: structural then judgment.
    pub open spec fn outs_of(&self, n: NodeId) -> Seq<Out> {
        self.node_of(n).structural + self.node_of(n).judgments
    }

    /// Every entry of `outs` is a stored edge from `n` with that kind and target.
    pub open spec fn outs_valid(&self, n: NodeId, outs: Seq<Out>, judgment: bool) -> bool {
        forall|j: int| 0 <= j < outs.len() ==> {
            let o = #[trigger] outs[j];
            &&& self.has_edge(o.0)
            &&& self.edge_of(o.0) == EdgeRec { from: n, to: o.2, kind: o.1, judgment }
        }
    }

    /// The slot-wise form of the structural invariant.
    spec fn out_ok(&self, i: int, o: Out, judgment: bool) -> bool {
        &&& 1 <= o.0.0 <= self.edges@.len()
        &&& self.edges@[o.0.0 - 1] == EdgeRec {
            from: NodeId((i + 1) as u32),
            to: o.2,
            kind: o.1,
            judgment,
        }
    }

    #[verifier::type_invariant]
    spec fn wf(&self) -> bool {
        &&& self.nodes@.len() <= u32::MAX
        &&& self.edges@.len() <= u32::MAX
        &&& forall|i: int, j: int|
            0 <= i < self.nodes@.len() && 0 <= j < self.nodes@[i].structural@.len()
                ==> self.out_ok(i, #[trigger] self.nodes@[i].structural@[j], false)
        &&& forall|i: int, j: int|
            0 <= i < self.nodes@.len() && 0 <= j < self.nodes@[i].judgments@.len()
                ==> self.out_ok(i, #[trigger] self.nodes@[i].judgments@[j], true)
        &&& forall|j: int| 0 <= j < self.edges@.len() ==> {
            let r = #[trigger] self.edges@[j];
            &&& 1 <= r.from.0 <= self.nodes@.len()
            &&& 1 <= r.to.0 <= self.nodes@.len()
            &&& r.judgment ==> self.nodes@[r.from.0 - 1].judgments@.contains(
                (EdgeId((j + 1) as u32), r.kind, r.to))
            &&& !r.judgment ==> self.nodes@[r.from.0 - 1].structural@.contains(
                (EdgeId((j + 1) as u32), r.kind, r.to))
        }
        &&& forall|i: int| 0 <= i < self.nodes@.len() && (#[trigger] self.nodes@[i]).label is Some
            ==> self.nodes@[i].structural@.len() == 0
        // label table
        &&& forall|k: int| 0 <= k < self.labels@.len() ==> {
            let (l, n) = #[trigger] self.labels@[k];
            &&& 1 <= n.0 <= self.nodes@.len()
            &&& self.nodes@[n.0 - 1].view().label == Some(l@)
        }
        &&& forall|i: int| 0 <= i < self.nodes@.len() && (#[trigger] self.nodes@[i]).label is Some
            ==> exists|k: int| 0 <= k < self.labels@.len() && (#[trigger] self.labels@[k]).1.0 == i + 1
        &&& forall|a: int, b: int| 0 <= a < b < self.labels@.len()
            ==> (#[trigger] self.labels@[a]).0@ != (#[trigger] self.labels@[b]).0@
        // hash-cons table
        &&& forall|k: int| 0 <= k < self.cons@.len() ==> {
            let (key, n) = #[trigger] self.cons@[k];
            &&& 1 <= n.0 <= self.nodes@.len()
            &&& self.nodes@[n.0 - 1].label is None
            &&& sorted_by(key@, key_le())
            &&& key@.to_multiset() == struct_keys(self.nodes@[n.0 - 1].structural@).to_multiset()
        }
        &&& forall|i: int| 0 <= i < self.nodes@.len() && (#[trigger] self.nodes@[i]).label is None
            ==> exists|k: int| 0 <= k < self.cons@.len() && (#[trigger] self.cons@[k]).1.0 == i + 1
        &&& forall|a: int, b: int| 0 <= a < b < self.cons@.len()
            ==> (#[trigger] self.cons@[a]).0@ != (#[trigger] self.cons@[b]).0@
    }

    /// The graph invariant, stated over the public views.
    proof fn lemma_well_formed(&self)
        requires
            self.wf(),
        ensures
            self.node_len() <= u32::MAX,
            self.edge_len() <= u32::MAX,
            forall|n: NodeId, j: int| self.has_node(n) && 0 <= j < self.node_of(n).structural.len()
                ==> {
                    let o = #[trigger] self.node_of(n).structural[j];
                    &&& self.has_edge(o.0)
                    &&& self.edge_of(o.0) == EdgeRec { from: n, to: o.2, kind: o.1, judgment: false }
                },
            forall|n: NodeId, j: int| self.has_node(n) && 0 <= j < self.node_of(n).judgments.len()
                ==> {
                    let o = #[trigger] self.node_of(n).judgments[j];
                    &&& self.has_edge(o.0)
                    &&& self.edge_of(o.0) == EdgeRec { from: n, to: o.2, kind: o.1, judgment: true }
                },
            forall|e: EdgeId| #[trigger] self.has_edge(e) ==> {
                let r = self.edge_of(e);
                &&& self.has_node(r.from)
                &&& self.has_node(r.to)
                &&& r.judgment ==> self.node_of(r.from).judgments.contains((e, r.kind, r.to))
                &&& !r.judgment ==> self.node_of(r.from).structural.contains((e, r.kind, r.to))
            },
            forall|n: NodeId| self.has_node(n) && (#[trigger] self.node_of(n)).label is Some
                ==> self.node_of(n).structural.len() == 0,
    {
        assert forall|n: NodeId, j: int| self.has_node(n) && 0 <= j < self.node_of(n).structural.len()
            implies {
                let o = #[trigger] self.node_of(n).structural[j];
                &&& self.has_edge(o.0)
                &&& self.edge_of(o.0) == EdgeRec { from: n, to: o.2, kind: o.1, judgment: false }
            } by {
            assert(self.out_ok(n.0 - 1, self.nodes@[n.0 - 1].structural@[j], false));
        }
        assert forall|n: NodeId, j: int| self.has_node(n) && 0 <= j < self.node_of(n).judgments.len()
            implies {
                let o = #[trigger] self.node_of(n).judgments[j];
                &&& self.has_edge(o.0)
                &&& self.edge_of(o.0) == EdgeRec { from: n, to: o.2, kind: o.1, judgment: true }
            } by {
            assert(self.out_ok(n.0 - 1, self.nodes@[n.0 - 1].judgments@[j], true));
        }
        assert forall|e: EdgeId| #[trigger] self.has_edge(e) implies {
                let r = self.edge_of(e);
                &&& self.has_node(r.from)
                &&& self.has_node(r.to)
                &&& r.judgment ==> self.node_of(r.from).judgments.contains((e, r.kind, r.to))
                &&& !r.judgment ==> self.node_of(r.from).structural.contains((e, r.kind, r.to))
            } by {
            let r = self.edges@[e.0 - 1];
            assert(EdgeId(((e.0 - 1) + 1) as u32) == e);
        }
        assert forall|n: NodeId| self.has_node(n) && (#[trigger] self.node_of(n)).label is Some
            implies self.node_of(n).structural.len() == 0 by {
            assert(self.nodes@[n.0 - 1].label is Some);
        }
    }

    /// An empty graph.
    pub fn new() -> (g: Self)
        ensures
            g.node_len() == 0,
            g.edge_len() == 0,
    {
        Graph { nodes: Vec::new(), edges: Vec::new(), cons: Vec::new(), labels: Vec::new() }
    }

    fn node_index(id: NodeId) -> (r: Result<usize, MetisError>)
        ensures
            id.0 == 0 ==> r == Err::<usize, MetisError>(MetisError::InvalidHandle),
            id.0 != 0 ==> r == Ok::<usize, MetisError>((id.0 - 1) as usize),
    {
        match id.get().checked_sub(1) {
            Some(v) => Ok(v as usize),
            None => Err(MetisError::InvalidHandle),
        }
    }

    fn edge_index(id: EdgeId) -> (r: Result<usize, MetisError>)
        ensures
            id.0 == 0 ==> r == Err::<usize, MetisError>(MetisError::InvalidHandle),
            id.0 != 0 ==> r == Ok::<usize, MetisError>((id.0 - 1) as usize),
    {
        match id.get().checked_sub(1) {
            Some(v) => Ok(v as usize),
            None => Err(MetisError::InvalidHandle),
        }
    }

    /// Checks a node handle; the error is the one every graph lookup reports.
    fn node_slot(&self, id: NodeId) -> (r: Result<usize, MetisError>)
        ensures
            self.has_node(id) ==> r == Ok::<usize, MetisError>((id.0 - 1) as usize),
            !self.has_node(id) ==> r == Err::<usize, MetisError>(node_handle_error(id)),
    {
        let slot = Self::node_index(id)?;
        if slot < self.nodes.len() {
            Ok(slot)
        } else {
            Err(MetisError::NodeNotFound)
        }
    }

    fn edge_slot(&self, id: EdgeId) -> (r: Result<usize, MetisError>)
        ensures
            self.has_edge(id) ==> r == Ok::<usize, MetisError>((id.0 - 1) as usize),
            !self.has_edge(id) ==> r == Err::<usize, MetisError>(edge_handle_error(id)),
    {
        let slot = Self::edge_index(id)?;
        if slot < self.edges.len() {
            Ok(slot)
        } else {
            Err(MetisError::EdgeNotFound)
        }
    }

    /// Checks that a node handle names a node.
    fn ensure_known(&self, id: NodeId) -> (r: Result<(), MetisError>)
        ensures
            self.has_node(id) ==> r is Ok,
            !self.has_node(id) ==> r == Err::<(), MetisError>(node_handle_error(id)),
    {
        let _ = self.node_slot(id)?;
        Ok(())
    }

    /// Label bytes if this node was created with [`Self::intern_label`].
    pub fn label_of(&self, id: NodeId) -> (r: Result<Option<&[u8]>, MetisError>)
        ensures
            self.has_node(id) ==> (r matches Ok(o) && match o {
                Some(s) => self.node_of(id).label == Some(s@),
                None => self.node_of(id).label is None,
            }),
            !self.has_node(id) ==> r == Err::<Option<&[u8]>, MetisError>(node_handle_error(id)),
    {
        let slot = self.node_slot(id)?;
        match &self.nodes[slot].label {
            Some(l) => Ok(Some(l.as_slice())),
            None => Ok(None),
        }
    }

    /// The node carrying label `name`, if there is one.
    pub open spec fn label_node(&self, name: Seq<u8>) -> Option<NodeId> {
        if exists|n: NodeId| self.has_node(n) && self.node_of(n).label == Some(name) {
            Some(choose|n: NodeId| self.has_node(n) && self.node_of(n).label == Some(name))
        } else {
            None
        }
    }

    /// Every node of `self` is still a node of `new`, with the same structural
    /// outs and the same label.
    pub open spec fn keeps_nodes(&self, new: &Graph) -> bool {
        forall|m: NodeId| #[trigger] self.has_node(m) ==> {
            &&& new.has_node(m)
            &&& new.node_of(m).structural == self.node_of(m).structural
            &&& new.node_of(m).label == self.node_of(m).label
        }
    }

    /// `new` is `self` with one more node appended and nothing else changed.
    pub open spec fn appends_node(&self, new: &Graph, v: NodeView) -> bool {
        &&& new.node_len() == self.node_len() + 1
        &&& new.edge_len() == self.edge_len()
        &&& forall|i: int| 0 <= i < self.node_len() ==> new.node_at(i) == #[trigger] self.node_at(i)
        &&& new.node_at(self.node_len() as int) == v
        &&& forall|i: int| 0 <= i < self.edge_len() ==> new.edge_at(i) == #[trigger] self.edge_at(i)
    }

    /// Distinct nodes carry distinct labels.
    proof fn lemma_labels_distinct_inner(&self, a: NodeId, b: NodeId)
        requires
            self.wf(),
            self.has_node(a),
            self.has_node(b),
            self.node_of(a).label is Some,
            self.node_of(a).label == self.node_of(b).label,
        ensures
            a == b,
    {
        let ia = a.0 - 1;
        let ib = b.0 - 1;
        assert(self.nodes@[ia].label is Some);
        assert(self.nodes@[ib].label is Some);
        let ka = choose|k2: int| 0 <= k2 < self.labels@.len() && (#[trigger] self.labels@[k2]).1.0 == ia + 1;
        let kb = choose|k2: int| 0 <= k2 < self.labels@.len() && (#[trigger] self.labels@[k2]).1.0 == ib + 1;
        let (la, na) = self.labels@[ka];
        let (lb, nb) = self.labels@[kb];
        assert(self.nodes@[ia].view().label == Some(la@));
        assert(self.nodes@[ib].view().label == Some(lb@));
        assert(la@ == lb@);
        if ka < kb {
            assert(self.labels@[ka].0@ != self.labels@[kb].0@);
        } else if kb < ka {
            assert(self.labels@[kb].0@ != self.labels@[ka].0@);
        }
    }

    /// Intern a named atom. Same bytes → same [`NodeId`].
    pub fn intern_label(&mut self, name: &[u8]) -> (r: Result<NodeId, MetisError>)
        ensures
            old(self).label_node(name@) matches Some(n) ==> r == Ok::<NodeId, MetisError>(n)
                && *final(self) == *old(self),
            old(self).label_node(name@) is None && old(self).node_len() >= u32::MAX
                ==> r == Err::<NodeId, MetisError>(MetisError::Capacity) && *final(self) == *old(self),
            old(self).label_node(name@) is None && old(self).node_len() < u32::MAX
                ==> r == Ok::<NodeId, MetisError>(NodeId((old(self).node_len() + 1) as u32))
                && old(self).appends_node(&*final(self),
                    NodeView { structural: Seq::empty(), judgments: Seq::empty(), label: Some(name@) }),
            // the label reads back, and interning it again finds the same node
            r matches Ok(n) ==> final(self).has_node(n) && final(self).node_of(n).label == Some(name@)
                && final(self).label_node(name@) == Some(n),
            old(self).keeps_nodes(&*final(self)),
            // a label node has no structural outs, and no other node carries its label
            r matches Ok(n) ==> final(self).node_of(n).structural.len() == 0 && forall|m: NodeId|
                final(self).has_node(m) && #[trigger] final(self).node_of(m).label == Some(name@) ==> m == n,
    {
        proof {
            use_type_invariant(&*self);
            self.lemma_well_formed();
        }
        let mut k: usize = 0;
        while k < self.labels.len()
            invariant
                self.wf(),
                k <= self.labels@.len(),
                forall|k2: int| 0 <= k2 < k ==> (#[trigger] self.labels@[k2]).0@ != name@,
            decreases self.labels.len() - k,
        {
            if bytes_eq(&self.labels[k].0, name) {
                let id = self.labels[k].1;
                proof {
                    assert(self.labels@[k as int].0@ == name@);
                    assert(self.has_node(id) && self.node_of(id).label == Some(name@));
                    let n = choose|n: NodeId| self.has_node(n) && self.node_of(n).label == Some(name@);
                    self.lemma_labels_distinct_inner(n, id);
                    assert forall|m: NodeId| self.has_node(m) && #[trigger] self.node_of(m).label == Some(name@)
                        implies m == id by {
                        self.lemma_labels_distinct_inner(m, id);
                    }
                }
                return Ok(id);
            }
            k = k + 1;
        }
        proof {
            if exists|n: NodeId| self.has_node(n) && self.node_of(n).label == Some(name@) {
                let n = choose|n: NodeId| self.has_node(n) && self.node_of(n).label == Some(name@);
                assert(self.nodes@[n.0 - 1].label is Some);
                let k2 = choose|k2: int| 0 <= k2 < self.labels@.len() && (#[trigger] self.labels@[k2]).1.0 == (n.0 - 1) + 1;
                assert(self.labels@[k2].0@ != name@);
                assert(false);
            }
        }
        if self.nodes.len() >= 0xffff_ffff {
            return Err(MetisError::Capacity);
        }
        let id = NodeId((self.nodes.len() + 1) as u32);
        let key = copy_bytes(name);
        let mut g = Graph::new();
        std::mem::swap(self, &mut g);
        proof {
            use_type_invariant(&g);
        }
        let Graph { mut nodes, edges, cons, mut labels } = g;
        let ghost old_nodes = nodes@;
        let ghost old_labels = labels@;
        nodes.push(NodeRec { structural: Vec::new(), judgments: Vec::new(), label: Some(copy_bytes(name)) });
        labels.push((key, id));
        proof {
            assert forall|i: int| 0 <= i < old_nodes.len() implies nodes@[i] == old_nodes[i] by {}
            assert forall|k2: int| 0 <= k2 < labels@.len() implies {
                let (l, n) = #[trigger] labels@[k2];
                &&& 1 <= n.0 <= nodes@.len()
                &&& nodes@[n.0 - 1].view().label == Some(l@)
            } by {
                if k2 < old_labels.len() {
                    assert(labels@[k2] == old_labels[k2]);
                }
            }
            assert forall|i: int| 0 <= i < nodes@.len() && (#[trigger] nodes@[i]).label is Some
                implies exists|k2: int| 0 <= k2 < labels@.len() && (#[trigger] labels@[k2]).1.0 == i + 1 by {
                if i < old_nodes.len() {
                    let k2 = choose|k2: int| 0 <= k2 < old_labels.len() && (#[trigger] old_labels[k2]).1.0 == i + 1;
                    assert(labels@[k2] == old_labels[k2]);
                } else {
                    assert(labels@[old_labels.len() as int].1.0 == i + 1);
                }
            }
            assert forall|a: int, b: int| 0 <= a < b < labels@.len()
                implies (#[trigger] labels@[a]).0@ != (#[trigger] labels@[b]).0@ by {
                if b == old_labels.len() {
                    assert(labels@[a] == old_labels[a]);
                } else {
                    assert(labels@[a] == old_labels[a]);
                    assert(labels@[b] == old_labels[b]);
                }
            }
            assert forall|k2: int| 0 <= k2 < cons@.len() implies {
                let (key, n) = #[trigger] cons@[k2];
                &&& 1 <= n.0 <= nodes@.len()
                &&& nodes@[n.0 - 1].label is None
                &&& sorted_by(key@, key_le())
                &&& key@.to_multiset() == struct_keys(nodes@[n.0 - 1].structural@).to_multiset()
            } by {
                let (key, n) = cons@[k2];
                assert(nodes@[n.0 - 1] == old_nodes[n.0 - 1]);
            }
            assert forall|i: int| 0 <= i < nodes@.len() && (#[trigger] nodes@[i]).label is None
                implies exists|k2: int| 0 <= k2 < cons@.len() && (#[trigger] cons@[k2]).1.0 == i + 1 by {
                assert(i < old_nodes.len());
                assert(old_nodes[i].label is None);
            }
            assert(forall|a: int, b: int| 0 <= a < b < cons@.len()
                ==> (#[trigger] cons@[a]).0@ != (#[trigger] cons@[b]).0@);
            assert forall|j: int| 0 <= j < edges@.len() implies {
                let r = #[trigger] edges@[j];
                &&& 1 <= r.from.0 <= nodes@.len()
                &&& 1 <= r.to.0 <= nodes@.len()
                &&& r.judgment ==> nodes@[r.from.0 - 1].judgments@.contains(
                    (EdgeId((j + 1) as u32), r.kind, r.to))
                &&& !r.judgment ==> nodes@[r.from.0 - 1].structural@.contains(
                    (EdgeId((j + 1) as u32), r.kind, r.to))
            } by {
                let r = edges@[j];
                assert(nodes@[r.from.0 - 1] == old_nodes[r.from.0 - 1]);
            }
        }
        *self = Graph { nodes, edges, cons, labels };
        proof {
            assert forall|i: int| 0 <= i < old(self).node_len() implies self.node_at(i) == #[trigger] old(self).node_at(i) by {
                assert(self.nodes@[i] == old_nodes[i]);
            }
            use_type_invariant(&*self);
            assert(self.has_node(id) && self.node_of(id).label == Some(name@));
            let m = choose|m: NodeId| self.has_node(m) && self.node_of(m).label == Some(name@);
            self.lemma_labels_distinct_inner(m, id);
            assert forall|m: NodeId| self.has_node(m) && #[trigger] self.node_of(m).label == Some(name@)
                implies m == id by {
                self.lemma_labels_distinct_inner(m, id);
            }
        }
        Ok(id)
    }

    /// `new` is `self` with one judgment edge `kind(from, to)` added.
    pub open spec fn appends_judgment(&self, new: &Graph, from: NodeId, kind: EdgeKind, to: NodeId) -> bool {
        let e = EdgeId((self.edge_len() + 1) as u32);
        &&& new.node_len() == self.node_len()
        &&& new.edge_len() == self.edge_len() + 1
        &&& forall|i: int| 0 <= i < self.edge_len() ==> new.edge_at(i) == #[trigger] self.edge_at(i)
        &&& new.edge_at(self.edge_len() as int) == EdgeRec { from, to, kind, judgment: true }
        &&& forall|i: int| 0 <= i < self.node_len() && i != from.0 - 1
            ==> new.node_at(i) == #[trigger] self.node_at(i)
        &&& new.node_of(from) == NodeView {
            judgments: self.node_of(from).judgments.push((e, kind, to)),
            ..self.node_of(from)
        }
    }

    /// Assert a judgment edge. Does not change structural identity of `from`.
    pub fn assert_judgment(&mut self, from: NodeId, kind: EdgeKind, to: NodeId) -> (r: Result<EdgeId, MetisError>)
        ensures
            !old(self).has_node(from) ==> r == Err::<EdgeId, MetisError>(node_handle_error(from))
                && *final(self) == *old(self),
            old(self).has_node(from) && !old(self).has_node(to) ==> r == Err::<EdgeId, MetisError>(
                node_handle_error(to)) && *final(self) == *old(self),
            old(self).has_node(from) && old(self).has_node(to) && old(self).edge_len() >= u32::MAX
                ==> r == Err::<EdgeId, MetisError>(MetisError::Capacity) && *final(self) == *old(self),
            old(self).has_node(from) && old(self).has_node(to) && old(self).edge_len() < u32::MAX
                ==> r == Ok::<EdgeId, MetisError>(EdgeId((old(self).edge_len() + 1) as u32))
                && old(self).appends_judgment(&*final(self), from, kind, to),
            old(self).keeps_nodes(&*final(self)),
    {
        proof {
            use_type_invariant(&*self);
        }
        self.ensure_known(from)?;
        self.ensure_known(to)?;
        if self.edges.len() >= 0xffff_ffff {
            return Err(MetisError::Capacity);
        }
        let eid = EdgeId((self.edges.len() + 1) as u32);
        let slot = (from.0 - 1) as usize;
        let mut g = Graph::new();
        std::mem::swap(self, &mut g);
        proof {
            use_type_invariant(&g);
        }
        let Graph { mut nodes, mut edges, cons, labels } = g;
        let ghost old_nodes = nodes@;
        let ghost old_edges = edges@;
        edges.push(EdgeRec { from, to, kind, judgment: true });
        nodes[slot].judgments.push((eid, kind, to));
        proof {
            assert forall|i: int| 0 <= i < old_nodes.len() && i != slot implies nodes@[i] == old_nodes[i] by {}
            assert(nodes@[slot as int].structural@ == old_nodes[slot as int].structural@);
            assert(nodes@[slot as int].label == old_nodes[slot as int].label);
            assert(nodes@[slot as int].judgments@ == old_nodes[slot as int].judgments@.push((eid, kind, to)));
            assert forall|i: int, j: int|
                0 <= i < nodes@.len() && 0 <= j < nodes@[i].structural@.len()
                implies {
                    let o = #[trigger] nodes@[i].structural@[j];
                    &&& 1 <= o.0.0 <= edges@.len()
                    &&& edges@[o.0.0 - 1] == EdgeRec { from: NodeId((i + 1) as u32), to: o.2, kind: o.1, judgment: false }
                } by {
                assert(nodes@[i].structural@ == old_nodes[i].structural@);
                let o = old_nodes[i].structural@[j];
                assert(old_edges[o.0.0 - 1] == edges@[o.0.0 - 1]);
            }
            assert forall|i: int, j: int|
                0 <= i < nodes@.len() && 0 <= j < nodes@[i].judgments@.len()
                implies {
                    let o = #[trigger] nodes@[i].judgments@[j];
                    &&& 1 <= o.0.0 <= edges@.len()
                    &&& edges@[o.0.0 - 1] == EdgeRec { from: NodeId((i + 1) as u32), to: o.2, kind: o.1, judgment: true }
                } by {
                if i == slot && j == old_nodes[i].judgments@.len() {
                } else {
                    let o = old_nodes[i].judgments@[j];
                    assert(nodes@[i].judgments@[j] == o);
                    assert(old_edges[o.0.0 - 1] == edges@[o.0.0 - 1]);
                }
            }
            assert forall|j: int| 0 <= j < edges@.len() implies {
                let r = #[trigger] edges@[j];
                &&& 1 <= r.from.0 <= nodes@.len()
                &&& 1 <= r.to.0 <= nodes@.len()
                &&& r.judgment ==> nodes@[r.from.0 - 1].judgments@.contains(
                    (EdgeId((j + 1) as u32), r.kind, r.to))
                &&& !r.judgment ==> nodes@[r.from.0 - 1].structural@.contains(
                    (EdgeId((j + 1) as u32), r.kind, r.to))
            } by {
                if j == old_edges.len() {
                    let js = nodes@[slot as int].judgments@;
                    assert(js[js.len() - 1] == (eid, kind, to));
                } else {
                    let r = edges@[j];
                    assert(r == old_edges[j]);
                    if r.judgment && r.from.0 - 1 == slot {
                        let x = (EdgeId((j + 1) as u32), r.kind, r.to);
                        let k = choose|k: int| 0 <= k < old_nodes[slot as int].judgments@.len()
                            && old_nodes[slot as int].judgments@[k] == x;
                        assert(nodes@[slot as int].judgments@[k] == x);
                    }
                }
            }
            assert forall|k2: int| 0 <= k2 < labels@.len() implies {
                let (l, n) = #[trigger] labels@[k2];
                &&& 1 <= n.0 <= nodes@.len()
                &&& nodes@[n.0 - 1].view().label == Some(l@)
            } by {
                let (l, n) = labels@[k2];
                assert(nodes@[n.0 - 1].label == old_nodes[n.0 - 1].label);
            }
            assert forall|k2: int| 0 <= k2 < cons@.len() implies {
                let (key, n) = #[trigger] cons@[k2];
                &&& 1 <= n.0 <= nodes@.len()
                &&& nodes@[n.0 - 1].label is None
                &&& sorted_by(key@, key_le())
                &&& key@.to_multiset() == struct_keys(nodes@[n.0 - 1].structural@).to_multiset()
            } by {
                let (key, n) = cons@[k2];
                assert(nodes@[n.0 - 1].structural@ == old_nodes[n.0 - 1].structural@);
                assert(nodes@[n.0 - 1].label == old_nodes[n.0 - 1].label);
            }
            assert forall|i: int| 0 <= i < nodes@.len() && (#[trigger] nodes@[i]).label is Some
                implies nodes@[i].structural@.len() == 0 by {
                assert(old_nodes[i].label is Some);
            }
            assert forall|i: int| 0 <= i < nodes@.len() && (#[trigger] nodes@[i]).label is Some
                implies exists|k2: int| 0 <= k2 < labels@.len() && (#[trigger] labels@[k2]).1.0 == i + 1 by {
                assert(old_nodes[i].label is Some);
            }
            assert forall|i: int| 0 <= i < nodes@.len() && (#[trigger] nodes@[i]).label is None
                implies exists|k2: int| 0 <= k2 < cons@.len() && (#[trigger] cons@[k2]).1.0 == i + 1 by {
                assert(old_nodes[i].label is None);
            }
        }
        *self = Graph { nodes, edges, cons, labels };
        proof {
            assert(self.node_of(from) == NodeView {
                judgments: old(self).node_of(from).judgments.push((eid, kind, to)),
                ..old(self).node_of(from)
            });
            assert forall|i: int| 0 <= i < old(self).edge_len() implies self.edge_at(i) == #[trigger] old(self).edge_at(i) by {}
        }
        Ok(eid)
    }

    /// Every target named in `outs` is a node of this graph.
    pub open spec fn all_known(&self, outs: Seq<(EdgeKind, NodeId)>) -> bool {
        forall|i: int| 0 <= i < outs.len() ==> self.has_node(#[trigger] outs[i].1)
    }

    /// Index of the first target in `outs` that is not a node (when there is one).
    pub open spec fn first_unknown(&self, outs: Seq<(EdgeKind, NodeId)>) -> int {
        choose|i: int| 0 <= i < outs.len() && !self.has_node(outs[i].1)
            && forall|j: int| 0 <= j < i ==> self.has_node(#[trigger] outs[j].1)
    }

    /// An unlabeled node whose structural outs have the same `(kind, target)` multiset as `outs`.
    pub open spec fn cons_node(&self, outs: Seq<(EdgeKind, NodeId)>) -> Option<NodeId> {
        if exists|n: NodeId| self.is_cons_of(n, outs) {
            Some(choose|n: NodeId| self.is_cons_of(n, outs))
        } else {
            None
        }
    }

    /// `n` is an unlabeled node whose structural outs match `outs` as a multiset.
    pub open spec fn is_cons_of(&self, n: NodeId, outs: Seq<(EdgeKind, NodeId)>) -> bool {
        &&& self.has_node(n)
        &&& self.node_of(n).label is None
        &&& struct_keys(self.node_of(n).structural).to_multiset() == outs_keys(outs).to_multiset()
    }

    /// Structural outs recorded for a new node whose edges start after slot `e0`.
    pub open spec fn fresh_outs(e0: nat, outs: Seq<(EdgeKind, NodeId)>) -> Seq<Out> {
        Seq::new(outs.len(), |j: int| (EdgeId((e0 + j + 1) as u32), outs[j].0, outs[j].1))
    }

    /// `new` is `self` plus one structural node with fresh edges for `outs`.
    pub open spec fn appends_cons(&self, new: &Graph, outs: Seq<(EdgeKind, NodeId)>) -> bool {
        let n = NodeId((self.node_len() + 1) as u32);
        let e0 = self.edge_len();
        &&& new.node_len() == self.node_len() + 1
        &&& new.edge_len() == self.edge_len() + outs.len()
        &&& forall|i: int| 0 <= i < self.node_len() ==> new.node_at(i) == #[trigger] self.node_at(i)
        &&& forall|i: int| 0 <= i < self.edge_len() ==> new.edge_at(i) == #[trigger] self.edge_at(i)
        &&& new.node_of(n) == NodeView {
            structural: Self::fresh_outs(e0, outs),
            judgments: Seq::empty(),
            label: None,
        }
        &&& forall|j: int| 0 <= j < outs.len() ==> #[trigger] new.edge_at(e0 + j) == EdgeRec {
            from: n,
            to: outs[j].1,
            kind: outs[j].0,
            judgment: false,
        }
    }

    /// Distinct unlabeled nodes have distinct structural multisets.
    proof fn lemma_cons_distinct(&self, a: NodeId, b: NodeId)
        requires
            self.wf(),
            self.has_node(a),
            self.has_node(b),
            self.node_of(a).label is None,
            self.node_of(b).label is None,
            struct_keys(self.node_of(a).structural).to_multiset() == struct_keys(
                self.node_of(b).structural).to_multiset(),
        ensures
            a == b,
    {
        let ia = a.0 - 1;
        let ib = b.0 - 1;
        assert(self.nodes@[ia].label is None);
        assert(self.nodes@[ib].label is None);
        let ka = choose|k2: int| 0 <= k2 < self.cons@.len() && (#[trigger] self.cons@[k2]).1.0 == ia + 1;
        let kb = choose|k2: int| 0 <= k2 < self.cons@.len() && (#[trigger] self.cons@[k2]).1.0 == ib + 1;
        let (ka_key, na) = self.cons@[ka];
        let (kb_key, nb) = self.cons@[kb];
        lemma_sorted_keys_unique(ka_key@, kb_key@);
        if ka < kb {
            assert(self.cons@[ka].0@ != self.cons@[kb].0@);
        } else if kb < ka {
            assert(self.cons@[kb].0@ != self.cons@[ka].0@);
        }
    }

    /// Sorted fingerprint keys of `outs`.
    fn fingerprint(outs: &[(EdgeKind, NodeId)]) -> (r: Vec<u64>)
        ensures
            sorted_by(r@, key_le()),
            r@.to_multiset() == outs_keys(outs@).to_multiset(),
    {
        let mut keys: Vec<u64> = Vec::new();
        let mut i: usize = 0;
        while i < outs.len()
            invariant
                i <= outs.len(),
                keys@ == outs_keys(outs@.take(i as int)),
            decreases outs.len() - i,
        {
            let (kind, to) = outs[i];
            keys.push(exec_out_key(kind, to));
            i = i + 1;
            proof {
                assert(outs@.take(i as int) == outs@.take(i - 1).push(outs@[i - 1]));
                assert(outs_keys(outs@.take(i as int)) =~= outs_keys(outs@.take(i - 1)).push(
                    out_key(outs@[i - 1].0, outs@[i - 1].1)));
            }
        }
        proof {
            assert(outs@.take(outs.len() as int) == outs@);
        }
        sort_keys(&keys)
    }

    /// Intern a node by its **structural** outgoing multiset (extensional hash-cons).
    pub fn intern(&mut self, outs: &[(EdgeKind, NodeId)]) -> (r: Result<NodeId, MetisError>)
        ensures
            !old(self).all_known(outs@) ==> r == Err::<NodeId, MetisError>(node_handle_error(
                outs@[old(self).first_unknown(outs@)].1)) && *final(self) == *old(self),
            old(self).all_known(outs@) && old(self).cons_node(outs@) is Some ==> r == Ok::<NodeId, MetisError>(
                old(self).cons_node(outs@)->0) && *final(self) == *old(self),
            old(self).all_known(outs@) && old(self).cons_node(outs@) is None && (old(self).node_len() >= u32::MAX
                || old(self).edge_len() + outs@.len() > u32::MAX) ==> r == Err::<NodeId, MetisError>(
                MetisError::Capacity) && *final(self) == *old(self),
            old(self).all_known(outs@) && old(self).cons_node(outs@) is None && old(self).node_len() < u32::MAX
                && old(self).edge_len() + outs@.len() <= u32::MAX ==> r == Ok::<NodeId, MetisError>(
                NodeId((old(self).node_len() + 1) as u32)) && old(self).appends_cons(&*final(self), outs@),
            // hash-cons: the result is the one unlabeled node with this structural multiset
            r matches Ok(n) ==> final(self).is_cons_of(n, outs@) && forall|m: NodeId|
                #[trigger] final(self).is_cons_of(m, outs@) ==> m == n,
            old(self).keeps_nodes(&*final(self)),
            // a freshly made node has no judgment pointing at it yet
            old(self).cons_node(outs@) is None && r is Ok ==> forall|m: NodeId, k: EdgeKind| final(
                self).has_node(m) ==> !#[trigger] final(self).has_judgment_out(m, k, r->Ok_0),
    {
        proof {
            use_type_invariant(&*self);
            self.lemma_well_formed();
        }
        let mut i: usize = 0;
        while i < outs.len()
            invariant
                self.wf(),
                i <= outs.len(),
                forall|j: int| 0 <= j < i ==> self.has_node(#[trigger] outs@[j].1),
            decreases outs.len() - i,
        {
            let (_kind, to) = outs[i];
            if !(1 <= to.0 && (to.0 as usize) <= self.nodes.len()) {
                let r = self.ensure_known(to);
                proof {
                    let f = self.first_unknown(outs@);
                    assert(0 <= i < outs.len() && !self.has_node(outs@[i as int].1)
                        && forall|j: int| 0 <= j < i ==> self.has_node(#[trigger] outs@[j].1));
                    if f < i {
                        assert(self.has_node(outs@[f].1));
                    } else if f > i {
                        assert(self.has_node(outs@[i as int].1));
                    }
                }
                return match r {
                    Err(e) => Err(e),
                    Ok(_) => Err(MetisError::NodeNotFound),
                };
            }
            i = i + 1;
        }
        let key = Self::fingerprint(outs);
        let mut k: usize = 0;
        while k < self.cons.len()
            invariant
                self.wf(),
                self.all_known(outs@),
                k <= self.cons@.len(),
                sorted_by(key@, key_le()),
                key@.to_multiset() == outs_keys(outs@).to_multiset(),
                forall|k2: int| 0 <= k2 < k ==> (#[trigger] self.cons@[k2]).0@ != key@,
            decreases self.cons.len() - k,
        {
            if keys_eq(&self.cons[k].0, &key) {
                let id = self.cons[k].1;
                proof {
                    assert(self.is_cons_of(id, outs@));
                    let n = choose|n: NodeId| self.is_cons_of(n, outs@);
                    self.lemma_cons_distinct(n, id);
                    assert forall|m: NodeId| #[trigger] self.is_cons_of(m, outs@) implies m == id by {
                        self.lemma_cons_distinct(m, id);
                    }
                }
                return Ok(id);
            }
            k = k + 1;
        }
        proof {
            if exists|n: NodeId| self.is_cons_of(n, outs@) {
                let n = choose|n: NodeId| self.is_cons_of(n, outs@);
                assert(self.nodes@[n.0 - 1].label is None);
                let k2 = choose|k2: int| 0 <= k2 < self.cons@.len() && (#[trigger] self.cons@[k2]).1.0 == (n.0 - 1) + 1;
                lemma_sorted_keys_unique(self.cons@[k2].0@, key@);
                assert(false);
            }
        }
        if self.nodes.len() >= 0xffff_ffff || outs.len() > 0xffff_ffff - self.edges.len() {
            return Err(MetisError::Capacity);
        }
        let id = NodeId((self.nodes.len() + 1) as u32);
        let mut g = Graph::new();
        std::mem::swap(self, &mut g);
        proof {
            use_type_invariant(&g);
        }
        let Graph { mut nodes, mut edges, mut cons, labels } = g;
        let ghost old_nodes = nodes@;
        let ghost old_edges = edges@;
        let ghost old_cons = cons@;
        let ghost e0 = old_edges.len();
        let mut recorded: Vec<Out> = Vec::new();
        let mut j: usize = 0;
        while j < outs.len()
            invariant
                j <= outs.len(),
                e0 + outs.len() <= u32::MAX,
                edges@.len() == e0 + j,
                forall|t: int| 0 <= t < e0 ==> edges@[t] == old_edges[t],
                forall|t: int| 0 <= t < j ==> #[trigger] edges@[e0 + t] == (EdgeRec {
                    from: id, to: outs@[t].1, kind: outs@[t].0, judgment: false }),
                recorded@ == Self::fresh_outs(e0, outs@.take(j as int)),
            decreases outs.len() - j,
        {
            let (kind, to) = outs[j];
            let eid = EdgeId((edges.len() + 1) as u32);
            edges.push(EdgeRec { from: id, to, kind, judgment: false });
            recorded.push((eid, kind, to));
            j = j + 1;
            proof {
                assert(recorded@ =~= Self::fresh_outs(e0, outs@.take(j as int)));
            }
        }
        proof {
            assert(outs@.take(outs.len() as int) == outs@);
            assert(struct_keys(recorded@) =~= outs_keys(outs@));
        }
        let ghost new_slot = old_nodes.len();
        nodes.push(NodeRec { structural: recorded, judgments: Vec::new(), label: None });
        cons.push((key, id));
        proof {
            let fo = Self::fresh_outs(e0, outs@);
            assert(nodes@[new_slot as int].structural@ == fo);
            assert forall|i: int| 0 <= i < old_nodes.len() implies nodes@[i] == old_nodes[i] by {}
            assert forall|i: int, j: int|
                0 <= i < nodes@.len() && 0 <= j < nodes@[i].structural@.len()
                implies {
                    let o = #[trigger] nodes@[i].structural@[j];
                    &&& 1 <= o.0.0 <= edges@.len()
                    &&& edges@[o.0.0 - 1] == EdgeRec { from: NodeId((i + 1) as u32), to: o.2, kind: o.1, judgment: false }
                } by {
                if i == new_slot {
                    assert(nodes@[i].structural@[j] == fo[j]);
                    assert(edges@[e0 + j] == EdgeRec { from: id, to: outs@[j].1, kind: outs@[j].0, judgment: false });
                } else {
                    let o = old_nodes[i].structural@[j];
                    assert(old_edges[o.0.0 - 1] == edges@[o.0.0 - 1]);
                }
            }
            assert forall|i: int, j: int|
                0 <= i < nodes@.len() && 0 <= j < nodes@[i].judgments@.len()
                implies {
                    let o = #[trigger] nodes@[i].judgments@[j];
                    &&& 1 <= o.0.0 <= edges@.len()
                    &&& edges@[o.0.0 - 1] == EdgeRec { from: NodeId((i + 1) as u32), to: o.2, kind: o.1, judgment: true }
                } by {
                let o = old_nodes[i].judgments@[j];
                assert(old_edges[o.0.0 - 1] == edges@[o.0.0 - 1]);
            }
            assert forall|j: int| 0 <= j < edges@.len() implies {
                let r = #[trigger] edges@[j];
                &&& 1 <= r.from.0 <= nodes@.len()
                &&& 1 <= r.to.0 <= nodes@.len()
                &&& r.judgment ==> nodes@[r.from.0 - 1].judgments@.contains(
                    (EdgeId((j + 1) as u32), r.kind, r.to))
                &&& !r.judgment ==> nodes@[r.from.0 - 1].structural@.contains(
                    (EdgeId((j + 1) as u32), r.kind, r.to))
            } by {
                if j >= e0 {
                    let t = j - e0;
                    assert(edges@[e0 + t] == EdgeRec { from: id, to: outs@[t].1, kind: outs@[t].0, judgment: false });
                    assert(old(self).has_node(outs@[t].1));
                    assert(fo[t] == (EdgeId((j + 1) as u32), outs@[t].0, outs@[t].1));
                    assert(nodes@[new_slot as int].structural@[t] == fo[t]);
                } else {
                    let r = edges@[j];
                    assert(r == old_edges[j]);
                    assert(nodes@[r.from.0 - 1] == old_nodes[r.from.0 - 1]);
                }
            }
            assert forall|k2: int| 0 <= k2 < labels@.len() implies {
                let (l, n) = #[trigger] labels@[k2];
                &&& 1 <= n.0 <= nodes@.len()
                &&& nodes@[n.0 - 1].view().label == Some(l@)
            } by {
                let (l, n) = labels@[k2];
                assert(nodes@[n.0 - 1] == old_nodes[n.0 - 1]);
            }
            assert forall|k2: int| 0 <= k2 < cons@.len() implies {
                let (key, n) = #[trigger] cons@[k2];
                &&& 1 <= n.0 <= nodes@.len()
                &&& nodes@[n.0 - 1].label is None
                &&& sorted_by(key@, key_le())
                &&& key@.to_multiset() == struct_keys(nodes@[n.0 - 1].structural@).to_multiset()
            } by {
                if k2 < old_cons.len() {
                    let (key, n) = cons@[k2];
                    assert(cons@[k2] == old_cons[k2]);
                    assert(nodes@[n.0 - 1] == old_nodes[n.0 - 1]);
                }
            }
            assert forall|a: int, b: int| 0 <= a < b < cons@.len()
                implies (#[trigger] cons@[a]).0@ != (#[trigger] cons@[b]).0@ by {
                assert(cons@[a] == old_cons[a]);
                if b < old_cons.len() {
                    assert(cons@[b] == old_cons[b]);
                }
            }
            assert forall|i: int| 0 <= i < nodes@.len() && (#[trigger] nodes@[i]).label is Some
                implies nodes@[i].structural@.len() == 0 by {
                assert(old_nodes[i].label is Some);
            }
            assert forall|i: int| 0 <= i < nodes@.len() && (#[trigger] nodes@[i]).label is Some
                implies exists|k2: int| 0 <= k2 < labels@.len() && (#[trigger] labels@[k2]).1.0 == i + 1 by {
                assert(old_nodes[i].label is Some);
            }
            assert forall|i: int| 0 <= i < nodes@.len() && (#[trigger] nodes@[i]).label is None
                implies exists|k2: int| 0 <= k2 < cons@.len() && (#[trigger] cons@[k2]).1.0 == i + 1 by {
                if i < old_nodes.len() {
                    assert(old_nodes[i].label is None);
                    let k2 = choose|k2: int| 0 <= k2 < old_cons.len() && (#[trigger] old_cons[k2]).1.0 == i + 1;
                    assert(cons@[k2] == old_cons[k2]);
                } else {
                    assert(cons@[old_cons.len() as int].1.0 == i + 1);
                }
            }
        }
        *self = Graph { nodes, edges, cons, labels };
        proof {
            use_type_invariant(&*self);
            assert forall|i: int| 0 <= i < old(self).node_len() implies self.node_at(i) == #[trigger] old(self).node_at(i) by {
                assert(self.nodes@[i] == old_nodes[i]);
            }
            assert forall|i: int| 0 <= i < old(self).edge_len() implies self.edge_at(i) == #[trigger] old(self).edge_at(i) by {}
            assert(self.is_cons_of(id, outs@));
            assert forall|m: NodeId| #[trigger] self.is_cons_of(m, outs@) implies m == id by {
                self.lemma_cons_distinct(m, id);
            }
            assert forall|m: NodeId, k: EdgeKind| self.has_node(m) implies !#[trigger] self.has_judgment_out(m, k, id) by {
                if m != id {
                    assert(self.node_at(m.0 - 1) == old(self).node_at(m.0 - 1));
                    if self.has_judgment_out(m, k, id) {
                        let j = choose|j: int| 0 <= j < self.node_of(m).judgments.len()
                            && (#[trigger] self.node_of(m).judgments[j]).1 == k && self.node_of(m).judgments[j].2 == id;
                        let o = old(self).node_of(m).judgments[j];
                        assert(old(self).has_edge(o.0));
                        assert(old(self).has_node(old(self).edge_of(o.0).to));
                    }
                }
            }
        }
        Ok(id)
    }

    /// Intern the unique empty structural node.
    pub fn intern_empty(&mut self) -> (r: Result<NodeId, MetisError>)
        ensures
            old(self).cons_node(Seq::empty()) is Some ==> r == Ok::<NodeId, MetisError>(
                old(self).cons_node(Seq::empty())->0) && *final(self) == *old(self),
            old(self).cons_node(Seq::empty()) is None && old(self).node_len() >= u32::MAX
                ==> r == Err::<NodeId, MetisError>(MetisError::Capacity) && *final(self) == *old(self),
            old(self).cons_node(Seq::empty()) is None && old(self).node_len() < u32::MAX
                ==> r == Ok::<NodeId, MetisError>(NodeId((old(self).node_len() + 1) as u32))
                && old(self).appends_cons(&*final(self), Seq::empty()),
            r matches Ok(n) ==> final(self).is_cons_of(n, Seq::empty()) && forall|m: NodeId|
                #[trigger] final(self).is_cons_of(m, Seq::empty()) ==> m == n,
    {
        proof {
            use_type_invariant(&*self);
        }
        let empty: Vec<(EdgeKind, NodeId)> = Vec::new();
        let r = self.intern(empty.as_slice());
        proof {
            assert(empty@ == Seq::<(EdgeKind, NodeId)>::empty());
        }
        r
    }

    /// End node of a directed walk along `p` starting at `a`.
    pub open spec fn walk_end(&self, a: NodeId, p: Seq<EdgeId>) -> NodeId {
        if p.len() == 0 { a } else { self.edge_of(p.last()).to }
    }

    /// `p` is a chain of stored edges leaving `a`, each starting where the previous ended.
    pub open spec fn walk_ok(&self, a: NodeId, p: Seq<EdgeId>) -> bool
        decreases p.len(),
    {
        if p.len() == 0 {
            true
        } else {
            &&& self.walk_ok(a, p.drop_last())
            &&& self.has_edge(p.last())
            &&& self.edge_of(p.last()).from == self.walk_end(a, p.drop_last())
        }
    }

    /// `p` is a directed path of edges from `a` to `b`.
    pub open spec fn is_directed_path(&self, a: NodeId, b: NodeId, p: Seq<EdgeId>) -> bool {
        self.walk_ok(a, p) && self.walk_end(a, p) == b
    }

    /// Some directed path leads from `a` to `b`.
    pub open spec fn reachable(&self, a: NodeId, b: NodeId) -> bool {
        exists|p: Seq<EdgeId>| self.is_directed_path(a, b, p)
    }

    /// A set of node slots (given as flags) that no outgoing edge leaves.
    spec fn closed_under_outs(&self, seen: Seq<bool>) -> bool {
        forall|i: int, j: int| 0 <= i < self.nodes@.len() && seen[i] && 0 <= j < self.outs_of(
            NodeId((i + 1) as u32)).len()
            ==> seen[#[trigger] self.outs_of(NodeId((i + 1) as u32))[j].2.0 - 1]
    }

    /// Walks from a closed set stay in it.
    proof fn lemma_closed_walk(&self, seen: Seq<bool>, a: NodeId, p: Seq<EdgeId>)
        requires
            self.wf(),
            seen.len() == self.nodes@.len(),
            self.closed_under_outs(seen),
            self.has_node(a),
            seen[a.0 - 1],
            self.walk_ok(a, p),
        ensures
            self.has_node(self.walk_end(a, p)),
            seen[self.walk_end(a, p).0 - 1],
        decreases p.len(),
    {
        self.lemma_well_formed();
        if p.len() > 0 {
            self.lemma_closed_walk(seen, a, p.drop_last());
            let e = p.last();
            let r = self.edge_of(e);
            let x = self.walk_end(a, p.drop_last());
            let o = (e, r.kind, r.to);
            if r.judgment {
                assert(self.node_of(x).judgments.contains(o));
                let j = choose|j: int| 0 <= j < self.node_of(x).judgments.len() && self.node_of(x).judgments[j] == o;
                assert(self.outs_of(x)[self.node_of(x).structural.len() + j] == o);
                assert(NodeId(((x.0 - 1) + 1) as u32) == x);
                assert(seen[self.outs_of(NodeId(((x.0 - 1) + 1) as u32))[self.node_of(x).structural.len() + j].2.0 - 1]);
            } else {
                assert(self.node_of(x).structural.contains(o));
                let j = choose|j: int| 0 <= j < self.node_of(x).structural.len() && self.node_of(x).structural[j] == o;
                assert(self.outs_of(x)[j] == o);
                assert(NodeId(((x.0 - 1) + 1) as u32) == x);
                assert(seen[self.outs_of(NodeId(((x.0 - 1) + 1) as u32))[j].2.0 - 1]);
            }
        }
    }

    /// `p` is a directed path from `a` to `b`, and no such path is shorter.
    pub open spec fn is_shortest_directed_path(&self, a: NodeId, b: NodeId, p: Seq<EdgeId>) -> bool {
        &&& self.is_directed_path(a, b, p)
        &&& forall|q: Seq<EdgeId>| #[trigger] self.is_directed_path(a, b, q) ==> p.len() <= q.len()
    }

    /// Every node reached from `from` by a directed path shorter than `lvl`
    /// sits before `head` in the queue.
    spec fn directed_layer_expanded(&self, from: NodeId, queue: Seq<NodeId>, head: int, lvl: nat) -> bool {
        forall|w: NodeId, q: Seq<EdgeId>| #[trigger] self.is_directed_path(from, w, q) && q.len() < lvl
            ==> exists|k: int| 0 <= k < head && queue[k] == w
    }

    /// The directed path recorded for each seen node is a shortest one.
    spec fn directed_paths_optimal(&self, from: NodeId, seen: Seq<bool>, paths: Seq<Vec<EdgeId>>) -> bool {
        forall|w: NodeId, q: Seq<EdgeId>| #[trigger] self.is_directed_path(from, w, q) && self.has_node(w) && seen[w.0 - 1]
            ==> path_len_at(paths, w) <= q.len()
    }

    /// A stored edge is listed among the outgoing edges of its source.
    proof fn lemma_edge_listed(&self, e: EdgeId) -> (j: int)
        requires
            self.wf(),
            self.has_edge(e),
        ensures
            self.has_node(self.edge_of(e).from),
            0 <= j < self.outs_of(self.edge_of(e).from).len(),
            self.outs_of(self.edge_of(e).from)[j] == (e, self.edge_of(e).kind, self.edge_of(e).to),
    {
        self.lemma_well_formed();
        let r = self.edge_of(e);
        let x = r.from;
        let o = (e, r.kind, r.to);
        if r.judgment {
            assert(self.node_of(x).judgments.contains(o));
            let j = choose|j: int| 0 <= j < self.node_of(x).judgments.len() && self.node_of(x).judgments[j] == o;
            assert(self.outs_of(x)[self.node_of(x).structural.len() + j] == o);
            self.node_of(x).structural.len() + j
        } else {
            assert(self.node_of(x).structural.contains(o));
            let j = choose|j: int| 0 <= j < self.node_of(x).structural.len() && self.node_of(x).structural[j] == o;
            assert(self.outs_of(x)[j] == o);
            j
        }
    }

    /// A node not yet seen, while every node nearer than `lvl` has been
    /// expanded, lies farther than `lvl` from `from`.
    proof fn lemma_directed_unseen_is_far(
        &self,
        seen: Seq<bool>,
        queue: Seq<NodeId>,
        head: int,
        from: NodeId,
        lvl: nat,
        y: NodeId,
    )
        requires
            self.wf(),
            seen.len() == self.nodes@.len(),
            0 <= head <= queue.len(),
            forall|k: int| 0 <= k < queue.len() ==> self.has_node(#[trigger] queue[k]),
            forall|k: int, j: int| 0 <= k < head && 0 <= j < self.outs_of(queue[k]).len()
                ==> seen[#[trigger] self.outs_of(queue[k])[j].2.0 - 1],
            self.directed_layer_expanded(from, queue, head, lvl),
            self.has_node(from),
            seen[from.0 - 1],
            self.has_node(y),
            !seen[y.0 - 1],
        ensures
            forall|q: Seq<EdgeId>| #[trigger] self.is_directed_path(from, y, q) ==> q.len() > lvl,
    {
        assert forall|q: Seq<EdgeId>| #[trigger] self.is_directed_path(from, y, q) implies q.len() > lvl by {
            if q.len() <= lvl {
                if q.len() == 0 {
                    assert(y == from);
                } else {
                    let u = self.walk_end(from, q.drop_last());
                    assert(self.is_directed_path(from, u, q.drop_last()));
                    let k = choose|k: int| 0 <= k < head && queue[k] == u;
                    let j = self.lemma_edge_listed(q.last());
                    assert(seen[self.outs_of(queue[k])[j].2.0 - 1]);
                }
            }
        }
    }

    /// Moving `head` past a fully expanded node keeps the layer property.
    proof fn lemma_directed_layer_advance(
        &self,
        seen: Seq<bool>,
        queue: Seq<NodeId>,
        head: int,
        from: NodeId,
        paths: Seq<Vec<EdgeId>>,
    )
        requires
            self.wf(),
            seen.len() == self.nodes@.len(),
            paths.len() == self.nodes@.len(),
            0 <= head && head + 1 < queue.len(),
            queue[0] == from,
            self.has_node(from),
            path_len_at(paths, from) == 0,
            forall|k: int| 0 <= k < queue.len() ==> self.has_node(#[trigger] queue[k]) && seen[queue[k].0 - 1],
            forall|x: int| 0 <= x < seen.len() && #[trigger] seen[x] ==> exists|k: int| 0 <= k < queue.len() && (#[trigger] queue[k]).0 == x + 1,
            forall|k: int, j: int| 0 <= k < head + 1 && 0 <= j < self.outs_of(queue[k]).len()
                ==> seen[#[trigger] self.outs_of(queue[k])[j].2.0 - 1],
            bfs_ordered(queue, paths, head),
            self.directed_paths_optimal(from, seen, paths),
            self.directed_layer_expanded(from, queue, head, path_len_at(paths, queue[head])),
        ensures
            bfs_ordered(queue, paths, head + 1),
            self.directed_layer_expanded(from, queue, head + 1, path_len_at(paths, queue[head + 1])),
    {
        let lvl = path_len_at(paths, queue[head]);
        let lvl2 = path_len_at(paths, queue[head + 1]);
        assert(lvl <= lvl2 <= lvl + 1);
        assert forall|w: NodeId, q: Seq<EdgeId>| #[trigger] self.is_directed_path(from, w, q) && q.len() < lvl2
            implies exists|k: int| 0 <= k < head + 1 && queue[k] == w by {
            if q.len() < lvl {
                let k = choose|k: int| 0 <= k < head && queue[k] == w;
                assert(0 <= k < head + 1 && queue[k] == w);
            } else if q.len() == 0 {
                assert(w == from);
                assert(queue[0] == w);
            } else {
                let u = self.walk_end(from, q.drop_last());
                assert(self.is_directed_path(from, u, q.drop_last()));
                let k = choose|k: int| 0 <= k < head && queue[k] == u;
                let j = self.lemma_edge_listed(q.last());
                assert(seen[self.outs_of(queue[k])[j].2.0 - 1]);
                assert(self.has_node(w));
                let m = choose|m: int| 0 <= m < queue.len() && (#[trigger] queue[m]).0 == (w.0 - 1) + 1;
                assert(queue[m] == w);
                assert(path_len_at(paths, w) <= q.len());
                if m >= head + 1 {
                    assert(path_len_at(paths, queue[head + 1]) <= path_len_at(paths, queue[m]));
                }
                assert(0 <= m < head + 1 && queue[m] == w);
            }
        }
    }

    /// Directed reachability over all outgoing edges.
    pub fn reaches(&self, from: NodeId, to: NodeId) -> (r: Result<bool, MetisError>)
        ensures
            !self.has_node(from) ==> r == Err::<bool, MetisError>(node_handle_error(from)),
            self.has_node(from) && !self.has_node(to) ==> r == Err::<bool, MetisError>(node_handle_error(to)),
            self.has_node(from) && self.has_node(to) ==> r == Ok::<bool, MetisError>(self.reachable(from, to)),
    {
        Ok(self.find_directed_path(from, to)?.is_some())
    }

    /// Breadth-first search for a directed path over all outgoing edges.
    pub fn find_directed_path(&self, from: NodeId, to: NodeId) -> (r: Result<Option<Vec<EdgeId>>, MetisError>)
        ensures
            !self.has_node(from) ==> r == Err::<Option<Vec<EdgeId>>, MetisError>(node_handle_error(from)),
            self.has_node(from) && !self.has_node(to) ==> r == Err::<Option<Vec<EdgeId>>, MetisError>(
                node_handle_error(to)),
            self.has_node(from) && self.has_node(to) ==> (r matches Ok(o) && (o is None <==> !self.reachable(
                from, to)) && (o matches Some(p) ==> self.is_shortest_directed_path(from, to, p@))),
    {
        proof {
            use_type_invariant(self);
            self.lemma_well_formed();
        }
        let _ = self.node_slot(from)?;
        let _ = self.node_slot(to)?;
        if from == to {
            let p: Vec<EdgeId> = Vec::new();
            proof {
                assert(self.is_directed_path(from, to, p@));
                assert(self.is_shortest_directed_path(from, to, p@));
            }
            return Ok(Some(p));
        }
        let n = self.nodes.len();
        let mut seen: Vec<bool> = Vec::new();
        let mut paths: Vec<Vec<EdgeId>> = Vec::new();
        let mut i: usize = 0;
        while i < n
            invariant
                n == self.nodes@.len(),
                i <= n,
                seen@.len() == i,
                paths@.len() == i,
                forall|k: int| 0 <= k < i ==> !(#[trigger] seen@[k]),
                forall|k: int| 0 <= k < i ==> (#[trigger] paths@[k])@.len() == 0,
            decreases n - i,
        {
            seen.push(false);
            paths.push(Vec::new());
            i = i + 1;
        }
        let fs = (from.0 - 1) as usize;
        let ghost unset = seen@;
        seen[fs] = true;
        proof {
            lemma_count_unseen_all(seen@, n as int);
        }
        let mut queue: Vec<NodeId> = Vec::new();
        queue.push(from);
        proof {
            assert forall|x: int| 0 <= x < n && #[trigger] seen@[x] implies x == fs by {
                if x != fs {
                    assert(!unset[x]);
                }
            }
            assert(queue@[0].0 == fs + 1);
            assert(NodeId((fs + 1) as u32) == from);
            assert(paths@[fs as int]@ =~= Seq::<EdgeId>::empty());
            assert(self.is_directed_path(from, from, Seq::<EdgeId>::empty()));
            assert(path_len_at(paths@, from) == 0);
            assert(bfs_ordered(queue@, paths@, 0));
            assert forall|w: NodeId, q: Seq<EdgeId>| #[trigger] self.is_directed_path(from, w, q) && self.has_node(w)
                && seen@[w.0 - 1] implies path_len_at(paths@, w) <= q.len() by {
                assert(w.0 - 1 == fs);
            }
        }
        let mut head: usize = 0;
        while head < queue.len()
            invariant
                self.wf(),
                n == self.nodes@.len(),
                self.has_node(from),
                self.has_node(to),
                from != to,
                seen@.len() == n,
                paths@.len() == n,
                head <= queue@.len(),
                count_unseen(seen@) + queue@.len() == n,
                seen@[from.0 - 1],
                !seen@[to.0 - 1],
                forall|k: int| 0 <= k < queue@.len() ==> self.has_node(#[trigger] queue@[k]) && seen@[queue@[k].0 - 1],
                forall|x: int| 0 <= x < n && #[trigger] seen@[x] ==> exists|k: int| 0 <= k < queue@.len() && (#[trigger] queue@[k]).0 == x + 1,
                forall|x: int| 0 <= x < n && #[trigger] seen@[x] ==> self.is_directed_path(from, NodeId((x + 1) as u32), paths@[x]@),
                forall|k: int, j: int| 0 <= k < head && 0 <= j < self.outs_of(queue@[k]).len()
                    ==> seen@[#[trigger] self.outs_of(queue@[k])[j].2.0 - 1],
                queue@.len() > 0,
                queue@[0] == from,
                path_len_at(paths@, from) == 0,
                bfs_ordered(queue@, paths@, head as int),
                self.directed_paths_optimal(from, seen@, paths@),
                head < queue@.len() ==> self.directed_layer_expanded(from, queue@, head as int, path_len_at(
                    paths@,
                    queue@[head as int],
                )),
            decreases n - head,
        {
            let cur = queue[head];
            let outs = self.outgoing(cur)?;
            proof {
                lemma_count_unseen_bound(seen@);
            }
            let mut j: usize = 0;
            while j < outs.len()
                invariant
                    self.wf(),
                    n == self.nodes@.len(),
                    self.has_node(from),
                    self.has_node(to),
                    from != to,
                    self.has_node(cur),
                    cur == queue@[head as int],
                    outs@ == self.outs_of(cur),
                    j <= outs@.len(),
                    seen@.len() == n,
                    paths@.len() == n,
                    head < queue@.len(),
                    count_unseen(seen@) + queue@.len() == n,
                    seen@[from.0 - 1],
                    !seen@[to.0 - 1],
                    forall|k: int| 0 <= k < queue@.len() ==> self.has_node(#[trigger] queue@[k]) && seen@[queue@[k].0 - 1],
                    forall|x: int| 0 <= x < n && #[trigger] seen@[x] ==> exists|k: int| 0 <= k < queue@.len() && (#[trigger] queue@[k]).0 == x + 1,
                    forall|x: int| 0 <= x < n && #[trigger] seen@[x] ==> self.is_directed_path(from, NodeId((x + 1) as u32), paths@[x]@),
                    forall|k: int, j2: int| 0 <= k < head && 0 <= j2 < self.outs_of(queue@[k]).len()
                        ==> seen@[#[trigger] self.outs_of(queue@[k])[j2].2.0 - 1],
                    forall|j2: int| 0 <= j2 < j ==> seen@[#[trigger] outs@[j2].2.0 - 1],
                    queue@.len() > 0,
                    queue@[0] == from,
                    path_len_at(paths@, from) == 0,
                    bfs_ordered(queue@, paths@, head as int),
                    self.directed_paths_optimal(from, seen@, paths@),
                    self.directed_layer_expanded(from, queue@, head as int, path_len_at(paths@, cur)),
                decreases outs.len() - j,
            {
                let (eid, _kind, nxt) = outs[j];
                proof {
                    self.lemma_out_is_edge(cur, j as int);
                }
                let s = (nxt.0 - 1) as usize;
                if !seen[s] {
                    let ghost old_seen = seen@;
                    let ghost old_queue = queue@;
                    let cs = (cur.0 - 1) as usize;
                    let mut p = copy_edges(&paths[cs]);
                    p.push(eid);
                    let ghost old_paths = paths@;
                    let ghost lvl = path_len_at(paths@, cur);
                    proof {
                        assert(NodeId(((cur.0 - 1) + 1) as u32) == cur);
                        assert(p@.drop_last() == paths@[cs as int]@);
                        assert(self.is_directed_path(from, nxt, p@));
                        lemma_count_unseen_set(seen@, s as int);
                        assert(NodeId(((nxt.0 - 1) + 1) as u32) == nxt);
                        self.lemma_directed_unseen_is_far(seen@, queue@, head as int, from, lvl, nxt);
                        assert(p@.len() == lvl + 1);
                    }
                    seen[s] = true;
                    if nxt == to {
                        return Ok(Some(p));
                    }
                    paths[s] = p;
                    queue.push(nxt);
                    proof {
                        assert(path_len_at(paths@, nxt) == lvl + 1);
                        assert forall|x: NodeId| #[trigger] old_seen[x.0 - 1] && self.has_node(x) implies path_len_at(paths@, x)
                            == path_len_at(old_paths, x) by {
                            assert(x.0 - 1 != s);
                        }
                        assert(path_len_at(paths@, from) == 0);
                        assert forall|k1: int, k2: int|
                            #![trigger queue@[k1], queue@[k2]]
                            0 <= k1 <= k2 < queue@.len() implies path_len_at(paths@, queue@[k1]) <= path_len_at(paths@, queue@[k2]) by {
                            if k2 < old_queue.len() {
                                assert(queue@[k1] == old_queue[k1]);
                                assert(queue@[k2] == old_queue[k2]);
                                assert(old_seen[old_queue[k1].0 - 1]);
                                assert(old_seen[old_queue[k2].0 - 1]);
                            } else if k1 < old_queue.len() {
                                assert(queue@[k1] == old_queue[k1]);
                                assert(old_seen[old_queue[k1].0 - 1]);
                                if k1 <= head {
                                    assert(path_len_at(old_paths, old_queue[k1]) <= path_len_at(old_paths, old_queue[head as int]));
                                }
                            }
                        }
                        assert forall|k: int| head <= k < queue@.len() implies path_len_at(paths@, #[trigger] queue@[k])
                            <= path_len_at(paths@, queue@[head as int]) + 1 by {
                            if k < old_queue.len() {
                                assert(queue@[k] == old_queue[k]);
                                assert(old_seen[old_queue[k].0 - 1]);
                            }
                        }
                        assert forall|w: NodeId, q: Seq<EdgeId>| #[trigger] self.is_directed_path(from, w, q) && self.has_node(w)
                            && seen@[w.0 - 1] implies path_len_at(paths@, w) <= q.len() by {
                            if w.0 - 1 != s {
                                assert(old_seen[w.0 - 1]);
                            } else {
                                assert(w == nxt);
                            }
                        }
                        assert forall|w: NodeId, q: Seq<EdgeId>| #[trigger] self.is_directed_path(from, w, q) && q.len()
                            < path_len_at(paths@, cur) implies exists|k: int| 0 <= k < head && queue@[k] == w by {
                            let k = choose|k: int| 0 <= k < head && old_queue[k] == w;
                            assert(queue@[k] == old_queue[k]);
                        }
                        assert forall|x: int| 0 <= x < n && #[trigger] seen@[x] implies exists|k: int| 0 <= k < queue@.len() && (#[trigger] queue@[k]).0 == x + 1 by {
                            if x == s {
                                assert(queue@[old_queue.len() as int].0 == x + 1);
                            } else {
                                assert(old_seen[x]);
                                let k = choose|k: int| 0 <= k < old_queue.len() && (#[trigger] old_queue[k]).0 == x + 1;
                                assert(queue@[k] == old_queue[k]);
                            }
                        }
                        assert forall|x: int| 0 <= x < n && #[trigger] seen@[x] implies self.is_directed_path(from, NodeId((x + 1) as u32), paths@[x]@) by {
                            if x == s {
                                assert(NodeId((x + 1) as u32) == nxt);
                            } else {
                                assert(old_seen[x]);
                            }
                        }
                        assert forall|k: int, j2: int| 0 <= k < head && 0 <= j2 < self.outs_of(queue@[k]).len()
                            implies seen@[#[trigger] self.outs_of(queue@[k])[j2].2.0 - 1] by {
                            assert(queue@[k] == old_queue[k]);
                            assert(old_seen[self.outs_of(old_queue[k])[j2].2.0 - 1]);
                        }
                    }
                }
                j = j + 1;
            }
            head = head + 1;
            proof {
                if head < queue@.len() {
                    self.lemma_directed_layer_advance(seen@, queue@, head - 1, from, paths@);
                }
                assert forall|k: int, j2: int| 0 <= k < head && 0 <= j2 < self.outs_of(queue@[k]).len()
                    implies seen@[#[trigger] self.outs_of(queue@[k])[j2].2.0 - 1] by {
                    if k == head - 1 {
                        assert(outs@[j2] == self.outs_of(queue@[k])[j2]);
                    }
                }
            }
        }
        proof {
            assert(self.closed_under_outs(seen@)) by {
                assert forall|x: int, j: int| 0 <= x < self.nodes@.len() && seen@[x] && 0 <= j < self.outs_of(
                    NodeId((x + 1) as u32)).len()
                    implies seen@[#[trigger] self.outs_of(NodeId((x + 1) as u32))[j].2.0 - 1] by {
                    let k = choose|k: int| 0 <= k < queue@.len() && (#[trigger] queue@[k]).0 == x + 1;
                    assert(queue@[k] == NodeId((x + 1) as u32));
                }
            }
            if self.reachable(from, to) {
                let p = choose|p: Seq<EdgeId>| self.is_directed_path(from, to, p);
                self.lemma_closed_walk(seen@, from, p);
            }
        }
        Ok(None)
    }

    /// An entry of a node's outgoing list is a stored edge from that node.
    proof fn lemma_out_is_edge(&self, n: NodeId, j: int)
        requires
            self.wf(),
            self.has_node(n),
            0 <= j < self.outs_of(n).len(),
        ensures
            self.has_edge(self.outs_of(n)[j].0),
            self.edge_of(self.outs_of(n)[j].0).from == n,
            self.edge_of(self.outs_of(n)[j].0).to == self.outs_of(n)[j].2,
            self.has_node(self.outs_of(n)[j].2),
    {
        self.lemma_well_formed();
        let sl = self.node_of(n).structural.len();
        if j < sl {
            assert(self.outs_of(n)[j] == self.node_of(n).structural[j]);
        } else {
            assert(self.outs_of(n)[j] == self.node_of(n).judgments[j - sl]);
        }
        let e = self.outs_of(n)[j].0;
        assert(self.has_node(self.edge_of(e).to));
    }

    /// `s` is a valid undirected step along a judgment `Equal` edge, leaving `cur`.
    pub open spec fn step_ok(&self, cur: NodeId, s: Step) -> bool {
        &&& self.has_edge(s.edge)
        &&& self.edge_of(s.edge).kind == EdgeKind::Equal
        &&& self.edge_of(s.edge).judgment
        &&& if s.forward { self.edge_of(s.edge).from == cur } else { self.edge_of(s.edge).to == cur }
    }

    /// The node a step arrives at.
    pub open spec fn step_target(&self, s: Step) -> NodeId {
        if s.forward { self.edge_of(s.edge).to } else { self.edge_of(s.edge).from }
    }

    /// Walks `steps` from `cur` along judgment `Equal` edges: the node reached, or the
    /// first failure (a handle naming no edge, or a step that does not fit).
    pub open spec fn eq_walk(&self, cur: NodeId, steps: Seq<Step>) -> Result<NodeId, MetisError>
        decreases steps.len(),
    {
        if steps.len() == 0 {
            Ok(cur)
        } else if !self.has_edge(steps[0].edge) {
            Err(edge_handle_error(steps[0].edge))
        } else if !self.step_ok(cur, steps[0]) {
            Err(MetisError::ProofInvalid)
        } else {
            self.eq_walk(self.step_target(steps[0]), steps.drop_first())
        }
    }

    /// `steps` is an undirected path of judgment `Equal` edges from `a` to `b`.
    pub open spec fn is_equal_path(&self, a: NodeId, b: NodeId, steps: Seq<Step>) -> bool {
        self.eq_walk(a, steps) == Ok::<NodeId, MetisError>(b)
    }

    /// Extending an `Equal` path by one fitting step.
    pub proof fn lemma_eq_walk_push(&self, a: NodeId, c: NodeId, p: Seq<Step>, s: Step)
        requires
            self.is_equal_path(a, c, p),
            self.step_ok(c, s),
        ensures
            self.is_equal_path(a, self.step_target(s), p.push(s)),
        decreases p.len(),
    {
        if p.len() == 0 {
            assert(a == c);
            assert(p.push(s).drop_first() == Seq::<Step>::empty());
            assert(p.push(s)[0] == s);
            assert(self.eq_walk(self.step_target(s), Seq::<Step>::empty()) == Ok::<NodeId, MetisError>(
                self.step_target(s)));
        } else {
            assert(p.push(s)[0] == p[0]);
            assert(p.push(s).drop_first() == p.drop_first().push(s));
            self.lemma_eq_walk_push(self.step_target(p[0]), c, p.drop_first(), s);
        }
    }

    /// Some undirected `Equal` path joins `a` to `b`.
    pub open spec fn equal_connected(&self, a: NodeId, b: NodeId) -> bool {
        exists|steps: Seq<Step>| self.is_equal_path(a, b, steps)
    }

    /// Forward `Equal` steps read off a judgment list, in list order.
    pub open spec fn fwd_equal_steps(js: Seq<Out>) -> Seq<(Step, NodeId)>
        decreases js.len(),
    {
        if js.len() == 0 {
            Seq::empty()
        } else {
            let prev = Self::fwd_equal_steps(js.drop_last());
            let o = js.last();
            if o.1 == EdgeKind::Equal {
                prev.push((Step { edge: o.0, forward: true }, o.2))
            } else {
                prev
            }
        }
    }

    /// Reverse `Equal` steps into `id` from judgment edges in slots `0..upto`, in slot order.
    pub open spec fn rev_equal_steps(&self, id: NodeId, upto: int) -> Seq<(Step, NodeId)>
        decreases upto,
    {
        if upto <= 0 {
            Seq::empty()
        } else {
            let prev = self.rev_equal_steps(id, upto - 1);
            let r = self.edge_at(upto - 1);
            if r.judgment && r.kind == EdgeKind::Equal && r.to == id {
                prev.push((Step { edge: EdgeId(upto as u32), forward: false }, r.from))
            } else {
                prev
            }
        }
    }

    /// All `Equal` steps leaving `id`: forward ones first, then reverse ones.
    pub open spec fn equal_steps_of(&self, id: NodeId) -> Seq<(Step, NodeId)> {
        Self::fwd_equal_steps(self.node_of(id).judgments) + self.rev_equal_steps(id, self.edge_len() as int)
    }

    proof fn lemma_fwd_steps_sound(&self, n: NodeId, js: Seq<Out>, j: int)
        requires
            self.outs_valid(n, js, true),
            0 <= j < Self::fwd_equal_steps(js).len(),
        ensures
            ({
                let (s, t) = Self::fwd_equal_steps(js)[j];
                self.step_ok(n, s) && self.step_target(s) == t
            }),
        decreases js.len(),
    {
        let prev = Self::fwd_equal_steps(js.drop_last());
        assert(self.outs_valid(n, js.drop_last(), true)) by {
            assert forall|k: int| 0 <= k < js.drop_last().len() implies {
                let o = #[trigger] js.drop_last()[k];
                &&& self.has_edge(o.0)
                &&& self.edge_of(o.0) == (EdgeRec { from: n, to: o.2, kind: o.1, judgment: true })
            } by {
                assert(js.drop_last()[k] == js[k]);
            }
        }
        if j < prev.len() {
            self.lemma_fwd_steps_sound(n, js.drop_last(), j);
        } else {
            assert(js.last() == js[js.len() - 1]);
        }
    }

    proof fn lemma_fwd_steps_complete(js: Seq<Out>, k: int)
        requires
            0 <= k < js.len(),
            js[k].1 == EdgeKind::Equal,
        ensures
            Self::fwd_equal_steps(js).contains((Step { edge: js[k].0, forward: true }, js[k].2)),
        decreases js.len(),
    {
        let prev = Self::fwd_equal_steps(js.drop_last());
        if k == js.len() - 1 {
            let fs = Self::fwd_equal_steps(js);
            assert(fs[fs.len() - 1] == (Step { edge: js[k].0, forward: true }, js[k].2));
        } else {
            assert(js.drop_last()[k] == js[k]);
            Self::lemma_fwd_steps_complete(js.drop_last(), k);
            let x = (Step { edge: js[k].0, forward: true }, js[k].2);
            let i = choose|i: int| 0 <= i < prev.len() && prev[i] == x;
            assert(Self::fwd_equal_steps(js)[i] == x);
        }
    }

    proof fn lemma_rev_steps_sound(&self, id: NodeId, upto: int, j: int)
        requires
            self.wf(),
            0 <= upto <= self.edge_len(),
            0 <= j < self.rev_equal_steps(id, upto).len(),
        ensures
            ({
                let (s, t) = self.rev_equal_steps(id, upto)[j];
                self.step_ok(id, s) && self.step_target(s) == t
            }),
        decreases upto,
    {
        let prev = self.rev_equal_steps(id, upto - 1);
        if j < prev.len() {
            self.lemma_rev_steps_sound(id, upto - 1, j);
        } else {
            assert(EdgeId(upto as u32).0 == upto);
        }
    }

    proof fn lemma_rev_steps_complete(&self, id: NodeId, upto: int, k: int)
        requires
            0 <= k < upto,
            upto <= self.edge_len() <= u32::MAX,
            self.edge_at(k).judgment,
            self.edge_at(k).kind == EdgeKind::Equal,
            self.edge_at(k).to == id,
        ensures
            self.rev_equal_steps(id, upto).contains((Step { edge: EdgeId((k + 1) as u32), forward: false },
                self.edge_at(k).from)),
        decreases upto,
    {
        let prev = self.rev_equal_steps(id, upto - 1);
        let x = (Step { edge: EdgeId((k + 1) as u32), forward: false }, self.edge_at(k).from);
        if k == upto - 1 {
            let rs = self.rev_equal_steps(id, upto);
            assert(rs[rs.len() - 1] == x);
        } else {
            self.lemma_rev_steps_complete(id, upto - 1, k);
            let i = choose|i: int| 0 <= i < prev.len() && prev[i] == x;
            assert(self.rev_equal_steps(id, upto)[i] == x);
        }
    }

    /// Every valid `Equal` step leaving `cur` is listed by `equal_steps_of(cur)`, and every
    /// listed step is valid.
    proof fn lemma_equal_steps_exact(&self, cur: NodeId)
        requires
            self.wf(),
            self.has_node(cur),
        ensures
            forall|j: int| 0 <= j < self.equal_steps_of(cur).len() ==> {
                let (s, t) = #[trigger] self.equal_steps_of(cur)[j];
                self.step_ok(cur, s) && self.step_target(s) == t && self.has_node(t)
            },
            forall|s: Step| #[trigger] self.step_ok(cur, s) ==> self.equal_steps_of(cur).contains(
                (s, self.step_target(s))),
    {
        self.lemma_well_formed();
        let fw = Self::fwd_equal_steps(self.node_of(cur).judgments);
        let rv = self.rev_equal_steps(cur, self.edge_len() as int);
        assert forall|j: int| 0 <= j < self.equal_steps_of(cur).len() implies {
            let (s, t) = #[trigger] self.equal_steps_of(cur)[j];
            self.step_ok(cur, s) && self.step_target(s) == t && self.has_node(t)
        } by {
            if j < fw.len() {
                self.lemma_fwd_steps_sound(cur, self.node_of(cur).judgments, j);
                assert(self.equal_steps_of(cur)[j] == fw[j]);
            } else {
                self.lemma_rev_steps_sound(cur, self.edge_len() as int, j - fw.len());
                assert(self.equal_steps_of(cur)[j] == rv[j - fw.len()]);
            }
            let (s, t) = self.equal_steps_of(cur)[j];
            assert(self.has_edge(s.edge));
        }
        assert forall|s: Step| #[trigger] self.step_ok(cur, s) implies self.equal_steps_of(cur).contains(
            (s, self.step_target(s))) by {
            let r = self.edge_of(s.edge);
            let x = (s, self.step_target(s));
            if s.forward {
                let o = (s.edge, r.kind, r.to);
                assert(self.node_of(cur).judgments.contains(o));
                let k = choose|k: int| 0 <= k < self.node_of(cur).judgments.len()
                    && self.node_of(cur).judgments[k] == o;
                Self::lemma_fwd_steps_complete(self.node_of(cur).judgments, k);
                let i = choose|i: int| 0 <= i < fw.len() && fw[i] == x;
                assert(self.equal_steps_of(cur)[i] == x);
            } else {
                self.lemma_rev_steps_complete(cur, self.edge_len() as int, s.edge.0 - 1);
                assert(EdgeId(((s.edge.0 - 1) + 1) as u32) == s.edge);
                let i = choose|i: int| 0 <= i < rv.len() && rv[i] == x;
                assert(self.equal_steps_of(cur)[fw.len() + i] == x);
            }
        }
    }

    /// Undirected adjacency via judgment `Equal` edges (for EQ theory).
    pub fn equal_steps(&self, id: NodeId) -> (r: Result<Vec<(Step, NodeId)>, MetisError>)
        ensures
            self.has_node(id) ==> (r matches Ok(v) && v@ == self.equal_steps_of(id)),
            !self.has_node(id) ==> r == Err::<Vec<(Step, NodeId)>, MetisError>(node_handle_error(id)),
            self.has_node(id) ==> forall|j: int| 0 <= j < self.equal_steps_of(id).len() ==> {
                let (s, t) = #[trigger] self.equal_steps_of(id)[j];
                self.step_ok(id, s) && self.step_target(s) == t && self.has_node(t)
            },
            self.has_node(id) ==> forall|s: Step| #[trigger] self.step_ok(id, s)
                ==> self.equal_steps_of(id).contains((s, self.step_target(s))),
    {
        proof {
            use_type_invariant(self);
        }
        let slot = self.node_slot(id)?;
        proof {
            self.lemma_equal_steps_exact(id);
        }
        let mut out: Vec<(Step, NodeId)> = Vec::new();
        let js = self.judgment_outgoing(id)?;
        let mut i: usize = 0;
        while i < js.len()
            invariant
                i <= js@.len(),
                out@ == Self::fwd_equal_steps(js@.take(i as int)),
            decreases js.len() - i,
        {
            let (eid, kind, nxt) = js[i];
            if kind == EdgeKind::Equal {
                out.push((Step { edge: eid, forward: true }, nxt));
            }
            i = i + 1;
            proof {
                assert(js@.take(i as int).drop_last() == js@.take(i - 1));
            }
        }
        proof {
            assert(js@.take(js@.len() as int) == js@);
        }
        let ghost fw = out@;
        // Reverse Equal: scan all judgment edges ending at `id`.
        let mut slot_e: usize = 0;
        while slot_e < self.edges.len()
            invariant
                self.wf(),
                slot_e <= self.edges@.len(),
                out@ == fw + self.rev_equal_steps(id, slot_e as int),
            decreases self.edges.len() - slot_e,
        {
            let rec = self.edges[slot_e];
            if rec.judgment && rec.kind == EdgeKind::Equal && rec.to == id {
                out.push((Step { edge: EdgeId((slot_e + 1) as u32), forward: false }, rec.from));
            }
            slot_e = slot_e + 1;
            proof {
                assert(self.edge_at(slot_e - 1) == rec);
            }
        }
        Ok(out)
    }

    /// Search an undirected `Equal` path (symmetry + transitivity of edge composition).
    pub fn find_equal_path(&self, from: NodeId, to: NodeId) -> (r: Result<Option<Vec<Step>>, MetisError>)
        ensures
            !self.has_node(from) ==> r == Err::<Option<Vec<Step>>, MetisError>(node_handle_error(from)),
            self.has_node(from) && !self.has_node(to) ==> r == Err::<Option<Vec<Step>>, MetisError>(
                node_handle_error(to)),
            self.has_node(from) && self.has_node(to) ==> (r matches Ok(o) && (o is None <==> !self.equal_connected(
                from, to)) && (o matches Some(p) ==> self.is_shortest_equal_path(from, to, p@))),
    {
        proof {
            use_type_invariant(self);
            self.lemma_well_formed();
        }
        let _ = self.node_slot(from)?;
        let _ = self.node_slot(to)?;
        if from == to {
            let p: Vec<Step> = Vec::new();
            proof {
                assert(self.is_equal_path(from, to, p@));
                assert(self.is_shortest_equal_path(from, to, p@));
            }
            return Ok(Some(p));
        }
        let n = self.nodes.len();
        let mut seen: Vec<bool> = Vec::new();
        let mut paths: Vec<Vec<Step>> = Vec::new();
        let mut i: usize = 0;
        while i < n
            invariant
                n == self.nodes@.len(),
                i <= n,
                seen@.len() == i,
                paths@.len() == i,
                forall|k: int| 0 <= k < i ==> !(#[trigger] seen@[k]),
                forall|k: int| 0 <= k < i ==> (#[trigger] paths@[k])@.len() == 0,
            decreases n - i,
        {
            seen.push(false);
            paths.push(Vec::new());
            i = i + 1;
        }
        let fs = (from.0 - 1) as usize;
        let ghost unset = seen@;
        seen[fs] = true;
        proof {
            lemma_count_unseen_all(seen@, n as int);
        }
        let mut queue: Vec<NodeId> = Vec::new();
        queue.push(from);
        proof {
            assert forall|x: int| 0 <= x < n && #[trigger] seen@[x] implies x == fs by {
                if x != fs {
                    assert(!unset[x]);
                }
            }
            assert(queue@[0].0 == fs + 1);
            assert(NodeId((fs + 1) as u32) == from);
            assert(paths@[fs as int]@ =~= Seq::<Step>::empty());
            assert(self.is_equal_path(from, from, Seq::<Step>::empty()));
            assert(path_len_at(paths@, from) == 0);
            assert(bfs_ordered(queue@, paths@, 0));
            assert forall|w: NodeId, q: Seq<Step>| #[trigger] self.is_equal_path(from, w, q) && self.has_node(w)
                && seen@[w.0 - 1] implies path_len_at(paths@, w) <= q.len() by {
                assert(w.0 - 1 == fs);
            }
        }
        let mut head: usize = 0;
        while head < queue.len()
            invariant
                self.wf(),
                n == self.nodes@.len(),
                self.has_node(from),
                self.has_node(to),
                from != to,
                seen@.len() == n,
                paths@.len() == n,
                head <= queue@.len(),
                count_unseen(seen@) + queue@.len() == n,
                seen@[from.0 - 1],
                !seen@[to.0 - 1],
                forall|k: int| 0 <= k < queue@.len() ==> self.has_node(#[trigger] queue@[k]) && seen@[queue@[k].0 - 1],
                forall|x: int| 0 <= x < n && #[trigger] seen@[x] ==> exists|k: int| 0 <= k < queue@.len() && (#[trigger] queue@[k]).0 == x + 1,
                forall|x: int| 0 <= x < n && #[trigger] seen@[x] ==> self.is_equal_path(from, NodeId((x + 1) as u32), paths@[x]@),
                forall|k: int, j: int| 0 <= k < head && 0 <= j < self.equal_steps_of(queue@[k]).len()
                    ==> seen@[#[trigger] self.equal_steps_of(queue@[k])[j].1.0 - 1],
                queue@.len() > 0,
                queue@[0] == from,
                path_len_at(paths@, from) == 0,
                bfs_ordered(queue@, paths@, head as int),
                self.paths_optimal(from, seen@, paths@),
                head < queue@.len() ==> self.layer_expanded(from, queue@, head as int, path_len_at(
                    paths@,
                    queue@[head as int],
                )),
            decreases n - head,
        {
            let cur = queue[head];
            let steps = self.equal_steps(cur)?;
            proof {
                lemma_count_unseen_bound(seen@);
            }
            let mut j: usize = 0;
            while j < steps.len()
                invariant
                    self.wf(),
                    n == self.nodes@.len(),
                    self.has_node(from),
                    self.has_node(to),
                    from != to,
                    self.has_node(cur),
                    cur == queue@[head as int],
                    steps@ == self.equal_steps_of(cur),
                    forall|j2: int| 0 <= j2 < self.equal_steps_of(cur).len() ==> {
                        let (s, t) = #[trigger] self.equal_steps_of(cur)[j2];
                        self.step_ok(cur, s) && self.step_target(s) == t && self.has_node(t)
                    },
                    j <= steps@.len(),
                    seen@.len() == n,
                    paths@.len() == n,
                    head < queue@.len(),
                    count_unseen(seen@) + queue@.len() == n,
                    seen@[from.0 - 1],
                    !seen@[to.0 - 1],
                    forall|k: int| 0 <= k < queue@.len() ==> self.has_node(#[trigger] queue@[k]) && seen@[queue@[k].0 - 1],
                    forall|x: int| 0 <= x < n && #[trigger] seen@[x] ==> exists|k: int| 0 <= k < queue@.len() && (#[trigger] queue@[k]).0 == x + 1,
                    forall|x: int| 0 <= x < n && #[trigger] seen@[x] ==> self.is_equal_path(from, NodeId((x + 1) as u32), paths@[x]@),
                    forall|k: int, j2: int| 0 <= k < head && 0 <= j2 < self.equal_steps_of(queue@[k]).len()
                        ==> seen@[#[trigger] self.equal_steps_of(queue@[k])[j2].1.0 - 1],
                    forall|j2: int| 0 <= j2 < j ==> seen@[#[trigger] steps@[j2].1.0 - 1],
                    queue@.len() > 0,
                    queue@[0] == from,
                    path_len_at(paths@, from) == 0,
                    bfs_ordered(queue@, paths@, head as int),
                    self.paths_optimal(from, seen@, paths@),
                    self.layer_expanded(from, queue@, head as int, path_len_at(paths@, cur)),
                decreases steps.len() - j,
            {
                let (step, nxt) = steps[j];
                proof {
                    assert(steps@[j as int] == self.equal_steps_of(cur)[j as int]);
                }
                let s = (nxt.0 - 1) as usize;
                if !seen[s] {
                    let ghost old_seen = seen@;
                    let ghost old_queue = queue@;
                    let cs = (cur.0 - 1) as usize;
                    let mut p = copy_steps(&paths[cs]);
                    p.push(step);
                    let ghost old_paths = paths@;
                    let ghost lvl = path_len_at(paths@, cur);
                    proof {
                        assert(NodeId(((cur.0 - 1) + 1) as u32) == cur);
                        self.lemma_eq_walk_push(from, cur, paths@[cs as int]@, step);
                        assert(self.is_equal_path(from, nxt, p@));
                        lemma_count_unseen_set(seen@, s as int);
                        assert(NodeId(((nxt.0 - 1) + 1) as u32) == nxt);
                        self.lemma_unseen_is_far(seen@, queue@, head as int, from, lvl, nxt);
                        assert(p@.len() == lvl + 1);
                    }
                    seen[s] = true;
                    if nxt == to {
                        return Ok(Some(p));
                    }
                    paths[s] = p;
                    queue.push(nxt);
                    proof {
                        assert(path_len_at(paths@, nxt) == lvl + 1);
                        assert forall|x: NodeId| #[trigger] old_seen[x.0 - 1] && self.has_node(x) implies path_len_at(paths@, x)
                            == path_len_at(old_paths, x) by {
                            assert(x.0 - 1 != s);
                        }
                        assert(path_len_at(paths@, from) == 0);
                        assert forall|k1: int, k2: int|
                            #![trigger queue@[k1], queue@[k2]]
                            0 <= k1 <= k2 < queue@.len() implies path_len_at(paths@, queue@[k1]) <= path_len_at(paths@, queue@[k2]) by {
                            if k2 < old_queue.len() {
                                assert(queue@[k1] == old_queue[k1]);
                                assert(queue@[k2] == old_queue[k2]);
                                assert(old_seen[old_queue[k1].0 - 1]);
                                assert(old_seen[old_queue[k2].0 - 1]);
                            } else if k1 < old_queue.len() {
                                assert(queue@[k1] == old_queue[k1]);
                                assert(old_seen[old_queue[k1].0 - 1]);
                                if k1 <= head {
                                    assert(path_len_at(old_paths, old_queue[k1]) <= path_len_at(old_paths, old_queue[head as int]));
                                }
                            }
                        }
                        assert forall|k: int| head <= k < queue@.len() implies path_len_at(paths@, #[trigger] queue@[k])
                            <= path_len_at(paths@, queue@[head as int]) + 1 by {
                            if k < old_queue.len() {
                                assert(queue@[k] == old_queue[k]);
                                assert(old_seen[old_queue[k].0 - 1]);
                            }
                        }
                        assert forall|w: NodeId, q: Seq<Step>| #[trigger] self.is_equal_path(from, w, q) && self.has_node(w)
                            && seen@[w.0 - 1] implies path_len_at(paths@, w) <= q.len() by {
                            if w.0 - 1 != s {
                                assert(old_seen[w.0 - 1]);
                            } else {
                                assert(w == nxt);
                            }
                        }
                        assert forall|w: NodeId, q: Seq<Step>| #[trigger] self.is_equal_path(from, w, q) && q.len()
                            < path_len_at(paths@, cur) implies exists|k: int| 0 <= k < head && queue@[k] == w by {
                            let k = choose|k: int| 0 <= k < head && old_queue[k] == w;
                            assert(queue@[k] == old_queue[k]);
                        }
                        assert forall|x: int| 0 <= x < n && #[trigger] seen@[x] implies exists|k: int| 0 <= k < queue@.len() && (#[trigger] queue@[k]).0 == x + 1 by {
                            if x == s {
                                assert(queue@[old_queue.len() as int].0 == x + 1);
                            } else {
                                assert(old_seen[x]);
                                let k = choose|k: int| 0 <= k < old_queue.len() && (#[trigger] old_queue[k]).0 == x + 1;
                                assert(queue@[k] == old_queue[k]);
                            }
                        }
                        assert forall|x: int| 0 <= x < n && #[trigger] seen@[x] implies self.is_equal_path(from, NodeId((x + 1) as u32), paths@[x]@) by {
                            if x == s {
                                assert(NodeId((x + 1) as u32) == nxt);
                            } else {
                                assert(old_seen[x]);
                            }
                        }
                        assert forall|k: int, j2: int| 0 <= k < head && 0 <= j2 < self.equal_steps_of(queue@[k]).len()
                            implies seen@[#[trigger] self.equal_steps_of(queue@[k])[j2].1.0 - 1] by {
                            assert(queue@[k] == old_queue[k]);
                            self.lemma_equal_steps_exact(old_queue[k]);
                            assert(old_seen[self.equal_steps_of(old_queue[k])[j2].1.0 - 1]);
                        }
                    }
                }
                j = j + 1;
            }
            head = head + 1;
            proof {
                if head < queue@.len() {
                    self.lemma_layer_advance(seen@, queue@, head - 1, from, paths@);
                }
                assert forall|k: int, j2: int| 0 <= k < head && 0 <= j2 < self.equal_steps_of(queue@[k]).len()
                    implies seen@[#[trigger] self.equal_steps_of(queue@[k])[j2].1.0 - 1] by {
                    if k == head - 1 {
                        assert(steps@[j2] == self.equal_steps_of(queue@[k])[j2]);
                    }
                }
            }
        }
        proof {
            if self.equal_connected(from, to) {
                let p = choose|p: Seq<Step>| self.is_equal_path(from, to, p);
                self.lemma_closed_eq_walk(seen@, queue@, from, to, p);
            }
        }
        Ok(None)
    }

    /// Equal-walks from a set closed under listed `Equal` steps stay in it.
    /// The last step of a non-empty `Equal` path leaves the end of its prefix.
    proof fn lemma_eq_walk_last(&self, a: NodeId, b: NodeId, q: Seq<Step>) -> (u: NodeId)
        requires
            self.is_equal_path(a, b, q),
            q.len() > 0,
        ensures
            self.is_equal_path(a, u, q.drop_last()),
            self.step_ok(u, q.last()),
            self.step_target(q.last()) == b,
        decreases q.len(),
    {
        if q.len() == 1 {
            assert(q.drop_last() =~= Seq::<Step>::empty());
            assert(q.drop_first() =~= Seq::<Step>::empty());
            assert(q.last() == q[0]);
            assert(self.eq_walk(self.step_target(q[0]), q.drop_first()) == Ok::<NodeId, MetisError>(
                self.step_target(q[0])));
            a
        } else {
            let t = self.step_target(q[0]);
            let u = self.lemma_eq_walk_last(t, b, q.drop_first());
            assert(q.drop_first().drop_last() =~= q.drop_last().drop_first());
            assert(q.drop_first().last() == q.last());
            assert(q.drop_last()[0] == q[0]);
            u
        }
    }

    /// A node not yet seen, while every node nearer than `lvl` has been
    /// expanded, lies farther than `lvl` from `from`.
    proof fn lemma_unseen_is_far(
        &self,
        seen: Seq<bool>,
        queue: Seq<NodeId>,
        head: int,
        from: NodeId,
        lvl: nat,
        y: NodeId,
    )
        requires
            self.wf(),
            seen.len() == self.nodes@.len(),
            0 <= head <= queue.len(),
            forall|k: int| 0 <= k < queue.len() ==> self.has_node(#[trigger] queue[k]),
            forall|k: int, j: int| 0 <= k < head && 0 <= j < self.equal_steps_of(queue[k]).len()
                ==> seen[#[trigger] self.equal_steps_of(queue[k])[j].1.0 - 1],
            self.layer_expanded(from, queue, head, lvl),
            self.has_node(from),
            seen[from.0 - 1],
            self.has_node(y),
            !seen[y.0 - 1],
        ensures
            forall|q: Seq<Step>| #[trigger] self.is_equal_path(from, y, q) ==> q.len() > lvl,
    {
        assert forall|q: Seq<Step>| #[trigger] self.is_equal_path(from, y, q) implies q.len() > lvl by {
            if q.len() <= lvl {
                if q.len() == 0 {
                    assert(y == from);
                } else {
                    let u = self.lemma_eq_walk_last(from, y, q);
                    assert(self.is_equal_path(from, u, q.drop_last()));
                    let k = choose|k: int| 0 <= k < head && queue[k] == u;
                    self.lemma_equal_steps_exact(u);
                    let t = (q.last(), y);
                    assert(self.equal_steps_of(u).contains(t));
                    let j = choose|j: int| 0 <= j < self.equal_steps_of(u).len() && self.equal_steps_of(u)[j] == t;
                    assert(seen[self.equal_steps_of(queue[k])[j].1.0 - 1]);
                }
            }
        }
    }

    /// `p` is an `Equal` path from `a` to `b`, and no such path is shorter.
    pub open spec fn is_shortest_equal_path(&self, a: NodeId, b: NodeId, p: Seq<Step>) -> bool {
        &&& self.is_equal_path(a, b, p)
        &&& forall|q: Seq<Step>| #[trigger] self.is_equal_path(a, b, q) ==> p.len() <= q.len()
    }

    /// Every node joined to `from` by an `Equal` path shorter than `lvl` sits
    /// before `head` in the queue.
    spec fn layer_expanded(&self, from: NodeId, queue: Seq<NodeId>, head: int, lvl: nat) -> bool {
        forall|w: NodeId, q: Seq<Step>| #[trigger] self.is_equal_path(from, w, q) && q.len() < lvl
            ==> exists|k: int| 0 <= k < head && queue[k] == w
    }

    /// The path recorded for each seen node is a shortest one.
    spec fn paths_optimal(&self, from: NodeId, seen: Seq<bool>, paths: Seq<Vec<Step>>) -> bool {
        forall|w: NodeId, q: Seq<Step>| #[trigger] self.is_equal_path(from, w, q) && self.has_node(w) && seen[w.0 - 1]
            ==> path_len_at(paths, w) <= q.len()
    }

    /// Moving `head` past a fully expanded node keeps the layer property.
    proof fn lemma_layer_advance(
        &self,
        seen: Seq<bool>,
        queue: Seq<NodeId>,
        head: int,
        from: NodeId,
        paths: Seq<Vec<Step>>,
    )
        requires
            self.wf(),
            seen.len() == self.nodes@.len(),
            paths.len() == self.nodes@.len(),
            0 <= head && head + 1 < queue.len(),
            queue[0] == from,
            self.has_node(from),
            path_len_at(paths, from) == 0,
            forall|k: int| 0 <= k < queue.len() ==> self.has_node(#[trigger] queue[k]) && seen[queue[k].0 - 1],
            forall|x: int| 0 <= x < seen.len() && #[trigger] seen[x] ==> exists|k: int| 0 <= k < queue.len() && (#[trigger] queue[k]).0 == x + 1,
            forall|k: int, j: int| 0 <= k < head + 1 && 0 <= j < self.equal_steps_of(queue[k]).len()
                ==> seen[#[trigger] self.equal_steps_of(queue[k])[j].1.0 - 1],
            bfs_ordered(queue, paths, head),
            self.paths_optimal(from, seen, paths),
            self.layer_expanded(from, queue, head, path_len_at(paths, queue[head])),
        ensures
            bfs_ordered(queue, paths, head + 1),
            self.layer_expanded(from, queue, head + 1, path_len_at(paths, queue[head + 1])),
    {
        let lvl = path_len_at(paths, queue[head]);
        let lvl2 = path_len_at(paths, queue[head + 1]);
        assert(lvl <= lvl2 <= lvl + 1);
        assert forall|w: NodeId, q: Seq<Step>| #[trigger] self.is_equal_path(from, w, q) && q.len() < lvl2
            implies exists|k: int| 0 <= k < head + 1 && queue[k] == w by {
            if q.len() < lvl {
                let k = choose|k: int| 0 <= k < head && queue[k] == w;
                assert(0 <= k < head + 1 && queue[k] == w);
            } else if q.len() == 0 {
                assert(w == from);
                assert(queue[0] == w);
            } else {
                let u = self.lemma_eq_walk_last(from, w, q);
                let k = choose|k: int| 0 <= k < head && queue[k] == u;
                self.lemma_equal_steps_exact(u);
                let t = (q.last(), w);
                let j = choose|j: int| 0 <= j < self.equal_steps_of(u).len() && self.equal_steps_of(u)[j] == t;
                assert(seen[self.equal_steps_of(queue[k])[j].1.0 - 1]);
                assert(self.has_node(w));
                let m = choose|m: int| 0 <= m < queue.len() && (#[trigger] queue[m]).0 == (w.0 - 1) + 1;
                assert(queue[m] == w);
                assert(path_len_at(paths, w) <= q.len());
                if m >= head + 1 {
                    assert(path_len_at(paths, queue[head + 1]) <= path_len_at(paths, queue[m]));
                }
                assert(0 <= m < head + 1 && queue[m] == w);
            }
        }
    }

    proof fn lemma_closed_eq_walk(&self, seen: Seq<bool>, queue: Seq<NodeId>, a: NodeId, b: NodeId, p: Seq<Step>)
        requires
            self.wf(),
            seen.len() == self.nodes@.len(),
            forall|k: int| 0 <= k < queue.len() ==> self.has_node(#[trigger] queue[k]),
            forall|x: int| 0 <= x < seen.len() && #[trigger] seen[x] ==> exists|k: int| 0 <= k < queue.len() && (#[trigger] queue[k]).0 == x + 1,
            forall|k: int, j: int| 0 <= k < queue.len() && 0 <= j < self.equal_steps_of(queue[k]).len()
                ==> seen[#[trigger] self.equal_steps_of(queue[k])[j].1.0 - 1],
            self.has_node(a),
            seen[a.0 - 1],
            self.is_equal_path(a, b, p),
        ensures
            self.has_node(b),
            seen[b.0 - 1],
        decreases p.len(),
    {
        if p.len() > 0 {
            let s = p[0];
            let k = choose|k: int| 0 <= k < queue.len() && (#[trigger] queue[k]).0 == (a.0 - 1) + 1;
            assert(queue[k] == a);
            self.lemma_equal_steps_exact(a);
            let t = (s, self.step_target(s));
            let j = choose|j: int| 0 <= j < self.equal_steps_of(a).len() && self.equal_steps_of(a)[j] == t;
            assert(seen[self.equal_steps_of(queue[k])[j].1.0 - 1]);
            self.lemma_closed_eq_walk(seen, queue, self.step_target(s), b, p.drop_first());
        }
    }

    /// The outcome of checking `steps` as an `Equal` path from `start` to `end`.
    pub open spec fn equal_check(&self, start: NodeId, end: NodeId, steps: Seq<Step>) -> Result<(), MetisError> {
        match self.eq_walk(start, steps) {
            Err(e) => Err(e),
            Ok(x) => if x == end { Ok(()) } else { Err(MetisError::ProofInvalid) },
        }
    }

    /// Reflexivity of EQ: the empty walk joins a node to itself.
    pub proof fn law_equal_reflexive(&self, a: NodeId)
        ensures
            self.is_equal_path(a, a, Seq::<Step>::empty()),
            self.equal_connected(a, a),
    {
        assert(self.is_equal_path(a, a, Seq::<Step>::empty()));
    }

    /// Symmetry of EQ: a reversed `Equal` path (each step flipped) leads back.
    pub proof fn law_equal_symmetric(&self, a: NodeId, b: NodeId, steps: Seq<Step>)
        requires
            self.is_equal_path(a, b, steps),
        ensures
            self.is_equal_path(b, a, reversed_steps(steps)),
            self.equal_connected(b, a),
        decreases steps.len(),
    {
        if steps.len() == 0 {
            assert(self.is_equal_path(b, a, reversed_steps(steps)));
        } else {
            let s = steps[0];
            let t = self.step_target(s);
            self.law_equal_symmetric(t, b, steps.drop_first());
            let f = Step { edge: s.edge, forward: !s.forward };
            assert(self.step_ok(t, f));
            assert(self.step_target(f) == a);
            self.lemma_eq_walk_push(b, t, reversed_steps(steps.drop_first()), f);
            assert(reversed_steps(steps) == reversed_steps(steps.drop_first()).push(f));
        }
    }

    /// Transitivity of EQ: `Equal` paths compose by concatenation.
    pub proof fn law_equal_transitive(&self, a: NodeId, b: NodeId, c: NodeId, p: Seq<Step>, q: Seq<Step>)
        requires
            self.is_equal_path(a, b, p),
            self.is_equal_path(b, c, q),
        ensures
            self.is_equal_path(a, c, p + q),
            self.equal_connected(a, c),
        decreases p.len(),
    {
        if p.len() == 0 {
            assert(p + q == q);
        } else {
            assert((p + q)[0] == p[0]);
            assert((p + q).drop_first() == p.drop_first() + q);
            self.law_equal_transitive(self.step_target(p[0]), b, c, p.drop_first(), q);
        }
    }

    /// Hash-consing is extensional: once `n` is the one structural node for
    /// `outs1`, it is the cons node of every `outs2` with the same
    /// `(kind, target)` multiset, whatever its order, so interning `outs2`
    /// returns `n` and leaves the graph as it is.
    pub proof fn law_cons_extensional(&self, n: NodeId, outs1: Seq<(EdgeKind, NodeId)>, outs2: Seq<(EdgeKind, NodeId)>)
        requires
            self.is_cons_of(n, outs1),
            forall|m: NodeId| #[trigger] self.is_cons_of(m, outs1) ==> m == n,
            outs_keys(outs1).to_multiset() == outs_keys(outs2).to_multiset(),
        ensures
            self.cons_node(outs2) == Some(n),
    {
        assert(self.is_cons_of(n, outs2));
        let c = choose|m: NodeId| self.is_cons_of(m, outs2);
        assert(self.is_cons_of(c, outs1));
    }

    /// Asserting a judgment never rewrites identity: every node keeps its
    /// structural outs and its label, hence stays the cons node of the same outs.
    pub proof fn law_judgment_keeps_identity(
        &self,
        new: &Graph,
        from: NodeId,
        kind: EdgeKind,
        to: NodeId,
        n: NodeId,
        outs: Seq<(EdgeKind, NodeId)>,
    )
        requires
            self.has_node(from),
            self.appends_judgment(new, from, kind, to),
        ensures
            new.has_node(n) == self.has_node(n),
            self.has_node(n) ==> new.node_of(n).structural == self.node_of(n).structural
                && new.node_of(n).label == self.node_of(n).label,
            new.is_cons_of(n, outs) == self.is_cons_of(n, outs),
    {
        if self.has_node(n) && n != from {
            assert(new.node_at(n.0 - 1) == self.node_at(n.0 - 1));
        }
    }

    /// `kind(a, b)` is recorded in the judgment outs of `a`.
    pub open spec fn has_judgment_out(&self, a: NodeId, kind: EdgeKind, b: NodeId) -> bool {
        exists|j: int| 0 <= j < self.node_of(a).judgments.len() && (#[trigger] self.node_of(a).judgments[j]).1
            == kind && self.node_of(a).judgments[j].2 == b
    }

    /// Looking up the judgment `kind(a, b)`, where an `Equal` judgment also counts
    /// when asserted in the reverse direction. Errors name the handle that was missing.
    pub open spec fn judgment_lookup(&self, kind: EdgeKind, a: NodeId, b: NodeId) -> Result<bool, MetisError> {
        if !self.has_node(a) {
            Err(node_handle_error(a))
        } else if self.has_judgment_out(a, kind, b) {
            Ok(true)
        } else if kind == EdgeKind::Equal {
            if !self.has_node(b) {
                Err(node_handle_error(b))
            } else {
                Ok(self.has_judgment_out(b, EdgeKind::Equal, a))
            }
        } else {
            Ok(false)
        }
    }

    /// Scans the judgment outs of `a` for `kind(a, b)`.
    pub(crate) fn scan_judgment(&self, a: NodeId, kind: EdgeKind, b: NodeId) -> (r: Result<bool, MetisError>)
        ensures
            !self.has_node(a) ==> r == Err::<bool, MetisError>(node_handle_error(a)),
            self.has_node(a) ==> r == Ok::<bool, MetisError>(self.has_judgment_out(a, kind, b)),
            r == Ok::<bool, MetisError>(true) ==> self.has_node(b),
            r == Ok::<bool, MetisError>(true) && kind == EdgeKind::Equal ==> self.equal_connected(a, b)
                && self.equal_connected(b, a),
    {
        let js = self.judgment_outgoing(a)?;
        let mut i: usize = 0;
        while i < js.len()
            invariant
                self.has_node(a),
                js@ == self.node_of(a).judgments,
                self.outs_valid(a, js@, true),
                forall|j: int| 0 <= j < js@.len() ==> self.has_node(#[trigger] js@[j].2),
                i <= js@.len(),
                forall|k: int| 0 <= k < i ==> !((#[trigger] js@[k]).1 == kind && js@[k].2 == b),
            decreases js.len() - i,
        {
            let (eid, k, nxt) = js[i];
            if k == kind && nxt == b && self.is_judgment(eid)? {
                proof {
                    if kind == EdgeKind::Equal {
                        let fwd = Step { edge: eid, forward: true };
                        let back = Step { edge: eid, forward: false };
                        assert(self.edge_of(eid) == EdgeRec { from: a, to: b, kind, judgment: true });
                        self.law_equal_reflexive(a);
                        self.law_equal_reflexive(b);
                        self.lemma_eq_walk_push(a, a, Seq::empty(), fwd);
                        self.lemma_eq_walk_push(b, b, Seq::empty(), back);
                    }
                }
                return Ok(true);
            }
            i = i + 1;
        }
        Ok(false)
    }

    /// Number of nodes.
    pub fn node_count(&self) -> (r: usize)
        ensures
            r == self.node_len(),
            r <= u32::MAX,
    {
        proof {
            use_type_invariant(self);
            self.lemma_well_formed();
        }
        self.nodes.len()
    }

    /// Number of edges (structural and judgment).
    pub fn edge_count(&self) -> (r: usize)
        ensures
            r == self.edge_len(),
            r <= u32::MAX,
    {
        proof {
            use_type_invariant(self);
            self.lemma_well_formed();
        }
        self.edges.len()
    }

    /// Endpoints and kind of an edge.
    pub fn edge(&self, id: EdgeId) -> (r: Result<(NodeId, EdgeKind, NodeId), MetisError>)
        ensures
            self.has_edge(id) ==> r == Ok::<(NodeId, EdgeKind, NodeId), MetisError>(
                (self.edge_of(id).from, self.edge_of(id).kind, self.edge_of(id).to)),
            self.has_edge(id) ==> self.has_node(self.edge_of(id).from) && self.has_node(
                self.edge_of(id).to),
            !self.has_edge(id) ==> r == Err::<(NodeId, EdgeKind, NodeId), MetisError>(
                edge_handle_error(id)),
    {
        proof {
            use_type_invariant(self);
            self.lemma_well_formed();
        }
        let slot = self.edge_slot(id)?;
        let rec = self.edges[slot];
        Ok((rec.from, rec.kind, rec.to))
    }

    /// Whether an edge is a judgment (asserted fact) rather than structural.
    pub fn is_judgment(&self, id: EdgeId) -> (r: Result<bool, MetisError>)
        ensures
            self.has_edge(id) ==> r == Ok::<bool, MetisError>(self.edge_of(id).judgment),
            !self.has_edge(id) ==> r == Err::<bool, MetisError>(edge_handle_error(id)),
    {
        let slot = self.edge_slot(id)?;
        Ok(self.edges[slot].judgment)
    }

    /// Structural outgoing edges only.
    pub fn structural_outgoing(&self, id: NodeId) -> (r: Result<Vec<Out>, MetisError>)
        ensures
            self.has_node(id) ==> (r matches Ok(v) && v@ == self.node_of(id).structural),
            self.has_node(id) ==> self.outs_valid(id, self.node_of(id).structural, false),
            !self.has_node(id) ==> r == Err::<Vec<Out>, MetisError>(node_handle_error(id)),
    {
        proof {
            use_type_invariant(self);
            self.lemma_well_formed();
        }
        let slot = self.node_slot(id)?;
        Ok(copy_outs(&self.nodes[slot].structural))
    }

    /// Judgment outgoing edges only.
    pub fn judgment_outgoing(&self, id: NodeId) -> (r: Result<Vec<Out>, MetisError>)
        ensures
            self.has_node(id) ==> (r matches Ok(v) && v@ == self.node_of(id).judgments),
            self.has_node(id) ==> self.outs_valid(id, self.node_of(id).judgments, true),
            self.has_node(id) ==> forall|j: int| 0 <= j < self.node_of(id).judgments.len()
                ==> self.has_node(#[trigger] self.node_of(id).judgments[j].2),
            !self.has_node(id) ==> r == Err::<Vec<Out>, MetisError>(node_handle_error(id)),
    {
        proof {
            use_type_invariant(self);
            self.lemma_well_formed();
        }
        let slot = self.node_slot(id)?;
        Ok(copy_outs(&self.nodes[slot].judgments))
    }

    /// All outgoing edges (structural then judgment).
    pub fn outgoing(&self, id: NodeId) -> (r: Result<Vec<Out>, MetisError>)
        ensures
            self.has_node(id) ==> (r matches Ok(v) && v@ == self.outs_of(id)),
            !self.has_node(id) ==> r == Err::<Vec<Out>, MetisError>(node_handle_error(id)),
    {
        let mut all = self.structural_outgoing(id)?;
        let mut more = self.judgment_outgoing(id)?;
        all.append(&mut more);
        Ok(all)
    }
}

/// Element-wise copy of an out list.
fn copy_outs(v: &Vec<Out>) -> (r: Vec<Out>)
    ensures
        r@ == v@,
{
    let mut r: Vec<Out> = Vec::new();
    let mut i: usize = 0;
    while i < v.len()
        invariant
            i <= v.len(),
            r@ == v@.take(i as int),
        decreases v.len() - i,
    {
        r.push(v[i]);
        i = i + 1;
        proof {
            assert(v@.take(i as int) == v@.take(i - 1).push(v@[i - 1]));
        }
    }
    proof {
        assert(v@.take(v.len() as int) == v@);
    }
    r
}

/// Element-wise copy of a byte slice.
fn copy_bytes(v: &[u8]) -> (r: Vec<u8>)
    ensures
        r@ == v@,
{
    let mut r: Vec<u8> = Vec::new();
    let mut i: usize = 0;
    while i < v.len()
        invariant
            i <= v.len(),
            r@ == v@.take(i as int),
        decreases v.len() - i,
    {
        r.push(v[i]);
        i = i + 1;
        proof {
            assert(v@.take(i as int) == v@.take(i - 1).push(v@[i - 1]));
        }
    }
    proof {
        assert(v@.take(v.len() as int) == v@);
    }
    r
}

/// Element-wise equality of stored bytes and a byte slice.
fn bytes_eq(a: &Vec<u8>, b: &[u8]) -> (r: bool)
    ensures
        r == (a@ == b@),
{
    if a.len() != b.len() {
        return false;
    }
    let mut i: usize = 0;
    while i < a.len()
        invariant
            a.len() == b.len(),
            i <= a.len(),
            forall|k: int| 0 <= k < i ==> a@[k] == b@[k],
        decreases a.len() - i,
    {
        if a[i] != b[i] {
            return false;
        }
        i = i + 1;
    }
    proof {
        assert(a@ =~= b@);
    }
    true
}

/// Number of `false` flags.
/// Length of the path recorded for node `x`.
spec fn path_len_at<T>(paths: Seq<Vec<T>>, x: NodeId) -> nat {
    paths[x.0 - 1]@.len()
}

/// Recorded path lengths never decrease along the queue, and those not yet
/// expanded are at most one longer than the one at `head`.
spec fn bfs_ordered<T>(queue: Seq<NodeId>, paths: Seq<Vec<T>>, head: int) -> bool {
    &&& forall|k1: int, k2: int|
        #![trigger queue[k1], queue[k2]]
        0 <= k1 <= k2 < queue.len() ==> path_len_at(paths, queue[k1]) <= path_len_at(paths, queue[k2])
    &&& head < queue.len() ==> forall|k: int|
        head <= k < queue.len() ==> path_len_at(paths, #[trigger] queue[k]) <= path_len_at(paths, queue[head]) + 1
}

pub open spec fn count_unseen(s: Seq<bool>) -> nat
    decreases s.len(),
{
    if s.len() == 0 {
        0
    } else {
        count_unseen(s.drop_last()) + if s.last() { 0nat } else { 1nat }
    }
}

proof fn lemma_count_unseen_bound(s: Seq<bool>)
    ensures
        count_unseen(s) <= s.len(),
    decreases s.len(),
{
    if s.len() > 0 {
        lemma_count_unseen_bound(s.drop_last());
    }
}

/// Setting one `false` flag to `true` lowers the count by one.
proof fn lemma_count_unseen_set(s: Seq<bool>, i: int)
    requires
        0 <= i < s.len(),
        !s[i],
    ensures
        count_unseen(s.update(i, true)) + 1 == count_unseen(s),
    decreases s.len(),
{
    let t = s.update(i, true);
    if i == s.len() - 1 {
        assert(t.drop_last() == s.drop_last());
    } else {
        assert(t.drop_last() == s.drop_last().update(i, true));
        lemma_count_unseen_set(s.drop_last(), i);
    }
}

/// All-false flags count their length; one flag set leaves one less.
proof fn lemma_count_unseen_all(s: Seq<bool>, n: int)
    requires
        s.len() == n,
        exists|i: int| 0 <= i < n && s[i] && forall|k: int| 0 <= k < n && k != i ==> !#[trigger] s[k],
    ensures
        count_unseen(s) + 1 == n,
{
    let i = choose|i: int| 0 <= i < n && s[i] && forall|k: int| 0 <= k < n && k != i ==> !#[trigger] s[k];
    let f = Seq::new(n as nat, |k: int| false);
    lemma_count_unseen_false(f);
    assert(s == f.update(i, true));
    lemma_count_unseen_set(f, i);
}

proof fn lemma_count_unseen_false(s: Seq<bool>)
    requires
        forall|k: int| 0 <= k < s.len() ==> !#[trigger] s[k],
    ensures
        count_unseen(s) == s.len(),
    decreases s.len(),
{
    if s.len() > 0 {
        lemma_count_unseen_false(s.drop_last());
    }
}

/// Element-wise copy of an edge path.
fn copy_edges(v: &Vec<EdgeId>) -> (r: Vec<EdgeId>)
    ensures
        r@ == v@,
{
    let mut r: Vec<EdgeId> = Vec::new();
    let mut i: usize = 0;
    while i < v.len()
        invariant
            i <= v.len(),
            r@ == v@.take(i as int),
        decreases v.len() - i,
    {
        r.push(v[i]);
        i = i + 1;
        proof {
            assert(v@.take(i as int) == v@.take(i - 1).push(v@[i - 1]));
        }
    }
    proof {
        assert(v@.take(v.len() as int) == v@);
    }
    r
}

/// Element-wise copy of a step path.
fn copy_steps(v: &Vec<Step>) -> (r: Vec<Step>)
    ensures
        r@ == v@,
{
    let mut r: Vec<Step> = Vec::new();
    let mut i: usize = 0;
    while i < v.len()
        invariant
            i <= v.len(),
            r@ == v@.take(i as int),
        decreases v.len() - i,
    {
        r.push(v[i]);
        i = i + 1;
        proof {
            assert(v@.take(i as int) == v@.take(i - 1).push(v@[i - 1]));
        }
    }
    proof {
        assert(v@.take(v.len() as int) == v@);
    }
    r
}

impl Default for Graph {
    fn default() -> (g: Self)
        ensures
            g.node_len() == 0,
            g.edge_len() == 0,
    {
        Self::new()
    }
}

/// The steps of a walk in reverse order, each taken in the opposite direction.
pub open spec fn reversed_steps(steps: Seq<Step>) -> Seq<Step>
    decreases steps.len(),
{
    if steps.len() == 0 {
        Seq::empty()
    } else {
        reversed_steps(steps.drop_first()).push(Step { edge: steps[0].edge, forward: !steps[0].forward })
    }
}

} // verus!
