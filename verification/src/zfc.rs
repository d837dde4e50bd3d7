//! ZFC island finite fragment: empty set, atoms, finite enumeration with
//! extensional hash-consing, and pairing-intro `In` judgments.

use vstd::prelude::*;
use crate::types::{EdgeId, EdgeKind, MetisError, NodeId};
use crate::graph::{node_handle_error, EdgeRec, Graph, NodeView};

verus! {

/// Custom tag of the structural edge kind set → member (hash-cons identity of finite sets).
pub const HAS_MEMBER_TAG: u16 = 1;

/// Node handles in strictly increasing order (hence without repeats).
pub open spec fn strictly_sorted(v: Seq<NodeId>) -> bool {
    forall|i: int, j: int| 0 <= i < j < v.len() ==> (#[trigger] v[i]).0 < (#[trigger] v[j]).0
}

/// The members of a finite set listed once each, in increasing handle order.
pub open spec fn canonical_members(members: Seq<NodeId>) -> Seq<NodeId> {
    choose|v: Seq<NodeId>| strictly_sorted(v) && v.to_set() == members.to_set()
}

/// The structural outs of a finite-set node with these members.
pub open spec fn member_outs(ms: Seq<NodeId>) -> Seq<(EdgeKind, NodeId)> {
    ms.map_values(|m: NodeId| (EdgeKind::Custom(HAS_MEMBER_TAG), m))
}

/// Two increasing listings of the same set are the same listing.
pub proof fn lemma_strictly_sorted_unique(x: Seq<NodeId>, y: Seq<NodeId>)
    requires
        strictly_sorted(x),
        strictly_sorted(y),
        x.to_set() == y.to_set(),
    ensures
        x == y,
    decreases x.len(),
{
    if x.len() == 0 {
        if y.len() > 0 {
            assert(y.to_set().contains(y[0]));
            assert(!x.to_set().contains(y[0]));
        }
    } else if y.len() == 0 {
        assert(x.to_set().contains(x[0]));
        assert(!y.to_set().contains(x[0]));
    } else {
        assert(x.to_set().contains(x[0]));
        assert(y.to_set().contains(y[0]));
        assert(y.contains(x[0]));
        assert(x.contains(y[0]));
        let i = choose|i: int| 0 <= i < y.len() && y[i] == x[0];
        let j = choose|j: int| 0 <= j < x.len() && x[j] == y[0];
        if i > 0 {
            assert(y[0].0 < y[i].0);
            assert(x[0].0 <= x[j].0) by {
                if j > 0 {
                    assert(x[0].0 < x[j].0);
                }
            }
        }
        if j > 0 {
            assert(x[0].0 < x[j].0);
            assert(y[0].0 <= y[i].0) by {
                if i > 0 {
                    assert(y[0].0 < y[i].0);
                }
            }
        }
        assert(x[0] == y[0]);
        let xs = x.drop_first();
        let ys = y.drop_first();
        assert(xs.to_set() == ys.to_set()) by {
            assert forall|n: NodeId| xs.to_set().contains(n) implies ys.to_set().contains(n) by {
                let k = choose|k: int| 0 <= k < xs.len() && xs[k] == n;
                assert(x[k + 1] == n);
                assert(x.to_set().contains(n));
                let k2 = choose|k2: int| 0 <= k2 < y.len() && y[k2] == n;
                assert(n.0 > x[0].0);
                assert(k2 != 0);
                assert(ys[k2 - 1] == n);
            }
            assert forall|n: NodeId| ys.to_set().contains(n) implies xs.to_set().contains(n) by {
                let k = choose|k: int| 0 <= k < ys.len() && ys[k] == n;
                assert(y[k + 1] == n);
                assert(y.to_set().contains(n));
                let k2 = choose|k2: int| 0 <= k2 < x.len() && x[k2] == n;
                assert(n.0 > y[0].0);
                assert(k2 != 0);
                assert(xs[k2 - 1] == n);
            }
        }
        lemma_strictly_sorted_unique(xs, ys);
        assert(x == seq![x[0]] + xs);
        assert(y == seq![y[0]] + ys);
    }
}

proof fn lemma_push_to_set(s: Seq<NodeId>, x: NodeId)
    ensures
        s.push(x).to_set() == s.to_set().insert(x),
{
    assert forall|n: NodeId| s.push(x).to_set().contains(n) == s.to_set().insert(x).contains(n) by {
        if s.push(x).to_set().contains(n) {
            let k = choose|k: int| 0 <= k < s.push(x).len() && s.push(x)[k] == n;
            if k < s.len() {
                assert(s[k] == n);
            }
        }
        if s.to_set().contains(n) {
            let k = choose|k: int| 0 <= k < s.len() && s[k] == n;
            assert(s.push(x)[k] == n);
        }
        if n == x {
            assert(s.push(x)[s.len() as int] == x);
        }
    }
    assert(s.push(x).to_set() =~= s.to_set().insert(x));
}

/// Members sorted by handle with repeats removed.
fn sort_dedup(members: &[NodeId]) -> (r: Vec<NodeId>)
    ensures
        strictly_sorted(r@),
        r@.to_set() == members@.to_set(),
{
    let mut r: Vec<NodeId> = Vec::new();
    let mut i: usize = 0;
    while i < members.len()
        invariant
            i <= members.len(),
            strictly_sorted(r@),
            r@.to_set() == members@.take(i as int).to_set(),
        decreases members.len() - i,
    {
        let x = members[i];
        let mut pos: usize = 0;
        while pos < r.len() && r[pos].0 < x.0
            invariant
                pos <= r.len(),
                forall|k: int| 0 <= k < pos ==> r@[k].0 < x.0,
            decreases r.len() - pos,
        {
            pos = pos + 1;
        }
        let ghost old_r = r@;
        proof {
            assert(members@.take(i + 1) == members@.take(i as int).push(x));
            lemma_push_to_set(members@.take(i as int), x);
        }
        if pos < r.len() && r[pos].0 == x.0 {
            proof {
                assert(r@[pos as int] == x);
                assert(r@.to_set().contains(x));
                assert(r@.to_set().insert(x) == r@.to_set());
            }
        } else {
            r.insert(pos, x);
            proof {
                assert(r@ == old_r.insert(pos as int, x));
                assert forall|a: int, b: int| 0 <= a < b < r@.len() implies (#[trigger] r@[a]).0 < (#[trigger] r@[b]).0 by {
                    if b < pos {
                    } else if b == pos {
                    } else if a < pos {
                        assert(old_r[a].0 < x.0);
                        assert(x.0 < old_r[pos as int].0);
                        assert(old_r[pos as int].0 <= old_r[b - 1].0) by {
                            if pos < b - 1 {
                                assert(old_r[pos as int].0 < old_r[b - 1].0);
                            }
                        }
                    } else if a == pos {
                        assert(x.0 < old_r[pos as int].0);
                        assert(old_r[pos as int].0 <= old_r[b - 1].0) by {
                            if pos < b - 1 {
                                assert(old_r[pos as int].0 < old_r[b - 1].0);
                            }
                        }
                    } else {
                        assert(old_r[a - 1].0 < old_r[b - 1].0);
                    }
                }
                assert forall|n: NodeId| r@.to_set().contains(n) == old_r.to_set().insert(x).contains(n) by {
                    if r@.to_set().contains(n) {
                        let k = choose|k: int| 0 <= k < r@.len() && r@[k] == n;
                        if k < pos {
                            assert(old_r[k] == n);
                        } else if k > pos {
                            assert(old_r[k - 1] == n);
                        }
                    }
                    if old_r.to_set().contains(n) && n != x {
                        let k = choose|k: int| 0 <= k < old_r.len() && old_r[k] == n;
                        if k < pos {
                            assert(r@[k] == n);
                        } else {
                            assert(r@[k + 1] == n);
                        }
                    }
                    if n == x {
                        assert(r@[pos as int] == x);
                    }
                }
                assert(r@.to_set() =~= old_r.to_set().insert(x));
            }
        }
        i = i + 1;
    }
    proof {
        assert(members@.take(members.len() as int) == members@);
    }
    r
}

/// The empty set `∅` (unique empty structural node).
pub fn empty_set(graph: &mut Graph) -> (r: Result<NodeId, MetisError>)
    ensures
        old(graph).cons_node(Seq::empty()) is Some ==> r == Ok::<NodeId, MetisError>(
            old(graph).cons_node(Seq::empty())->0) && *final(graph) == *old(graph),
        old(graph).cons_node(Seq::empty()) is None && old(graph).node_len() >= u32::MAX
            ==> r == Err::<NodeId, MetisError>(MetisError::Capacity) && *final(graph) == *old(graph),
        old(graph).cons_node(Seq::empty()) is None && old(graph).node_len() < u32::MAX
            ==> r == Ok::<NodeId, MetisError>(NodeId((old(graph).node_len() + 1) as u32))
            && old(graph).appends_cons(&*final(graph), Seq::empty()),
        r matches Ok(n) ==> final(graph).is_cons_of(n, Seq::empty()) && forall|m: NodeId|
            #[trigger] final(graph).is_cons_of(m, Seq::empty()) ==> m == n,
{
    graph.intern_empty()
}

/// Urelement / atom by label.
pub fn atom(graph: &mut Graph, name: &[u8]) -> (r: Result<NodeId, MetisError>)
    ensures
        old(graph).label_node(name@) matches Some(n) ==> r == Ok::<NodeId, MetisError>(n)
            && *final(graph) == *old(graph),
        old(graph).label_node(name@) is None && old(graph).node_len() >= u32::MAX
            ==> r == Err::<NodeId, MetisError>(MetisError::Capacity) && *final(graph) == *old(graph),
        old(graph).label_node(name@) is None && old(graph).node_len() < u32::MAX
            ==> r == Ok::<NodeId, MetisError>(NodeId((old(graph).node_len() + 1) as u32))
            && old(graph).appends_node(&*final(graph),
                NodeView { structural: Seq::empty(), judgments: Seq::empty(), label: Some(name@) }),
{
    graph.intern_label(name)
}

/// `new` keeps every node's structural outs and label, and every edge, of `old`.
pub open spec fn keeps_identity(old: &Graph, new: &Graph) -> bool {
    &&& new.node_len() >= old.node_len()
    &&& new.edge_len() >= old.edge_len()
    &&& forall|i: int| 0 <= i < old.node_len() ==> (#[trigger] new.node_at(i)).structural == old.node_at(i).structural
        && new.node_at(i).label == old.node_at(i).label
    &&& forall|i: int| 0 <= i < old.edge_len() ==> #[trigger] new.edge_at(i) == old.edge_at(i)
}

/// The members of `ms` with no `In` judgment into `set` yet, in order.
pub open spec fn missing_members(g: &Graph, ms: Seq<NodeId>, set: NodeId) -> Seq<NodeId>
    decreases ms.len(),
{
    if ms.len() == 0 {
        Seq::empty()
    } else {
        let prev = missing_members(g, ms.drop_last(), set);
        if g.has_judgment_out(ms.last(), EdgeKind::In, set) {
            prev
        } else {
            prev.push(ms.last())
        }
    }
}

/// Number of members of `ms` with no `In` judgment into `set` yet.
pub open spec fn missing_memberships(g: &Graph, ms: Seq<NodeId>, set: NodeId) -> nat {
    missing_members(g, ms, set).len()
}

/// `after` is `before` with one `In` judgment into `set` added for each member
/// of `ms` that had none, in the order of `ms`, and nothing else changed.
pub open spec fn adds_memberships(before: &Graph, after: &Graph, ms: Seq<NodeId>, set: NodeId) -> bool {
    let ml = missing_members(before, ms, set);
    let e0 = before.edge_len();
    &&& after.node_len() == before.node_len()
    &&& after.edge_len() == e0 + ml.len()
    &&& forall|i: int| 0 <= i < e0 ==> #[trigger] after.edge_at(i) == before.edge_at(i)
    &&& forall|t: int| 0 <= t < ml.len() ==> #[trigger] after.edge_at(e0 + t) == (EdgeRec {
        from: ml[t],
        to: set,
        kind: EdgeKind::In,
        judgment: true,
    })
    &&& forall|x: NodeId| before.has_node(x) ==> {
        &&& (#[trigger] after.node_of(x)).structural == before.node_of(x).structural
        &&& after.node_of(x).label == before.node_of(x).label
    }
    &&& forall|x: NodeId| before.has_node(x) && !ml.contains(x) ==> (#[trigger] after.node_of(x)).judgments
        == before.node_of(x).judgments
    &&& forall|t: int| 0 <= t < ml.len() ==> (#[trigger] after.node_of(ml[t])).judgments == before.node_of(
        ml[t],
    ).judgments.push((EdgeId((e0 + t + 1) as u32), EdgeKind::In, set))
}

/// When every member already has its `In` judgment, none is missing.
pub proof fn lemma_nothing_missing(g: &Graph, ms: Seq<NodeId>, set: NodeId)
    requires
        forall|k: int| 0 <= k < ms.len() ==> g.has_judgment_out(#[trigger] ms[k], EdgeKind::In, set),
    ensures
        missing_members(g, ms, set).len() == 0,
    decreases ms.len(),
{
    if ms.len() > 0 {
        assert(g.has_judgment_out(ms[ms.len() - 1], EdgeKind::In, set));
        lemma_nothing_missing(g, ms.drop_last(), set);
    }
}

/// Members found missing are members.
proof fn lemma_missing_members_in(g: &Graph, ms: Seq<NodeId>, set: NodeId)
    ensures
        forall|t: int| 0 <= t < missing_members(g, ms, set).len() ==> ms.contains(
            #[trigger] missing_members(g, ms, set)[t],
        ),
    decreases ms.len(),
{
    if ms.len() > 0 {
        lemma_missing_members_in(g, ms.drop_last(), set);
        let prev = missing_members(g, ms.drop_last(), set);
        assert forall|t: int| 0 <= t < missing_members(g, ms, set).len() implies ms.contains(
            #[trigger] missing_members(g, ms, set)[t],
        ) by {
            if t < prev.len() {
                assert(missing_members(g, ms, set)[t] == prev[t]);
                let k = choose|k: int| 0 <= k < ms.drop_last().len() && ms.drop_last()[k] == prev[t];
                assert(ms[k] == prev[t]);
            } else {
                assert(missing_members(g, ms, set)[t] == ms.last());
                assert(ms[ms.len() - 1] == ms.last());
            }
        }
    }
}

/// Building the finite set of `members` fits the graph's handle space: a new
/// set node needs one node and, per distinct member, a structural edge and an
/// `In` judgment; an existing one needs the `In` judgments still missing.
pub open spec fn finite_set_fits(g: &Graph, members: Seq<NodeId>) -> bool {
    let ms = canonical_members(members);
    match g.cons_node(member_outs(ms)) {
        Some(s) => g.edge_len() + missing_memberships(g, ms, s) <= u32::MAX,
        None => g.node_len() < u32::MAX && g.edge_len() + 2 * ms.len() <= u32::MAX,
    }
}

proof fn lemma_missing_grow(g: &Graph, ms: Seq<NodeId>, set: NodeId, i: int, j: int)
    requires
        0 <= i <= j <= ms.len(),
    ensures
        missing_memberships(g, ms.take(i), set) <= missing_memberships(g, ms.take(j), set),
        missing_memberships(g, ms.take(j), set) <= missing_memberships(g, ms.take(i), set) + (j - i),
    decreases j - i,
{
    if i < j {
        lemma_missing_grow(g, ms, set, i, j - 1);
        assert(ms.take(j).drop_last() == ms.take(j - 1));
    }
}

/// Nobody is yet a member of a set node no judgment points at.
proof fn lemma_missing_all(g: &Graph, ms: Seq<NodeId>, set: NodeId)
    requires
        forall|k: int| 0 <= k < ms.len() ==> g.has_node(#[trigger] ms[k]),
        forall|m: NodeId, k: EdgeKind| g.has_node(m) ==> !#[trigger] g.has_judgment_out(m, k, set),
    ensures
        missing_members(g, ms, set) == ms,
        missing_memberships(g, ms, set) == ms.len(),
    decreases ms.len(),
{
    if ms.len() > 0 {
        assert(g.has_node(ms[ms.len() - 1]));
        lemma_missing_all(g, ms.drop_last(), set);
        assert(ms.drop_last().push(ms.last()) =~= ms);
    }
}

/// The node of an interning outcome (any node on failure).
spec fn set_of(r: Result<NodeId, MetisError>) -> NodeId {
    match r {
        Ok(n) => n,
        Err(_) => NodeId(0),
    }
}

/// The error for a member list naming a missing node.
pub open spec fn members_error(members: Seq<NodeId>) -> MetisError {
    if members.contains(NodeId(0)) { MetisError::InvalidHandle } else { MetisError::NodeNotFound }
}

/// Some member names no node.
pub open spec fn has_unknown_member(graph: &Graph, members: Seq<NodeId>) -> bool {
    exists|i: int| 0 <= i < members.len() && !graph.has_node(#[trigger] members[i])
}

proof fn lemma_first_unknown_exists(graph: &Graph, outs: Seq<(EdgeKind, NodeId)>, i0: int)
    requires
        0 <= i0 < outs.len(),
        !graph.has_node(outs[i0].1),
    ensures
        exists|i: int| 0 <= i < outs.len() && !graph.has_node(outs[i].1)
            && forall|j: int| 0 <= j < i ==> graph.has_node(#[trigger] outs[j].1),
    decreases i0,
{
    if exists|j: int| 0 <= j < i0 && !graph.has_node(#[trigger] outs[j].1) {
        let j = choose|j: int| 0 <= j < i0 && !graph.has_node(#[trigger] outs[j].1);
        lemma_first_unknown_exists(graph, outs, j);
    }
}

/// The structural outs of a finite set name exactly the members; the first
/// unknown one carries the error a member list reports.
proof fn lemma_member_outs_known(
    graph: &Graph,
    members: Seq<NodeId>,
    ms: Seq<NodeId>,
    outs: Seq<(EdgeKind, NodeId)>,
)
    requires
        strictly_sorted(ms),
        ms.to_set() == members.to_set(),
        outs == member_outs(ms),
    ensures
        ms.len() <= members.len(),
        graph.all_known(outs) == !has_unknown_member(graph, members),
        !has_unknown_member(graph, members) ==> forall|k: int| 0 <= k < ms.len() ==> graph.has_node(#[trigger] ms[k]),
        has_unknown_member(graph, members) ==> node_handle_error(outs[graph.first_unknown(outs)].1) == members_error(
            members,
        ),
{
    if has_unknown_member(graph, members) {
        let i0 = choose|i: int| 0 <= i < members.len() && !graph.has_node(#[trigger] members[i]);
        assert(ms.to_set().contains(members[i0]));
        let k0 = choose|k: int| 0 <= k < ms.len() && ms[k] == members[i0];
        assert(outs[k0].1 == ms[k0]);
        lemma_first_unknown_exists(graph, outs, k0);
        assert(!graph.all_known(outs));
        let f = graph.first_unknown(outs);
        if members.contains(NodeId(0)) {
            assert(ms.to_set().contains(NodeId(0)));
            let z = choose|z: int| 0 <= z < ms.len() && ms[z] == NodeId(0);
            if z > 0 {
                assert(ms[0].0 < ms[z].0);
            }
            assert(outs[0].1 == NodeId(0));
            if f > 0 {
                assert(graph.has_node(outs[0].1));
            }
        } else {
            assert(outs[f].1 == ms[f]);
            assert(members.to_set().contains(ms[f]));
            assert(ms[f] != NodeId(0));
        }
    } else {
        assert forall|k: int| 0 <= k < outs.len() implies graph.has_node(#[trigger] outs[k].1) by {
            assert(outs[k].1 == ms[k]);
            assert(members.to_set().contains(ms[k]));
        }
    }
    assert(ms.len() <= members.len()) by {
        ms.unique_seq_to_set();
        members.lemma_cardinality_of_set();
    }
    assert(graph.all_known(outs) == !has_unknown_member(graph, members));
    if !has_unknown_member(graph, members) {
        assert forall|k: int| 0 <= k < ms.len() implies graph.has_node(#[trigger] ms[k]) by {
            assert(outs[k].1 == ms[k]);
        }
    }
}

/// Finite set `{m0, m1, …}` with extensional hash-cons and pairing-intro `In` judgments.
pub fn finite_set(graph: &mut Graph, members: &[NodeId]) -> (r: Result<NodeId, MetisError>)
    ensures
        has_unknown_member(&*old(graph), members@) ==> r == Err::<NodeId, MetisError>(members_error(members@))
            && *final(graph) == *old(graph),
        !has_unknown_member(&*old(graph), members@) ==> (r is Ok <==> finite_set_fits(&*old(graph), members@)),
        !has_unknown_member(&*old(graph), members@) && old(graph).node_len() < u32::MAX
            && old(graph).edge_len() + 2 * members@.len() <= u32::MAX ==> r is Ok,
        r matches Err(e) ==> has_unknown_member(&*old(graph), members@) || e == MetisError::Capacity,
        keeps_identity(&*old(graph), &*final(graph)),
        r matches Ok(set) ==> {
            let outs = member_outs(canonical_members(members@));
            &&& final(graph).is_cons_of(set, outs)
            &&& forall|m: NodeId| #[trigger] final(graph).is_cons_of(m, outs) ==> m == set
            &&& forall|k: int| 0 <= k < members@.len() ==> final(graph).has_judgment_out(#[trigger] members@[k],
                EdgeKind::In, set)
        },
        strictly_sorted(canonical_members(members@)),
        canonical_members(members@).to_set() == members@.to_set(),
        // exactly the missing memberships are added, to the existing set node or to a fresh one
        r matches Ok(set) ==> {
            let ms = canonical_members(members@);
            let outs = member_outs(ms);
            match old(graph).cons_node(outs) {
                Some(s) => set == s && adds_memberships(&*old(graph), &*final(graph), ms, s),
                None => set == NodeId((old(graph).node_len() + 1) as u32) && exists|g1: Graph|
                    #[trigger] old(graph).appends_cons(&g1, outs) && missing_members(&g1, ms, set) == ms
                        && adds_memberships(&g1, &*final(graph), ms, set),
            }
        },
{
    let ms = sort_dedup(members);
    proof {
        lemma_strictly_sorted_unique(ms@, canonical_members(members@));
    }
    let mut outs: Vec<(EdgeKind, NodeId)> = Vec::new();
    let mut i: usize = 0;
    while i < ms.len()
        invariant
            i <= ms@.len(),
            outs@ == member_outs(ms@.take(i as int)),
        decreases ms.len() - i,
    {
        outs.push((EdgeKind::Custom(HAS_MEMBER_TAG), ms[i]));
        i = i + 1;
        proof {
            assert(member_outs(ms@.take(i as int)) =~= member_outs(ms@.take(i - 1)).push((EdgeKind::Custom(HAS_MEMBER_TAG), ms@[i - 1])));
        }
    }
    proof {
        assert(ms@.take(ms@.len() as int) == ms@);
        lemma_member_outs_known(&*graph, members@, ms@, outs@);
    }
    let ghost g0 = *graph;
    let outs_slice = outs.as_slice();
    let interned = graph.intern(outs_slice);
    proof {
        assert(g0 == *old(graph));
        assert(outs_slice@ == outs@);
        if interned is Ok {
            assert(g0.all_known(outs@));
            if g0.cons_node(outs@) is Some {
                assert(*graph == g0);
            } else {
                assert(g0.node_len() < u32::MAX);
                assert(g0.appends_cons(&*graph, outs@));
            }
        }
    }
    let ghost ms_ok = forall|a: int, b: int| 0 <= a < b < ms@.len() ==> (#[trigger] ms@[a]) != (#[trigger] ms@[b]);
    proof {
        assert(ms_ok) by {
            assert forall|a: int, b: int| 0 <= a < b < ms@.len() implies (#[trigger] ms@[a]) != (#[trigger] ms@[b]) by {
                assert(ms@[a].0 < ms@[b].0);
            }
        }
        if !has_unknown_member(&*old(graph), members@) {
            lemma_missing_grow(&*old(graph), ms@, set_of(interned), 0, ms@.len() as int);
            assert(ms@.take(ms@.len() as int) == ms@);
            assert(ms@.take(0) =~= Seq::<NodeId>::empty());
            if interned is Err {
                assert(!finite_set_fits(&*old(graph), members@));
            }
        }
    }
    let set = interned?;
    let ghost g1 = *graph;
    proof {
        assert(!has_unknown_member(&*old(graph), members@));
        assert(g1.node_len() >= old(graph).node_len());
        assert forall|x: int| 0 <= x < old(graph).node_len() implies (#[trigger] g1.node_at(x)).structural == old(graph).node_at(x).structural
            && g1.node_at(x).label == old(graph).node_at(x).label by {
            assert(g1.node_at(x) == old(graph).node_at(x));
        }
        assert forall|x: int| 0 <= x < old(graph).edge_len() implies #[trigger] g1.edge_at(x) == old(graph).edge_at(x) by {
        }
        assert forall|k: int| 0 <= k < ms@.len() implies g1.has_node(#[trigger] ms@[k]) by {
            assert(old(graph).has_node(ms@[k]));
        }
    }
    proof {
        if g0.cons_node(outs@) is None {
            lemma_missing_all(&g1, ms@, set);
        }
    }
    let introduced = intro_memberships(graph, &ms, set);
    proof {
        assert(introduced is Ok <==> finite_set_fits(&*old(graph), members@));
    }
    introduced?;
    proof {
        if g0.cons_node(outs@) is None {
            assert(g0.appends_cons(&g1, outs@));
        }
        assert forall|m: NodeId| #[trigger] graph.is_cons_of(m, outs@) implies m == set by {
            assert(graph.node_at(m.0 - 1).structural == g1.node_at(m.0 - 1).structural);
            assert(g1.is_cons_of(m, outs@));
        }
        assert(graph.is_cons_of(set, outs@)) by {
            assert(graph.node_at(set.0 - 1).structural == g1.node_at(set.0 - 1).structural);
        }
        assert forall|k: int| 0 <= k < members@.len() implies graph.has_judgment_out(#[trigger] members@[k], EdgeKind::In, set) by {
            assert(ms@.to_set().contains(members@[k]));
            let j = choose|j: int| 0 <= j < ms@.len() && ms@[j] == members@[k];
            assert(graph.has_judgment_out(ms@[j], EdgeKind::In, set));
        }
        assert forall|x: int| 0 <= x < old(graph).node_len() implies (#[trigger] graph.node_at(x)).structural == old(graph).node_at(x).structural
            && graph.node_at(x).label == old(graph).node_at(x).label by {
            assert(graph.node_at(x).structural == g1.node_at(x).structural);
            assert(g1.node_at(x).structural == old(graph).node_at(x).structural);
        }
        assert forall|x: int| 0 <= x < old(graph).edge_len() implies #[trigger] graph.edge_at(x) == old(graph).edge_at(x) by {
            assert(graph.edge_at(x) == g1.edge_at(x));
        }
    }
    Ok(set)
}

/// Adds `m In set` for each listed member that lacks it.
fn intro_memberships(graph: &mut Graph, ms: &Vec<NodeId>, set: NodeId) -> (r: Result<(), MetisError>)
    requires
        old(graph).has_node(set),
        forall|k: int| 0 <= k < ms@.len() ==> old(graph).has_node(#[trigger] ms@[k]),
        forall|a: int, b: int| 0 <= a < b < ms@.len() ==> (#[trigger] ms@[a]) != (#[trigger] ms@[b]),
    ensures
        final(graph).node_len() == old(graph).node_len(),
        keeps_identity(&*old(graph), &*final(graph)),
        r is Ok <==> old(graph).edge_len() + missing_memberships(&*old(graph), ms@, set) <= u32::MAX,
        r matches Err(e) ==> e == MetisError::Capacity,
        r is Ok ==> forall|k: int| 0 <= k < ms@.len() ==> final(graph).has_judgment_out(#[trigger] ms@[k],
            EdgeKind::In, set),
        r is Ok ==> adds_memberships(&*old(graph), &*final(graph), ms@, set),
{
    let _ = graph.edge_count();
    proof {
        assert(ms@.take(0) =~= Seq::<NodeId>::empty());
    }
    let mut i: usize = 0;
    while i < ms.len()
        invariant
            i <= ms@.len(),
            old(graph).has_node(set),
            graph.edge_len() <= u32::MAX,
            forall|k: int| 0 <= k < ms@.len() ==> old(graph).has_node(#[trigger] ms@[k]),
            graph.node_len() == old(graph).node_len(),
            keeps_identity(&*old(graph), &*graph),
            forall|a: int, b: int| 0 <= a < b < ms@.len() ==> (#[trigger] ms@[a]) != (#[trigger] ms@[b]),
            graph.edge_len() == old(graph).edge_len() + missing_memberships(&*old(graph), ms@.take(i as int), set),
            forall|k: int| 0 <= k < i ==> graph.has_judgment_out(#[trigger] ms@[k], EdgeKind::In, set),
            forall|k: int| i <= k < ms@.len() ==> graph.has_judgment_out(#[trigger] ms@[k], EdgeKind::In, set)
                == old(graph).has_judgment_out(ms@[k], EdgeKind::In, set),
            adds_memberships(&*old(graph), &*graph, ms@.take(i as int), set),
        decreases ms.len() - i,
    {
        let m = ms[i];
        proof {
            assert(old(graph).has_node(ms@[i as int]));
        }
        proof {
            assert(ms@.take(i + 1).drop_last() == ms@.take(i as int));
            assert(ms@.take(i + 1).last() == m);
        }
        if !has_in(graph, m, set)? {
            let ghost before = *graph;
            if graph.edge_count() >= 0xffff_ffff {
                proof {
                    lemma_missing_grow(&*old(graph), ms@, set, i + 1, ms@.len() as int);
                    assert(ms@.take(ms@.len() as int) == ms@);
                }
                return Err(MetisError::Capacity);
            }
            let _ = graph.assert_judgment(m, EdgeKind::In, set);
            proof {
                let ml = missing_members(&*old(graph), ms@.take(i as int), set);
                let e0 = old(graph).edge_len();
                lemma_missing_members_in(&*old(graph), ms@.take(i as int), set);
                assert(!ml.contains(m)) by {
                    if ml.contains(m) {
                        let t = choose|t: int| 0 <= t < ml.len() && ml[t] == m;
                        assert(ms@.take(i as int).contains(ml[t]));
                        let k = choose|k: int| 0 <= k < i && ms@.take(i as int)[k] == m;
                        assert(ms@[k] == ms@[i as int]);
                    }
                }
                assert(missing_members(&*old(graph), ms@.take(i + 1), set) == ml.push(m));
                let ml2 = ml.push(m);
                assert forall|t: int| 0 <= t < ml2.len() implies #[trigger] graph.edge_at(e0 + t) == (EdgeRec {
                    from: ml2[t],
                    to: set,
                    kind: EdgeKind::In,
                    judgment: true,
                }) by {
                    if t < ml.len() {
                        assert(graph.edge_at(e0 + t) == before.edge_at(e0 + t));
                    }
                }
                assert forall|x: NodeId| old(graph).has_node(x) && !ml2.contains(x) implies (#[trigger] graph.node_of(
                    x,
                )).judgments == old(graph).node_of(x).judgments by {
                    assert(x != m) by {
                        assert(ml2[ml.len() as int] == m);
                    }
                    assert(!ml.contains(x)) by {
                        if ml.contains(x) {
                            let t = choose|t: int| 0 <= t < ml.len() && ml[t] == x;
                            assert(ml2[t] == x);
                        }
                    }
                    assert(graph.node_at(x.0 - 1) == before.node_at(x.0 - 1));
                    assert(before.node_of(x).judgments == old(graph).node_of(x).judgments);
                }
                assert forall|t: int| 0 <= t < ml2.len() implies (#[trigger] graph.node_of(ml2[t])).judgments == old(
                    graph,
                ).node_of(ml2[t]).judgments.push((EdgeId((e0 + t + 1) as u32), EdgeKind::In, set)) by {
                    if t < ml.len() {
                        assert(ml2[t] == ml[t]);
                        assert(ml[t] != m);
                        assert(old(graph).has_node(ml[t]));
                        assert(graph.node_at(ml[t].0 - 1) == before.node_at(ml[t].0 - 1));
                    } else {
                        assert(ml2[t] == m);
                        assert(before.node_of(m).judgments == old(graph).node_of(m).judgments);
                    }
                }
                assert forall|x: NodeId| old(graph).has_node(x) implies {
                    &&& (#[trigger] graph.node_of(x)).structural == old(graph).node_of(x).structural
                    &&& graph.node_of(x).label == old(graph).node_of(x).label
                } by {
                    assert(before.node_of(x).structural == old(graph).node_of(x).structural);
                }
                assert forall|j: int| 0 <= j < e0 implies #[trigger] graph.edge_at(j) == old(graph).edge_at(j) by {
                    assert(graph.edge_at(j) == before.edge_at(j));
                }
                assert forall|k: int| i < k < ms@.len() implies graph.has_judgment_out(#[trigger] ms@[k], EdgeKind::In, set)
                    == old(graph).has_judgment_out(ms@[k], EdgeKind::In, set) by {
                    assert(ms@[k] != m);
                    assert(graph.node_at(ms@[k].0 - 1) == before.node_at(ms@[k].0 - 1));
                }
                assert forall|k: int| 0 <= k <= i implies graph.has_judgment_out(#[trigger] ms@[k], EdgeKind::In, set) by {
                    let mk = ms@[k];
                    assert(old(graph).has_node(mk));
                    if mk == m {
                        let js = graph.node_of(m).judgments;
                        assert(js == before.node_of(m).judgments.push((EdgeId((before.edge_len() + 1) as u32), EdgeKind::In, set)));
                        assert(js[js.len() - 1].1 == EdgeKind::In && js[js.len() - 1].2 == set);
                    } else {
                        assert(graph.node_at(mk.0 - 1) == before.node_at(mk.0 - 1));
                    }
                }
                assert forall|x: int| 0 <= x < old(graph).node_len() implies (#[trigger] graph.node_at(x)).structural == old(graph).node_at(x).structural
                    && graph.node_at(x).label == old(graph).node_at(x).label by {
                    if x != m.0 - 1 {
                        assert(graph.node_at(x) == before.node_at(x));
                    }
                }
                assert forall|x: int| 0 <= x < old(graph).edge_len() implies #[trigger] graph.edge_at(x) == old(graph).edge_at(x) by {
                    assert(graph.edge_at(x) == before.edge_at(x));
                }
            }
        }
        proof {
            if old(graph).has_judgment_out(m, EdgeKind::In, set) {
                assert(missing_members(&*old(graph), ms@.take(i + 1), set) == missing_members(
                    &*old(graph),
                    ms@.take(i as int),
                    set,
                ));
            }
        }
        i = i + 1;
    }
    proof {
        assert(ms@.take(ms@.len() as int) == ms@);
    }
    Ok(())
}

/// Whether `elem` already has an `In` judgment into `set`.
fn has_in(graph: &Graph, elem: NodeId, set: NodeId) -> (r: Result<bool, MetisError>)
    ensures
        !graph.has_node(elem) ==> r == Err::<bool, MetisError>(node_handle_error(elem)),
        graph.has_node(elem) ==> r == Ok::<bool, MetisError>(graph.has_judgment_out(elem, EdgeKind::In, set)),
{
    graph.scan_judgment(elem, EdgeKind::In, set)
}

} // verus!
