//! Order keys for structural outgoing edges, and the sorting that turns a
//! list of outgoing edges into its hash-cons fingerprint.

use vstd::prelude::*;
use vstd::relations::sorted_by;
use vstd::seq_lib::lemma_sorted_unique;
use crate::types::{EdgeKind, NodeId};

verus! {

broadcast use vstd::seq_lib::group_to_multiset_ensures;

/// Position of an edge kind in the fingerprint order
/// (`Equal < In < Eval < Custom(0) < Custom(1) < ...`).
pub open spec fn kind_code(k: EdgeKind) -> u64 {
    match k {
        EdgeKind::Equal => 0,
        EdgeKind::In => 1,
        EdgeKind::Eval => 2,
        EdgeKind::Custom(v) => (3 + v) as u64,
    }
}

/// The fingerprint key of one outgoing edge: ordered by kind, then by target.
pub open spec fn out_key(k: EdgeKind, to: NodeId) -> u64 {
    (kind_code(k) * 0x1_0000_0000 + to.0) as u64
}

/// The order on fingerprint keys.
pub open spec fn key_le() -> spec_fn(u64, u64) -> bool {
    |a: u64, b: u64| a <= b
}

/// Keys of a list of `(kind, target)` pairs, in list order.
pub open spec fn outs_keys(outs: Seq<(EdgeKind, NodeId)>) -> Seq<u64> {
    outs.map_values(|o: (EdgeKind, NodeId)| out_key(o.0, o.1))
}

pub fn exec_kind_code(k: EdgeKind) -> (r: u64)
    ensures
        r == kind_code(k),
{
    match k {
        EdgeKind::Equal => 0,
        EdgeKind::In => 1,
        EdgeKind::Eval => 2,
        EdgeKind::Custom(v) => 3 + v as u64,
    }
}

/// Distinct kinds have distinct codes.
pub proof fn lemma_kind_code_injective(a: EdgeKind, b: EdgeKind)
    ensures
        (kind_code(a) == kind_code(b)) == (a == b),
{
}

pub fn exec_out_key(k: EdgeKind, to: NodeId) -> (r: u64)
    ensures
        r == out_key(k, to),
{
    let code: u64 = match k {
        EdgeKind::Equal => 0,
        EdgeKind::In => 1,
        EdgeKind::Eval => 2,
        EdgeKind::Custom(v) => 3 + v as u64,
    };
    code * 0x1_0000_0000 + to.0 as u64
}

/// Distinct `(kind, target)` pairs have distinct keys.
pub proof fn lemma_out_key_injective(k1: EdgeKind, t1: NodeId, k2: EdgeKind, t2: NodeId)
    ensures
        (out_key(k1, t1) == out_key(k2, t2)) == (k1 == k2 && t1 == t2),
{
    let c1 = kind_code(k1);
    let c2 = kind_code(k2);
    if out_key(k1, t1) == out_key(k2, t2) {
        assert(c1 == c2 && t1.0 == t2.0) by (nonlinear_arith)
            requires
                c1 * 0x1_0000_0000 + t1.0 == c2 * 0x1_0000_0000 + t2.0,
                c1 <= 65538,
                c2 <= 65538,
                t1.0 < 0x1_0000_0000,
                t2.0 < 0x1_0000_0000,
        ;
    }
}

/// Two sorted key sequences with the same multiset are the same sequence.
pub proof fn lemma_sorted_keys_unique(x: Seq<u64>, y: Seq<u64>)
    requires
        sorted_by(x, key_le()),
        sorted_by(y, key_le()),
        x.to_multiset() == y.to_multiset(),
    ensures
        x == y,
{
    lemma_sorted_unique(x, y, key_le());
}

/// Sorts keys in ascending order.
pub fn sort_keys(v: &Vec<u64>) -> (r: Vec<u64>)
    ensures
        sorted_by(r@, key_le()),
        r@.to_multiset() == v@.to_multiset(),
{
    let mut r: Vec<u64> = Vec::new();
    let mut i: usize = 0;
    while i < v.len()
        invariant
            i <= v.len(),
            sorted_by(r@, key_le()),
            r@.to_multiset() == v@.take(i as int).to_multiset(),
        decreases v.len() - i,
    {
        let x = v[i];
        let mut pos: usize = 0;
        while pos < r.len() && r[pos] <= x
            invariant
                pos <= r.len(),
                forall|k: int| 0 <= k < pos ==> r@[k] <= x,
            decreases r.len() - pos,
        {
            pos = pos + 1;
        }
        let ghost old_r = r@;
        r.insert(pos, x);
        proof {
            assert(r@ == old_r.insert(pos as int, x));
            assert forall|a: int, b: int| 0 <= a < b < r@.len() implies #[trigger] key_le()(r@[a], r@[b]) by {
                if b < pos {
                } else if b == pos {
                } else if a < pos {
                    assert(old_r[a] <= x);
                    assert(pos < old_r.len());
                    assert(x < old_r[pos as int]);
                    assert(key_le()(old_r[pos as int], old_r[b - 1]) || pos == b - 1);
                } else if a == pos {
                    assert(pos < old_r.len());
                    assert(x < old_r[pos as int]);
                    assert(key_le()(old_r[pos as int], old_r[b - 1]) || pos == b - 1);
                } else {
                    assert(key_le()(old_r[a - 1], old_r[b - 1]));
                }
            }
            assert(r@.remove(pos as int) == old_r);
            assert(r@.to_multiset().remove(x) == old_r.to_multiset());
            assert(r@.to_multiset().count(x) > 0);
            assert(r@.to_multiset() =~= old_r.to_multiset().insert(x));
            assert(v@.take(i + 1) == v@.take(i as int).push(x));
        }
        i = i + 1;
    }
    proof {
        assert(v@.take(v.len() as int) == v@);
    }
    r
}

/// Element-wise equality of two key vectors.
pub fn keys_eq(a: &Vec<u64>, b: &Vec<u64>) -> (r: bool)
    ensures
        r == (a@ == b@),
{
    if a.len() != b.len() {
        return false;
    }
    let mut i: usize = 0;
    while i < a.len()
        invariant
            a.len() == b.len(),
            i <= a.len(),
            forall|k: int| 0 <= k < i ==> a@[k] == b@[k],
        decreases a.len() - i,
    {
        if a[i] != b[i] {
            return false;
        }
        i = i + 1;
    }
    proof {
        assert(a@ =~= b@);
    }
    true
}

} // verus!
