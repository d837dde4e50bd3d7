use metis::graph::Graph;
use metis::types::{EdgeKind, NodeId};
use metis::verify::{prove, Goal};
use metis::zfc::{atom, empty_set, finite_set, HAS_MEMBER_TAG};

#[test]
fn empty_in_singleton_empty() {
    let mut g = Graph::new();
    let empty = empty_set(&mut g).unwrap();
    let s0 = finite_set(&mut g, &[empty]).unwrap();
    prove(&g, Goal::Member(empty, s0)).unwrap();
}

#[test]
fn pair_idempotent_definitional() {
    let mut g = Graph::new();
    let a = atom(&mut g, b"a").unwrap();
    let s1 = finite_set(&mut g, &[a, a]).unwrap();
    let s2 = finite_set(&mut g, &[a]).unwrap();
    assert_eq!(s1, s2);
    prove(&g, Goal::Equal(s1, s2)).unwrap();
}

#[test]
fn sets_are_extensional_in_member_order() {
    let mut g = Graph::new();
    let a = atom(&mut g, b"a").unwrap();
    let b = atom(&mut g, b"b").unwrap();
    let ab = finite_set(&mut g, &[a, b]).unwrap();
    let ba = finite_set(&mut g, &[b, a, b]).unwrap();
    assert_eq!(ab, ba);
    let only_a = finite_set(&mut g, &[a]).unwrap();
    assert_ne!(ab, only_a);
    let outs = g.structural_outgoing(ab).unwrap();
    assert_eq!(outs.len(), 2);
    assert!(outs.iter().all(|o| o.1 == EdgeKind::Custom(HAS_MEMBER_TAG)));
    assert_eq!(g.judgment_outgoing(a).unwrap().len(), 2);
    prove(&g, Goal::Member(b, ab)).unwrap();
    assert!(prove(&g, Goal::NotMember(b, only_a)).is_ok());
}

#[test]
fn empty_set_is_unique_and_members_must_exist() {
    let mut g = Graph::new();
    let e1 = empty_set(&mut g).unwrap();
    let e2 = finite_set(&mut g, &[]).unwrap();
    assert_eq!(e1, e2);
    assert!(finite_set(&mut g, &[NodeId(40)]).is_err());
}

#[test]
fn repeating_a_set_adds_no_judgment() {
    let mut g = Graph::new();
    let a = atom(&mut g, b"a").unwrap();
    let s1 = finite_set(&mut g, &[a, a]).unwrap();
    let edges = g.edge_count();
    assert_eq!(finite_set(&mut g, &[a]), Ok(s1));
    assert_eq!(g.edge_count(), edges);
    assert_eq!(g.judgment_outgoing(a).unwrap().len(), 1);
    prove(&g, Goal::Equal(s1, s1)).unwrap();
}
