use metis::connection::ConnectionClass;
use metis::lower::{lower_module, IslandDecl, ItemDecl, LoweringResult, ModuleDecl};
use metis::types::{EdgeKind, IslandId, MetisError, NodeId};

fn island(name: &str, items: Vec<ItemDecl>) -> IslandDecl {
    IslandDecl { name: name.to_string(), items }
}

fn node(name: &str) -> ItemDecl {
    ItemDecl::Node(name.to_string())
}

fn relation(name: &str) -> ItemDecl {
    ItemDecl::Relation(name.to_string())
}

fn uses(name: &str) -> ItemDecl {
    ItemDecl::Use(name.to_string())
}

fn connection(left: &str, right: &str) -> ItemDecl {
    ItemDecl::Connection(left.to_string(), right.to_string())
}

fn node_of(low: &LoweringResult, id: IslandId, name: &str) -> Option<NodeId> {
    low.nodes.iter().find(|(i, n, _)| *i == id && n == name).map(|row| row.2)
}

fn kind_of(low: &LoweringResult, id: IslandId, name: &str) -> Option<EdgeKind> {
    low.relations.iter().find(|(i, n, _)| *i == id && n == name).map(|row| row.2)
}

/// `island GroupTheory` with two nodes, two relations, an axiom and a theorem.
fn group_theory() -> ModuleDecl {
    ModuleDecl {
        islands: vec![island(
            "GroupTheory",
            vec![
                node("Group"),
                node("Element"),
                relation("Mul"),
                relation("Inv"),
                ItemDecl::Axiom("Associativity".to_string()),
                ItemDecl::Theorem("FirstIsomorphismTheorem".to_string()),
                ItemDecl::Rewrites,
            ],
        )],
    }
}

#[test]
fn lowers_group_theory_declarations() {
    let module = group_theory();
    let low = lower_module(&module).expect("lower");
    let id = low.store.lookup("GroupTheory").expect("island");
    assert!(node_of(&low, id, "Group").is_some());
    assert!(node_of(&low, id, "Element").is_some());
    assert!(kind_of(&low, id, "Mul").is_some());
    assert!(kind_of(&low, id, "Inv").is_some());
    assert!(low.axioms.iter().any(|(i, n)| *i == id && n == "Associativity"));
    assert!(low.theorems.iter().any(|(i, n)| *i == id && n == "FirstIsomorphismTheorem"));
    let island = low.store.get(id).unwrap();
    assert!(island.rules.signature.allows(EdgeKind::Equal));
    assert!(island.rules.signature.allows(EdgeKind::In));
    assert!(island.rules.signature.allows(kind_of(&low, id, "Mul").unwrap()));
}

#[test]
fn connection_registers_bidirectional_candidates_only() {
    let module = ModuleDecl {
        islands: vec![
            island("ZFC", vec![node("Set")]),
            island("HoTT", vec![node("Type")]),
            island("_", vec![connection("ZFC", "HoTT")]),
        ],
    };
    let low = lower_module(&module).expect("lower");
    assert_eq!(low.store.connections().len(), 2);
    assert!(low.store.admitted_connections().is_empty());
    assert_eq!(low.store.connections()[0].class, ConnectionClass::BidirectionalSkeleton);
}

#[test]
fn use_requires_prior_accepted_island() {
    let ok = ModuleDecl {
        islands: vec![island("Base", vec![node("X")]), island("Ext", vec![uses("Base"), node("Y")])],
    };
    let low = lower_module(&ok).expect("lower");
    let ext = low.store.lookup("Ext").unwrap();
    let base = low.store.lookup("Base").unwrap();
    let parents = &low.store.get(ext).unwrap().parents;
    assert_eq!(parents.len(), 1);
    assert_eq!(parents[0], low.store.get(base).unwrap().world_id(base));

    let bad = ModuleDecl { islands: vec![island("Ext", vec![uses("Missing"), node("Y")])] };
    assert!(matches!(lower_module(&bad), Err(MetisError::IslandNotFound)));
}

#[test]
fn relations_are_numbered_across_islands() {
    let module = ModuleDecl {
        islands: vec![
            island("A", vec![relation("R"), relation("S")]),
            island("_", vec![]),
            island("B", vec![relation("T"), relation("R")]),
        ],
    };
    let low = lower_module(&module).unwrap();
    let a = low.store.lookup("A").unwrap();
    let b = low.store.lookup("B").unwrap();
    assert_eq!(a.get(), 1);
    assert_eq!(b.get(), 2);
    assert_eq!(kind_of(&low, a, "R"), Some(EdgeKind::Custom(1)));
    assert_eq!(kind_of(&low, a, "S"), Some(EdgeKind::Custom(2)));
    assert_eq!(kind_of(&low, b, "T"), Some(EdgeKind::Custom(3)));
    assert_eq!(kind_of(&low, b, "R"), Some(EdgeKind::Custom(4)));
    let isl_b = low.store.get(b).unwrap();
    assert!(!isl_b.rules.signature.allows(EdgeKind::Custom(1)));
    assert_eq!(isl_b.rules.signature.kind_count(), 4);
    assert_eq!(isl_b.version, 1);
}

#[test]
fn repeated_declarations_keep_one_row() {
    let module = ModuleDecl {
        islands: vec![island("A", vec![node("X"), relation("R"), node("X"), relation("R"), node("Y")])],
    };
    let low = lower_module(&module).unwrap();
    let a = low.store.lookup("A").unwrap();
    assert_eq!(low.nodes, vec![(a, "X".to_string(), NodeId(1)), (a, "Y".to_string(), NodeId(2))]);
    // The later declaration wins; both kinds stay declared.
    assert_eq!(low.relations, vec![(a, "R".to_string(), EdgeKind::Custom(2))]);
    let isl = low.store.get(a).unwrap();
    assert_eq!(isl.graph.node_count(), 2);
    assert_eq!(isl.graph.edge_count(), 0);
    assert_eq!(isl.graph.label_of(NodeId(2)).unwrap(), Some(&b"Y"[..]));
    assert!(isl.rules.signature.allows(EdgeKind::Custom(1)));
    assert!(isl.rules.signature.allows(EdgeKind::Custom(2)));
}

#[test]
fn lowering_errors_follow_declaration_order() {
    let clash = ModuleDecl { islands: vec![island("A", vec![]), island("A", vec![])] };
    assert!(matches!(lower_module(&clash), Err(MetisError::InvalidHandle)));

    let self_link = ModuleDecl { islands: vec![island("A", vec![connection("A", "A")])] };
    assert!(matches!(lower_module(&self_link), Err(MetisError::ConnectionInvalid)));

    let dangling = ModuleDecl { islands: vec![island("A", vec![]), island("_", vec![connection("A", "B")])] };
    assert!(matches!(lower_module(&dangling), Err(MetisError::IslandNotFound)));

    // A later island may not be used early, even if it exists afterwards.
    let forward = ModuleDecl { islands: vec![island("A", vec![uses("B")]), island("B", vec![])] };
    assert!(matches!(lower_module(&forward), Err(MetisError::IslandNotFound)));

    // Connections are resolved only after every island is accepted.
    let late = ModuleDecl { islands: vec![island("A", vec![connection("A", "B")]), island("B", vec![])] };
    let low = lower_module(&late).unwrap();
    assert_eq!(low.store.connections().len(), 2);
    assert_eq!(low.store.connections()[1].source.island, low.store.lookup("B").unwrap());
}

#[test]
fn holder_contributes_only_connections() {
    let module = ModuleDecl {
        islands: vec![island("_", vec![node("Ghost"), relation("R")]), island("A", vec![relation("S")])],
    };
    let low = lower_module(&module).unwrap();
    assert!(low.store.lookup("_").is_none());
    assert!(low.nodes.is_empty());
    let a = low.store.lookup("A").unwrap();
    assert_eq!(kind_of(&low, a, "S"), Some(EdgeKind::Custom(1)));
    assert_eq!(low.relations.len(), 1);
}

#[test]
fn relation_numbering_is_capped() {
    let last_ok = u16::MAX as usize - 1;
    let fits = ModuleDecl { islands: vec![island("A", (0..last_ok).map(|_| relation("R")).collect())] };
    let low = lower_module(&fits).unwrap();
    let a = low.store.lookup("A").unwrap();
    assert_eq!(kind_of(&low, a, "R"), Some(EdgeKind::Custom(u16::MAX - 1)));

    let spill = ModuleDecl {
        islands: vec![
            island("A", (0..last_ok).map(|_| relation("R")).collect()),
            island("B", vec![relation("S")]),
        ],
    };
    assert!(matches!(lower_module(&spill), Err(MetisError::Capacity)));
}
