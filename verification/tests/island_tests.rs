use metis::connection::{refuse_galois_without_proof, ConnectionClass};
use metis::island::IslandStore;
use metis::types::{EdgeKind, MetisError};

#[test]
fn accepted_is_frozen_staging_is_mutable() {
    let mut store = IslandStore::new();
    let zfc = store.register_accepted("ZFC").unwrap();
    assert!(store.get_mut(zfc).is_err());

    let sid = store.open_staging("explore").unwrap();
    assert_eq!(store.staging_id(), Some(sid));
    {
        let st = store.staging_mut().unwrap();
        let leaf = st.graph.intern_empty().unwrap();
        let _ = st.graph.intern(&[(EdgeKind::In, leaf)]).unwrap();
        assert_eq!(st.graph.node_count(), 2);
    }
    store.discard_staging();
    assert!(store.staging_mut().is_err());
}

#[test]
fn accept_staging_freezes_and_versions() {
    let mut store = IslandStore::new();
    let sid = store.open_staging("draft").unwrap();
    {
        let st = store.staging_mut().unwrap();
        let a = st.graph.intern_label(b"a").unwrap();
        let b = st.graph.intern_label(b"b").unwrap();
        st.graph.assert_judgment(a, EdgeKind::Equal, b).unwrap();
        assert_eq!(st.version, 0);
    }
    let id = store.accept_staging("Group").unwrap();
    assert_eq!(id, sid);
    assert!(store.staging_id().is_none());
    let island = store.get(id).unwrap();
    assert!(island.accepted);
    assert_eq!(island.version, 1);
    assert_eq!(island.name, "Group");
    assert_eq!(island.graph.node_count(), 2);
    let w = island.world_id(id);
    assert_eq!(w.island, id);
    assert_eq!(w.version, 1);
    assert!(store.get_mut(id).is_err());
}

#[test]
fn accept_staging_rejects_name_clash() {
    let mut store = IslandStore::new();
    store.register_accepted("Group").unwrap();
    store.open_staging("draft").unwrap();
    assert_eq!(store.accept_staging("Group").unwrap_err(), MetisError::InvalidHandle);
    assert!(store.staging_id().is_some());
}

#[test]
fn bidirectional_connection_between_accepted_islands() {
    let mut store = IslandStore::new();
    let a = store.register_accepted("ZFC").unwrap();
    let b = store.register_accepted("HoTT").unwrap();
    let (i, j) = store.declare_bidirectional(a, b).unwrap();
    assert_eq!(store.connections().len(), 2);
    assert_eq!(store.connections()[i].class, ConnectionClass::BidirectionalSkeleton);
    assert_eq!(store.connections()[j].source.island, b);
    assert!(refuse_galois_without_proof(&store.connections()[i]).is_err());
}

#[test]
fn store_errors_name_the_missing_piece() {
    let mut store = IslandStore::default();
    assert_eq!(store.accept_staging("x").unwrap_err(), MetisError::IslandNotFound);
    assert!(store.staging_mut().is_err());
    assert_eq!(store.declare_generating_kind(EdgeKind::Equal).unwrap_err(), MetisError::IslandNotFound);
    let a = store.register_accepted("A").unwrap();
    assert_eq!(store.register_accepted("A").unwrap_err(), MetisError::InvalidHandle);
    assert_eq!(store.declare_bidirectional(a, a).unwrap_err(), MetisError::ConnectionInvalid);
    assert!(store.connections().is_empty());
    assert!(store.admitted_connections().is_empty());
    assert_eq!(store.lookup("A"), Some(a));
    assert_eq!(store.lookup("B"), None);
}

#[test]
fn staging_records_kinds_and_parents() {
    let mut store = IslandStore::new();
    let base = store.register_accepted("Base").unwrap();
    let world = store.get(base).unwrap().world_id(base);
    store.open_staging("draft").unwrap();
    store.declare_generating_kind(EdgeKind::Custom(4)).unwrap();
    store.add_staging_parent(world).unwrap();
    let id = store.accept_staging("Ext").unwrap();
    let ext = store.get(id).unwrap();
    assert!(ext.rules.signature.allows(EdgeKind::Custom(4)));
    assert!(!ext.rules.signature.allows(EdgeKind::Equal));
    assert_eq!(ext.parents, vec![world]);
    assert_ne!(id, base);
}
