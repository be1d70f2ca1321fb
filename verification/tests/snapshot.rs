use padagonia::{
    BlockKind, BlockPayload, Edge, EdgeId, FactSubject, NamespaceId, NodeId, Provenance, Scalar, Store,
    StoreError,
};

fn prov(confidence: f32) -> Provenance {
    Provenance::new("agent", "model", confidence.to_bits(), 0.0f32.to_bits(), 1, vec![])
}

fn kind_of(payload: &BlockPayload) -> BlockKind {
    payload.kind()
}

fn snapshot(store: &Store) -> Vec<(BlockKind, BlockPayload)> {
    store
        .save_plan()
        .unwrap()
        .into_iter()
        .map(|p| (kind_of(&p), p))
        .collect()
}

fn sample() -> Store {
    let mut store = Store::new();
    let a = store.add_node("Person", vec![("name", Scalar::String("a".to_string()))], None, prov(1.0));
    let b = store.add_node("Person", vec![("name", Scalar::String("b".to_string()))], None, prov(1.0));
    let c = store.add_node("Company", vec![], None, prov(1.0));
    store.add_edge(a, b, "knows", vec![], None, prov(0.5));
    store.add_edge(b, c, "works_for", vec![], None, prov(0.5));
    store.add_fact(FactSubject::Node(a), prov(0.25));
    store
}

#[test]
fn save_plan_groups_by_label_and_relation_then_facts() {
    let store = sample();
    let plan = store.save_plan().unwrap();
    assert_eq!(plan.len(), 5);
    assert!(matches!(plan[0], BlockPayload::Nodes { ref nodes, .. } if nodes.len() == 2));
    assert!(matches!(plan[1], BlockPayload::Nodes { ref nodes, .. } if nodes.len() == 1));
    assert!(matches!(plan[2], BlockPayload::Edges { .. }));
    assert!(matches!(plan[3], BlockPayload::Edges { .. }));
    assert!(matches!(plan[4], BlockPayload::Facts { ref entries } if entries.len() == 1));
}

#[test]
fn restore_rebuilds_the_saved_store() {
    let store = sample();
    let restored = Store::restore(store.string_table().clone(), snapshot(&store)).unwrap();
    assert_eq!(restored.stats(), store.stats());
    assert_eq!(restored.next_node_id(), 3);
    assert_eq!(restored.next_edge_id(), 2);
    assert_eq!(restored.facts().get(&FactSubject::Node(NodeId(0))).unwrap().len(), 2);
    assert_eq!(restored.outgoing().get(&NodeId(1)).unwrap(), &vec![EdgeId(1)]);
}

#[test]
fn roundtrip_rebuilds_id_counters_for_future_writes() {
    let mut original = Store::new();
    let a = original.add_node("Person", vec![("name", Scalar::String("a".to_string()))], None, prov(1.0));
    let b = original.add_node("Person", vec![("name", Scalar::String("b".to_string()))], None, prov(1.0));
    original.add_edge(a, b, "knows", vec![], None, prov(1.0));

    let mut loaded = Store::restore(original.string_table().clone(), snapshot(&original)).unwrap();
    let next_node = loaded.add_node("Person", vec![("name", Scalar::String("c".to_string()))], None, prov(1.0));
    let next_edge = loaded.add_edge(b, next_node, "knows", vec![], None, prov(1.0));

    assert_eq!(next_node.0, 2);
    assert_eq!(next_edge.0, 1);
}

#[test]
fn dangling_edge_is_rejected() {
    let mut store = Store::new();
    let a = store.add_node("A", vec![], None, prov(1.0));
    store.add_edge(a, a, "self", vec![], None, prov(1.0));
    let mut blocks = snapshot(&store);
    for (_, payload) in blocks.iter_mut() {
        if let BlockPayload::Edges { edges, .. } = payload {
            let e: &mut Edge = &mut edges[0];
            e.dst = NodeId(999_999);
        }
    }
    assert!(matches!(
        Store::restore(store.string_table().clone(), blocks),
        Err(StoreError::DanglingEdge { edge_id: 0 })
    ));
}

#[test]
fn duplicate_node_ids_are_rejected() {
    let mut store = Store::new();
    store.add_node("A", vec![], None, prov(1.0));
    let mut blocks = snapshot(&store);
    let copy = snapshot(&store).remove(0);
    blocks.insert(0, copy);
    assert!(matches!(
        Store::restore(store.string_table().clone(), blocks),
        Err(StoreError::DuplicateNodeId { id: 0 })
    ));
}

#[test]
fn namespaced_identity_survives_restore() {
    let mut store = Store::new();
    let ns = NamespaceId::new("w").unwrap();
    let id = store.add_node_in_namespace(ns.clone(), "run-1", "Run", vec![], None, prov(1.0)).unwrap();
    let restored = Store::restore(store.string_table().clone(), snapshot(&store)).unwrap();
    assert_eq!(restored.node_by_external_id(&ns, "run-1"), Some(id));
}

#[test]
fn invalid_store_cannot_be_saved() {
    let mut store = Store::new();
    store.add_node("A", vec![("x", Scalar::F64(f64::INFINITY.to_bits()))], None, prov(1.0));
    assert!(matches!(store.save_plan(), Err(StoreError::InvalidValue { .. })));
}

#[test]
fn save_rejects_inconsistent_embedding_dimensions() {
    let mut store = Store::new();
    let provenance = Provenance::new("test", "model", 1.0f32.to_bits(), 0.0f32.to_bits(), 1, vec![]);
    store.add_node("A", vec![], Some(vec![0.0f32.to_bits(), 1.0f32.to_bits()]), provenance.clone());
    store.add_node("A", vec![], Some(vec![0.0f32.to_bits(), 1.0f32.to_bits(), 2.0f32.to_bits()]), provenance);
    assert!(matches!(store.save_plan(), Err(StoreError::InvalidValue { .. })));
}
