use padagonia::{BatchMutationRequest, LabelId, NamespaceId, NodeQueryRequest, API_VERSION};

#[test]
fn api_version_is_v1() {
    assert_eq!(API_VERSION, "v1");
}

#[test]
fn batch_request_becomes_its_transaction() {
    let request = BatchMutationRequest {
        namespace: NamespaceId::new("w").unwrap(),
        idempotency_key: "key-1".to_string(),
        mutations: vec![],
    };
    let t = request.into_transaction();
    assert_eq!(t.idempotency_key, "key-1");
    assert!(t.mutations.is_empty());
}

#[test]
fn node_query_request_is_scoped_to_its_namespace() {
    let request = NodeQueryRequest {
        namespace: NamespaceId::new("w").unwrap(),
        label: Some(3),
        created_after: Some(1),
        created_before: None,
        limit: 5,
        cursor: Some("c".to_string()),
    };
    let q = request.into_query();
    assert_eq!(q.namespace.unwrap().as_str(), "w");
    assert_eq!(q.label, Some(LabelId(3)));
    assert_eq!(q.created_after, Some(1));
    assert_eq!(q.limit, 5);
    assert_eq!(q.cursor.as_deref(), Some("c"));
}
