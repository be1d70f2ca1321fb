use padagonia::app_config::LimitsConfig;
use padagonia::hnsw::Distance;
use padagonia::requests::{
    authorize_transaction, check_bfs_request, check_edge_endpoints, check_embedding_dimension, check_ingest,
    check_vector_search, default_provenance_at, edge_idempotency_key, expected_embedding_dimension,
    node_idempotency_key, parse_metric, validate_embedding, validate_label, validate_properties,
    validate_provenance, ProvenanceInput, RequestError,
};
use padagonia::{AuthenticatedPrincipal, NamespaceId, Provenance, Role, Store, StringTableExt};

fn limits() -> LimitsConfig {
    LimitsConfig::default()
}

fn prov() -> Provenance {
    Provenance::new("a", "m", 1.0f32.to_bits(), 0.0f32.to_bits(), 1, vec![])
}

fn input(confidence: Option<f32>, cost: Option<f32>) -> ProvenanceInput {
    ProvenanceInput {
        agent: "tester".to_string(),
        model: "m".to_string(),
        confidence: confidence.map(f32::to_bits),
        cost: cost.map(f32::to_bits),
        evidence: None,
    }
}

#[test]
fn labels_must_be_present_and_bounded() {
    assert_eq!(validate_label("Person"), Ok(()));
    assert_eq!(validate_label("  \t"), Err(RequestError::EmptyLabel));
    assert_eq!(validate_label(&"x".repeat(1025)), Err(RequestError::LabelTooLong));
    assert_eq!(validate_label(&"x".repeat(1024)), Ok(()));
}

#[test]
fn property_keys_must_be_present_and_few() {
    assert_eq!(validate_properties(&vec!["name".to_string()]), Ok(()));
    assert_eq!(validate_properties(&vec!["name".to_string(), " ".to_string()]), Err(RequestError::EmptyPropertyKey));
    let many: Vec<String> = (0..1025).map(|i| format!("k{i}")).collect();
    assert_eq!(validate_properties(&many), Err(RequestError::TooManyProperties));
}

#[test]
fn provenance_inputs_are_checked_in_order() {
    assert_eq!(validate_provenance(None), Ok(()));
    assert_eq!(validate_provenance(Some(&input(Some(0.5), Some(0.0)))), Ok(()));
    assert_eq!(validate_provenance(Some(&input(Some(1.5), None))), Err(RequestError::ConfidenceOutOfRange));
    assert_eq!(validate_provenance(Some(&input(Some(f32::NAN), None))), Err(RequestError::ConfidenceOutOfRange));
    assert_eq!(validate_provenance(Some(&input(None, Some(-1.0)))), Err(RequestError::CostInvalid));
    let mut blank = input(None, None);
    blank.agent = " ".to_string();
    assert_eq!(validate_provenance(Some(&blank)), Err(RequestError::BlankProvenanceIdentity));
    let mut heavy = input(None, None);
    heavy.evidence = Some(vec![String::new(); 1025]);
    assert_eq!(validate_provenance(Some(&heavy)), Err(RequestError::TooMuchEvidence));
}

#[test]
fn missing_provenance_fields_take_defaults() {
    let p = input(None, None).into_provenance_at(42);
    assert_eq!(f32::from_bits(p.confidence), 1.0);
    assert_eq!(f32::from_bits(p.cost), 0.0);
    assert_eq!(p.timestamp, 42);
    assert!(p.evidence.is_empty());
    let d = default_provenance_at(7);
    assert_eq!(d.agent, "http-api");
    assert_eq!(d.model, "unknown");
    assert_eq!(d.timestamp, 7);
}

#[test]
fn embeddings_are_checked() {
    let l = limits();
    assert_eq!(validate_embedding(None, &l), Ok(()));
    assert_eq!(validate_embedding(Some(&[]), &l), Err(RequestError::EmptyEmbedding));
    assert_eq!(validate_embedding(Some(&[f32::INFINITY.to_bits()]), &l), Err(RequestError::EmbeddingNotFinite));
    let big = vec![0u32; l.max_vector_dimensions + 1];
    assert_eq!(
        validate_embedding(Some(&big), &l),
        Err(RequestError::EmbeddingTooLarge { limit: l.max_vector_dimensions })
    );
    assert_eq!(check_embedding_dimension(Some(3), Some(4)), Err(RequestError::EmbeddingDimensionMismatch { expected: 3, actual: 4 }));
    assert_eq!(check_embedding_dimension(None, Some(4)), Ok(()));
}

#[test]
fn store_dimension_and_endpoints() {
    let mut store = Store::new();
    assert_eq!(expected_embedding_dimension(&store), None);
    let a = store.add_node("A", vec![], Some(vec![0, 0, 0]), prov());
    store.add_node("B", vec![], None, prov());
    assert_eq!(expected_embedding_dimension(&store), Some(3));
    assert_eq!(check_edge_endpoints(&store, a.0, 1), Ok(()));
    assert_eq!(check_edge_endpoints(&store, 9, 1), Err(RequestError::UnknownSourceNode { id: 9 }));
    assert_eq!(check_edge_endpoints(&store, 0, 9), Err(RequestError::UnknownTargetNode { id: 9 }));
}

#[test]
fn ingest_requests_are_bounded() {
    let l = limits();
    assert_eq!(check_ingest(10, 20, &l), Ok(()));
    assert_eq!(check_ingest(0, 1, &l), Err(RequestError::EdgesWithoutNodes));
    assert_eq!(
        check_ingest(l.max_ingest_nodes + 1, 0, &l),
        Err(RequestError::IngestNodesOverLimit { limit: l.max_ingest_nodes })
    );
}

#[test]
fn bfs_requests_resolve_relations() {
    let mut store = Store::new();
    let a = store.add_node("A", vec![], None, prov());
    store.add_edge(a, a, "knows", vec![], None, prov());
    let table = store.string_table();
    let l = limits();
    let knows = table.relation_id("knows");
    assert_eq!(check_bfs_request(table, 2, Some("knows"), None, &l), Ok(knows));
    assert_eq!(check_bfs_request(table, 2, Some("nope"), None, &l), Err(RequestError::UnknownRelation));
    assert_eq!(check_bfs_request(table, 2, None, Some(f32::NAN.to_bits()), &l), Err(RequestError::MinConfidenceNotFinite));
    assert_eq!(check_bfs_request(table, 2, None, Some(f32::INFINITY.to_bits()), &l), Err(RequestError::MinConfidenceNotFinite));
    assert_eq!(check_bfs_request(table, 2, None, Some(1.5f32.to_bits()), &l), Ok(None));
    assert_eq!(
        check_bfs_request(table, l.max_bfs_depth + 1, None, None, &l),
        Err(RequestError::DepthOverLimit { limit: l.max_bfs_depth })
    );
}

#[test]
fn vector_search_requests_are_planned() {
    let mut store = Store::new();
    store.add_node("Doc", vec![], Some(vec![0, 0]), prov());
    let table = store.string_table();
    let l = limits();
    let q = [1.0f32.to_bits(), 0];
    let plan = check_vector_search(table, Some(2), &q, None, None, Some("Doc"), Some("cosine"), &l, 50).unwrap();
    assert_eq!(plan.distance, Distance::Cosine);
    assert_eq!(plan.k, 10);
    assert_eq!(plan.ef, 50);
    assert_eq!(plan.label, table.label_id("Doc"));
    assert_eq!(
        check_vector_search(table, Some(3), &q, None, None, None, None, &l, 50),
        Err(RequestError::QueryDimensionMismatch { expected: 3, actual: 2 })
    );
    assert_eq!(check_vector_search(table, None, &q, None, None, None, Some("manhattan"), &l, 50), Err(RequestError::UnknownMetric));
    assert_eq!(check_vector_search(table, None, &[], None, None, None, None, &l, 50), Err(RequestError::EmptyQuery));
    assert_eq!(check_vector_search(table, None, &q, None, None, Some("Nope"), None, &l, 50), Err(RequestError::UnknownLabel));
    assert_eq!(
        check_vector_search(table, None, &q, Some(0), None, None, None, &l, 50),
        Err(RequestError::ResultCountOutOfRange { limit: l.max_vector_results })
    );
    assert_eq!(
        check_vector_search(table, None, &q, None, Some(0), None, None, &l, 50),
        Err(RequestError::EfOutOfRange { limit: l.max_vector_ef })
    );
    assert_eq!(parse_metric(None), Ok(Distance::Euclidean));
    assert_eq!(parse_metric(Some("euclidean")), Ok(Distance::Euclidean));
}

#[test]
fn transactions_need_header_and_write_rights() {
    let ns = NamespaceId::new("w").unwrap();
    let writer = AuthenticatedPrincipal { namespace: ns.clone(), role: Role::Writer };
    let reader = AuthenticatedPrincipal { namespace: ns.clone(), role: Role::Reader };
    assert_eq!(authorize_transaction(&writer, Some(Ok("w")), &ns), Ok(()));
    assert_eq!(authorize_transaction(&writer, None, &ns), Err(RequestError::MissingNamespaceHeader));
    assert_eq!(authorize_transaction(&writer, Some(Err(())), &ns), Err(RequestError::InvalidNamespaceHeader));
    assert_eq!(authorize_transaction(&writer, Some(Ok("x")), &ns), Err(RequestError::NamespaceHeaderMismatch));
    assert_eq!(authorize_transaction(&reader, Some(Ok("w")), &ns), Err(RequestError::Forbidden));
}

#[test]
fn default_idempotency_keys() {
    let ns = NamespaceId::new("w").unwrap();
    assert_eq!(node_idempotency_key(&ns, "n1"), "create-node:w:n1");
    assert_eq!(edge_idempotency_key(&ns, "e1"), "create-edge:w:e1");
}

#[test]
fn refusals_carry_their_text_and_status() {
    assert_eq!(RequestError::EmptyLabel.message(), "label must not be empty");
    assert_eq!(RequestError::EmbeddingTooLarge { limit: 4096 }.message(), "embedding dimension exceeds 4096");
    assert_eq!(
        RequestError::QueryDimensionMismatch { expected: 3, actual: 12 }.message(),
        "query dimension 12 does not match graph dimension 3"
    );
    assert_eq!(RequestError::UnknownSourceNode { id: 0 }.message(), "src node 0 not found");
    assert_eq!(RequestError::EmptyLabel.status(), 400);
    assert_eq!(RequestError::Forbidden.status(), 403);
}

#[test]
fn refusals_over_a_name_quote_it() {
    assert_eq!(RequestError::UnknownRelation.message_naming("likes"), "unknown relation 'likes'");
    assert_eq!(RequestError::UnknownLabel.message_naming("Run"), "unknown label 'Run'");
    assert_eq!(
        RequestError::UnknownMetric.message_naming("dot"),
        "unknown metric 'dot' (expected euclidean|cosine)"
    );
    assert_eq!(RequestError::EmptyQuery.message_naming("x"), "query embedding must not be empty");
}

#[test]
fn records_created_without_an_external_id_get_a_timed_one() {
    assert_eq!(padagonia::requests::generated_external_id("node", 1_700_000_000_123_456_789), "http-node-1700000000123456789");
    assert_eq!(padagonia::requests::generated_external_id("edge", 0), "http-edge-0");
}

#[test]
fn a_confidence_floor_above_every_edge_prunes_the_traversal() {
    let mut store = Store::new();
    let a = store.add_node("A", vec![], None, prov());
    let b = store.add_node("B", vec![], None, prov());
    store.add_edge(a, b, "knows", vec![], None, prov());
    let floor = check_bfs_request(store.string_table(), 2, None, Some(1.5f32.to_bits()), &limits());
    assert_eq!(floor, Ok(None));
    let reached = padagonia::QueryEngine::new(&store).bfs(a, 2, None, Some(1.5f32.to_bits()));
    assert_eq!(reached.len(), 1);
    let all = padagonia::QueryEngine::new(&store).bfs(a, 2, None, None);
    assert_eq!(all.len(), 2);
}
