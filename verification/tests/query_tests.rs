use padagonia::{FactSubject, NamespaceId, NodeId, Provenance, QueryEngine, Scalar, Store, StringTableExt};

fn prov(confidence: f32, timestamp: u64) -> Provenance {
    Provenance::new("a", "m", confidence.to_bits(), 0.0f32.to_bits(), timestamp, vec![])
}

#[test]
fn bfs_distances_are_correct() {
    let mut store = Store::new();
    let a = store.add_node("A", vec![], None, prov(1.0, 1));
    let b = store.add_node("B", vec![], None, prov(1.0, 1));
    let c = store.add_node("C", vec![], None, prov(1.0, 1));
    let d = store.add_node("D", vec![], None, prov(1.0, 1));

    store.add_edge(a, b, "r", vec![], None, prov(1.0, 1));
    store.add_edge(b, c, "r", vec![], None, prov(1.0, 1));
    store.add_edge(a, d, "r", vec![], None, prov(1.0, 1));

    let engine = QueryEngine::new(&store);
    let reached: std::collections::HashMap<_, _> = engine.bfs(a, 10, None, None).into_iter().collect();

    assert_eq!(reached[&a], 0);
    assert_eq!(reached[&b], 1);
    assert_eq!(reached[&d], 1);
    assert_eq!(reached[&c], 2);
}

#[test]
fn relation_filter_limits_edges() {
    let mut store = Store::new();
    let a = store.add_node("A", vec![], None, prov(1.0, 1));
    let b = store.add_node("B", vec![], None, prov(1.0, 1));
    let c = store.add_node("C", vec![], None, prov(1.0, 1));

    store.add_edge(a, b, "knows", vec![], None, prov(1.0, 1));
    store.add_edge(a, c, "works_for", vec![], None, prov(1.0, 1));

    let engine = QueryEngine::new(&store);
    let knows_id = store.string_table().relation_id("knows").unwrap();
    let outgoing_knows = engine.outgoing(a, Some(knows_id));
    assert_eq!(outgoing_knows.len(), 1);
    assert_eq!(outgoing_knows[0].dst, b);
}

#[test]
fn confidence_filter_skips_weak_edges() {
    let mut store = Store::new();
    let a = store.add_node("A", vec![], None, prov(1.0, 1));
    let b = store.add_node("B", vec![], None, prov(1.0, 1));
    let c = store.add_node("C", vec![], None, prov(1.0, 1));

    store.add_edge(a, b, "r", vec![], None, prov(0.9, 1));
    store.add_edge(a, c, "r", vec![], None, prov(0.3, 1));

    let engine = QueryEngine::new(&store);
    let reached = engine.bfs(a, 10, None, Some(0.5f32.to_bits()));
    assert!(reached.iter().any(|(n, _)| *n == b));
    assert!(!reached.iter().any(|(n, _)| *n == c));
}

#[test]
fn facts_count_after_additions() {
    let mut store = Store::new();
    let a = store.add_node("A", vec![], None, prov(0.5, 1));
    store.add_fact(FactSubject::Node(a), prov(0.9, 2));
    store.add_fact(FactSubject::Node(a), prov(0.7, 3));

    let engine = QueryEngine::new(&store);
    assert_eq!(engine.facts_about(FactSubject::Node(a)).len(), 3);
    assert_eq!(
        f32::from_bits(engine.highest_confidence_fact(FactSubject::Node(a)).unwrap().confidence),
        0.9
    );
}

#[test]
fn bfs_respects_depth_limit_and_cycles() {
    let mut store = Store::new();
    let a = store.add_node("A", vec![], None, prov(1.0, 1));
    let b = store.add_node("B", vec![], None, prov(1.0, 1));
    let c = store.add_node("C", vec![], None, prov(1.0, 1));
    store.add_edge(a, b, "r", vec![], None, prov(1.0, 1));
    store.add_edge(b, c, "r", vec![], None, prov(1.0, 1));
    store.add_edge(c, a, "r", vec![], None, prov(1.0, 1));
    let engine = QueryEngine::new(&store);
    let one = engine.bfs(a, 1, None, None);
    assert_eq!(one, vec![(a, 0), (b, 1)]);
    let all = engine.bfs(a, 10, None, None);
    assert_eq!(all, vec![(a, 0), (b, 1), (c, 2)]);
    assert!(engine.bfs(NodeId(99), 3, None, None).is_empty());
}

#[test]
fn neighbors_are_sorted_and_unique_across_directions() {
    let mut store = Store::new();
    let a = store.add_node("A", vec![], None, prov(1.0, 1));
    let b = store.add_node("B", vec![], None, prov(1.0, 1));
    let c = store.add_node("C", vec![], None, prov(1.0, 1));
    store.add_edge(c, a, "r", vec![], None, prov(1.0, 1));
    store.add_edge(a, b, "r", vec![], None, prov(1.0, 1));
    store.add_edge(b, a, "r", vec![], None, prov(1.0, 1));
    let engine = QueryEngine::new(&store);
    assert_eq!(engine.neighbors(a), vec![b, c]);
    assert_eq!(engine.incoming(a, None).len(), 2);
}

#[test]
fn counts_by_namespace_and_label() {
    let mut store = Store::new();
    let ns = NamespaceId::new("w").unwrap();
    store.add_node("Person", vec![], None, prov(1.0, 1));
    store.add_node("Person", vec![], None, prov(1.0, 1));
    store.add_node_in_namespace(ns.clone(), "x", "Person", vec![], None, prov(1.0, 1)).unwrap();
    store.add_node("Company", vec![], None, prov(1.0, 1));
    let person = store.string_table().label_id("Person").unwrap();
    let engine = QueryEngine::new(&store);
    assert_eq!(engine.count_nodes(None, None), 4);
    assert_eq!(engine.count_nodes(None, Some(person)), 3);
    assert_eq!(engine.count_nodes(Some(&ns), Some(person)), 1);
    assert_eq!(engine.by_label(person).len(), 3);
}

#[test]
fn numeric_samples_read_the_named_property() {
    let mut store = Store::new();
    store.add_node("P", vec![("age", Scalar::I64(30))], None, prov(1.0, 1));
    store.add_node("P", vec![("age", Scalar::String("old".to_string()))], None, prov(1.0, 1));
    store.add_node("P", vec![("name", Scalar::I64(1))], None, prov(1.0, 1));
    let age = store.string_table().key_id("age").unwrap();
    let engine = QueryEngine::new(&store);
    let samples = engine.numeric_property_samples(None, None, age);
    assert_eq!(samples.len(), 1);
}

fn unit_f32(rng: &mut padagonia::bench_support::Rng) -> f32 {
    rng.next_high_bits() as f32 / u32::MAX as f32
}

fn powerlaw_index(rng: &mut padagonia::bench_support::Rng, n: usize) -> usize {
    let u = unit_f32(rng) as f64;
    let x = (1.0 - u).powf(-1.0);
    (x as usize) % n
}

/// The synthetic power-law graph the benchmarks ingest, built the same way here.
fn powerlaw_graph(store: &mut Store, nodes: usize, edges: usize, seed: u64) {
    let labels = ["Person", "Company", "Topic"];
    let relations = ["works_for", "knows", "located_in", "related_to"];
    let mut rng = padagonia::bench_support::Rng::new(seed);
    let provenance = Provenance::new("bench_agent", "bench_model", 0.85f32.to_bits(), 0.01f32.to_bits(), 1, vec![
        "synthetic".to_string(),
    ]);
    let mut ids = Vec::new();
    for i in 0..nodes {
        let label = labels[rng.next_usize(labels.len())];
        let score = rng.next() as i64 % 1000;
        let age = Scalar::I64((rng.next() % 80 + 18) as i64);
        let embedding: Vec<u32> = (0..16).map(|_| unit_f32(&mut rng).to_bits()).collect();
        ids.push(store.add_node(
            label,
            vec![("name", Scalar::String(format!("node_{i}"))), ("score", Scalar::I64(score)), ("age", age)],
            Some(embedding),
            provenance.clone(),
        ));
    }
    for _ in 0..edges {
        let (src, dst) = loop {
            let src = ids[powerlaw_index(&mut rng, nodes).min(nodes - 1)];
            let dst = ids[powerlaw_index(&mut rng, nodes).min(nodes - 1)];
            if src != dst {
                break (src, dst);
            }
        };
        let rel = relations[rng.next_usize(relations.len())];
        let since = rng.next() % 30 + 1990;
        let mut edge_provenance = provenance.clone();
        edge_provenance.confidence = (0.5 + unit_f32(&mut rng) * 0.5).to_bits();
        let embedding: Vec<u32> = (0..16).map(|_| unit_f32(&mut rng).to_bits()).collect();
        store.add_edge(src, dst, rel, vec![("since", Scalar::I64(since as i64))], Some(embedding), edge_provenance);
    }
}

#[test]
fn by_label_counts_match() {
    let mut store = Store::new();
    powerlaw_graph(&mut store, 1000, 5000, 13);
    let engine = QueryEngine::new(&store);
    let person_id = store.string_table().label_id("Person").unwrap();
    let by_person = engine.by_label(person_id);
    let brute_force: Vec<_> = store.nodes().values().filter(|n| n.label == person_id).collect();
    assert_eq!(by_person.len(), brute_force.len());
}
