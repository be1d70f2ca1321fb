use padagonia::provenance::provenance_is_valid;
use padagonia::{EdgeId, FactSubject, NodeId, Provenance, Scalar, Store, StringTable, StringTableExt};

fn prov() -> Provenance {
    Provenance::new("agent", "model", 1.0f32.to_bits(), 0.0f32.to_bits(), 7, vec!["e".to_string()])
}

#[test]
fn ids_count_up_and_indexes_follow() {
    let mut store = Store::new();
    let a = store.add_node("Person", vec![("name", Scalar::String("a".into()))], None, prov());
    let b = store.add_node("Person", vec![], None, prov());
    let e = store.add_edge(a, b, "knows", vec![], None, prov());
    assert_eq!((a, b, e), (NodeId(0), NodeId(1), EdgeId(0)));
    let person = store.string_table().label_id("Person").unwrap();
    assert_eq!(store.node_label_index().get(&person).unwrap(), &vec![a, b]);
    assert_eq!(store.outgoing().get(&a).unwrap(), &vec![e]);
    assert_eq!(store.incoming().get(&b).unwrap(), &vec![e]);
    assert_eq!(store.facts().get(&FactSubject::Edge(e)).unwrap().len(), 1);
    assert_eq!(store.next_node_id(), 2);
    assert_eq!(store.next_edge_id(), 1);
    let (nodes, edges, facts, labels, relations) = store.stats();
    assert_eq!((nodes, edges, facts), (2, 1, 3));
    assert_eq!(labels, 1);
    assert_eq!(relations, 1);
}

#[test]
fn interning_is_idempotent() {
    let mut table = StringTable::new();
    let x = table.intern("x");
    let y = table.intern("y");
    assert_eq!(table.intern("x"), x);
    assert_ne!(x, y);
    assert_eq!(table.resolve(y), Some("y"));
    assert_eq!(table.lookup("z"), None);
    assert_eq!(table.len(), 2);
    assert!(StringTable::from_strings(vec!["a".to_string(), "a".to_string()]).is_none());
}

#[test]
fn provenance_validity() {
    assert!(provenance_is_valid(&prov()));
    let negative_cost = Provenance::new("a", "m", 1.0f32.to_bits(), (-1.0f32).to_bits(), 1, vec![]);
    assert!(!provenance_is_valid(&negative_cost));
    let over_confident = Provenance::new("a", "m", 1.5f32.to_bits(), 0.0f32.to_bits(), 1, vec![]);
    assert!(!provenance_is_valid(&over_confident));
}

#[test]
fn adjacency_list_covers_every_node_and_edge() {
    let mut store = Store::new();
    let a = store.add_node("A", vec![], None, prov());
    let b = store.add_node("B", vec![], None, prov());
    let c = store.add_node("C", vec![], None, prov());
    store.add_edge(a, b, "r", vec![], None, prov());
    store.add_edge(a, c, "r", vec![], None, prov());
    store.add_edge(NodeId(9), a, "r", vec![], None, prov());
    let adj = store.to_adjacency_list();
    assert_eq!(adj.len(), 4);
    let mut from_a = adj[&a].clone();
    from_a.sort();
    assert_eq!(from_a, vec![b, c]);
    assert!(adj[&b].is_empty());
    assert_eq!(adj[&NodeId(9)], vec![a]);
}
