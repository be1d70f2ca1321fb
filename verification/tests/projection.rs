use padagonia::projection::{edge_csv_header, node_csv_header};
use padagonia::{NodeId, Provenance, Store};

fn prov() -> Provenance {
    Provenance::new("agent", "model", 1.0f32.to_bits(), 0.0f32.to_bits(), 7, vec![])
}

#[test]
fn csv_rows_quote_the_properties_and_double_their_quotes() {
    let mut store = Store::new();
    let a = store.add_node("Run", vec![], None, prov());
    let b = store.add_node("Run", vec![], None, prov());
    let e = store.add_edge(a, b, "supports", vec![], None, prov());
    let node = store.nodes().get(&b).unwrap();
    assert_eq!(store.node_csv_row(node, r#"{"k":"v"}"#), b"1,Run,\"{\"\"k\"\":\"\"v\"\"}\"\n".to_vec());
    let edge = store.edges().get(&e).unwrap();
    assert_eq!(store.edge_csv_row(edge, "{}"), b"0,0,1,supports,\"{}\"\n".to_vec());
    assert_eq!(node_csv_header(), "id,label,properties\n");
    assert_eq!(edge_csv_header(), "id,src,dst,label,properties\n");
}

#[test]
fn unknown_names_read_as_a_question_mark() {
    let mut store = Store::new();
    let a = store.add_node("Run", vec![], None, prov());
    assert_eq!(a, NodeId(0));
    assert_eq!(store.name_of(0), "Run");
    assert_eq!(store.name_of(99), "?");
}

#[test]
fn csv_rows_write_ids_in_decimal() {
    let mut store = Store::new();
    let mut last = NodeId(0);
    for _ in 0..12 {
        last = store.add_node("N", vec![], None, prov());
    }
    let node = store.nodes().get(&last).unwrap();
    assert_eq!(store.node_csv_row(node, ""), b"11,N,\"\"\n".to_vec());
}
