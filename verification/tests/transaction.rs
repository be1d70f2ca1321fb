use padagonia::transaction::{
    apply_missing_mutations, apply_mutations, check_record_checksum, check_record_length, replay_commits,
    replay_missing_commits, validate_transaction, JournalRecord, MAX_RECORD_BYTES,
};
use padagonia::{
    compute_checksum, CommitResult, IdentityError, JournalError, JournalState, Mutation, NamespaceId, NodeId,
    Provenance, Store, Transaction,
};

fn prov() -> Provenance {
    Provenance::new("agent", "model", 1.0f32.to_bits(), 0.0f32.to_bits(), 1, vec![])
}

fn ns() -> NamespaceId {
    NamespaceId::new("workspace").unwrap()
}

fn add_node(id: &str) -> Mutation {
    Mutation::AddNode {
        namespace: ns(),
        external_id: id.to_string(),
        label: "Run".to_string(),
        properties: vec![],
        embedding: None,
        provenance: prov(),
    }
}

fn add_edge(id: &str, src: u64, dst: u64) -> Mutation {
    Mutation::AddEdge {
        namespace: ns(),
        external_id: id.to_string(),
        src: NodeId(src),
        dst: NodeId(dst),
        label: "supports".to_string(),
        properties: vec![],
        embedding: None,
        provenance: prov(),
    }
}

fn transaction(key: &str) -> Transaction {
    Transaction {
        idempotency_key: key.to_string(),
        mutations: vec![add_node("run-1"), add_node("run-2"), add_edge("link", 0, 1)],
    }
}

#[test]
fn transactions_need_a_key_and_a_mutation() {
    assert!(validate_transaction(&transaction("ingest-1")).is_ok());
    assert!(matches!(
        validate_transaction(&transaction("  ")),
        Err(JournalError::EmptyIdempotencyKey)
    ));
    let empty = Transaction { idempotency_key: "k".to_string(), mutations: vec![] };
    assert!(matches!(validate_transaction(&empty), Err(JournalError::EmptyBatch)));
}

#[test]
fn record_length_and_checksum_are_checked() {
    assert!(check_record_length(MAX_RECORD_BYTES).is_ok());
    assert!(matches!(
        check_record_length(MAX_RECORD_BYTES + 1),
        Err(JournalError::RecordTooLarge(n)) if n == MAX_RECORD_BYTES + 1
    ));
    let payload = b"record".to_vec();
    assert!(check_record_checksum(&payload, compute_checksum(&payload)).is_ok());
    assert!(matches!(
        check_record_checksum(&payload, compute_checksum(&payload) ^ 1),
        Err(JournalError::CorruptRecord)
    ));
}

#[test]
fn apply_creates_nodes_then_edges_in_order() {
    let mut store = Store::new();
    let (nodes, edges) = apply_mutations(&mut store, &transaction("k").mutations).unwrap();
    assert_eq!(nodes, vec![NodeId(0), NodeId(1)]);
    assert_eq!(edges.len(), 1);
    assert_eq!(store.stats().0, 2);
    assert_eq!(store.stats().1, 1);
}

#[test]
fn apply_stops_at_a_duplicate_identity() {
    let mut store = Store::new();
    let batch = vec![add_node("run-1"), add_node("run-1")];
    assert!(matches!(
        apply_mutations(&mut store, &batch),
        Err(JournalError::Identity(IdentityError::DuplicateExternalId))
    ));
    assert_eq!(store.nodes().len(), 1);
}

#[test]
fn apply_missing_skips_what_exists() {
    let mut store = Store::new();
    apply_mutations(&mut store, &transaction("k").mutations).unwrap();
    let (nodes, edges) = apply_missing_mutations(&mut store, &transaction("k").mutations).unwrap();
    assert_eq!(nodes, vec![NodeId(0), NodeId(1)]);
    assert_eq!(edges.len(), 1);
    assert_eq!(store.nodes().len(), 2);
    assert_eq!(store.edges().len(), 1);
}

#[test]
fn commit_is_idempotent_under_its_key() {
    let mut journal = JournalState::new();
    let store = Store::new();
    let t = transaction("ingest-1");
    assert_eq!(journal.prior_result(&t).unwrap(), None);
    journal.note_prepared(t.clone());
    assert_eq!(journal.prepared_len(), 1);
    let (working, result) = journal.stage(&store, &t).unwrap();
    assert_eq!(result.sequence, 0);
    journal.note_committed(t.clone(), result.clone());
    assert_eq!(journal.prepared_len(), 0);
    assert_eq!(journal.committed_len(), 1);
    assert_eq!(journal.next_sequence(), 1);
    assert_eq!(journal.prior_result(&t).unwrap(), Some(result.clone()));
    assert_eq!(journal.committed_result("ingest-1"), Some(&result));
    assert_eq!(working.nodes().len(), 2);
    assert_eq!(store.nodes().len(), 0);
}

#[test]
fn truncated_tail_is_treated_as_uncommitted() {
    let mut journal = JournalState::new();
    let t = transaction("ingest-1");
    journal.replay_record(JournalRecord::Prepare(t.clone())).unwrap();
    assert_eq!(journal.committed_len(), 0);
    assert_eq!(journal.prepared_len(), 1);
    assert!(journal.committed_result("ingest-1").is_none());
}

#[test]
fn replay_recovers_commits_in_sequence_order() {
    let mut journal = JournalState::new();
    let first = transaction("a");
    let second = Transaction { idempotency_key: "b".to_string(), mutations: vec![add_node("run-3")] };
    journal.replay_record(JournalRecord::Prepare(first.clone())).unwrap();
    journal.replay_record(JournalRecord::Prepare(second.clone())).unwrap();
    journal
        .replay_record(JournalRecord::Commit {
            transaction: second.clone(),
            result: CommitResult { sequence: 1, node_ids: vec![NodeId(2)], edge_ids: vec![] },
        })
        .unwrap();
    journal
        .replay_record(JournalRecord::Commit {
            transaction: first.clone(),
            result: CommitResult { sequence: 0, node_ids: vec![NodeId(0), NodeId(1)], edge_ids: vec![] },
        })
        .unwrap();
    assert_eq!(journal.next_sequence(), 2);
    let commits = journal.commits_in_order();
    assert_eq!(commits.len(), 2);
    assert_eq!(commits[0].0.idempotency_key, "a");
    assert_eq!(commits[1].0.idempotency_key, "b");

    let mut store = Store::new();
    let results = replay_commits(&mut store, &commits).unwrap();
    assert_eq!(results.len(), 2);
    assert_eq!(store.nodes().len(), 3);

    let again = replay_missing_commits(&mut store, &commits).unwrap();
    assert_eq!(again.len(), 2);
    assert_eq!(store.nodes().len(), 3);
}

#[test]
fn commit_without_prepare_is_refused() {
    let mut journal = JournalState::new();
    let t = transaction("x");
    assert!(matches!(
        journal.replay_record(JournalRecord::Commit {
            transaction: t,
            result: CommitResult { sequence: 0, node_ids: vec![], edge_ids: vec![] },
        }),
        Err(JournalError::MissingPreparedTransaction)
    ));
    journal.clear();
    assert_eq!(journal.next_sequence(), 0);
}

#[test]
fn a_fresh_store_has_room_for_a_small_batch() {
    let store = padagonia::Store::new();
    let batch = vec![padagonia::Mutation::AddNode {
        namespace: padagonia::NamespaceId::default(),
        external_id: "n".to_string(),
        label: "L".to_string(),
        properties: vec![("a".to_string(), padagonia::Scalar::Null)],
        embedding: None,
        provenance: padagonia::Provenance::new("a", "m", 1.0f32.to_bits(), 0.0f32.to_bits(), 1, vec![]),
    }];
    assert!(padagonia::transaction::has_room(&store, &batch));
    assert!(padagonia::transaction::has_room_for_commits(&store, &vec![]));
}

#[test]
fn a_commit_runs_through_its_steps_and_is_answered_afterwards() {
    let mut store = Store::new();
    let mut journal = JournalState::new();
    let t = transaction("step-1");
    assert!(matches!(journal.begin_commit(&store, &t), Ok(padagonia::transaction::CommitStep::WritePrepare)));
    let (working, result) = journal.prepare_and_stage(&store, &t).unwrap();
    assert_eq!(journal.prepared_len(), 1);
    assert_eq!(store.stats().0, 0);
    journal.finish_commit(&mut store, t.clone(), working, result.clone());
    assert_eq!(journal.prepared_len(), 0);
    assert_eq!(journal.committed_len(), 1);
    assert_eq!(store.stats().0, result.node_ids.len());
    match journal.begin_commit(&store, &t) {
        Ok(padagonia::transaction::CommitStep::Answered(again)) => assert_eq!(again, result),
        other => panic!("expected the recorded result, got {other:?}"),
    }
    let empty = Transaction { idempotency_key: "k".to_string(), mutations: vec![] };
    assert!(matches!(journal.begin_commit(&store, &empty), Err(JournalError::EmptyBatch)));
}
