use padagonia::{compare_shadow_reads, NamespaceId, Outbox, OutboxEvent};

#[test]
fn outbox_is_tenant_scoped_and_acknowledgeable() {
    let first = NamespaceId::new("first").unwrap();
    let second = NamespaceId::new("second").unwrap();
    let mut outbox = Outbox::default();
    outbox.append(first.clone(), "run.created".to_string(), vec![1]);
    let second_sequence = outbox.append(second, "run.created".to_string(), vec![2]);
    assert_eq!(outbox.pending(&first, 10).len(), 1);
    outbox.acknowledge_through(second_sequence);
    assert!(outbox.is_empty());
}

#[test]
fn shadow_diff_reports_equivalence() {
    assert!(compare_shadow_reads(vec![1, 2], vec![1, 2]).equivalent);
    assert!(!compare_shadow_reads(vec![1], vec![2]).equivalent);
}

#[test]
fn sequences_count_up_and_pending_respects_limit_and_order() {
    let ns = NamespaceId::new("ns").unwrap();
    let mut outbox = Outbox::new();
    assert_eq!(outbox.append(ns.clone(), "a".to_string(), vec![]), 0);
    assert_eq!(outbox.append(ns.clone(), "b".to_string(), vec![]), 1);
    assert_eq!(outbox.append(ns.clone(), "c".to_string(), vec![]), 2);
    let page = outbox.pending(&ns, 2);
    assert_eq!(page.len(), 2);
    assert_eq!(page[0].sequence, 0);
    assert_eq!(page[1].event_type, "b");
    outbox.acknowledge_through(0);
    assert_eq!(outbox.len(), 2);
    assert_eq!(outbox.pending(&ns, 10)[0].sequence, 1);
}

#[test]
fn replayed_events_keep_their_order_and_advance_the_sequence() {
    let ns = NamespaceId::new("ns").unwrap();
    let event = |sequence: u64| OutboxEvent {
        sequence,
        namespace: ns.clone(),
        event_type: "e".to_string(),
        payload: vec![],
    };
    let mut outbox = Outbox::new();
    outbox.replay_event(event(4));
    outbox.replay_event(event(9));
    assert_eq!(outbox.len(), 2);
    assert_eq!(outbox.append(ns.clone(), "next".to_string(), vec![]), 10);
    outbox.acknowledge_through(4);
    assert_eq!(outbox.pending(&ns, 10)[0].sequence, 9);
}

#[test]
fn replayed_events_out_of_order_are_kept_and_acknowledged_as_a_prefix() {
    let ns = NamespaceId::new("ns").unwrap();
    let event = |sequence: u64| OutboxEvent {
        sequence,
        namespace: ns.clone(),
        event_type: "e".to_string(),
        payload: vec![],
    };
    let mut outbox = Outbox::new();
    outbox.replay_event(event(7));
    outbox.replay_event(event(3));
    assert_eq!(outbox.len(), 2);
    assert_eq!(outbox.append(ns.clone(), "next".to_string(), vec![]), 8);
    outbox.acknowledge_through(5);
    assert_eq!(outbox.len(), 3);
    outbox.acknowledge_through(7);
    assert_eq!(outbox.len(), 1);
    assert_eq!(outbox.pending(&ns, 10)[0].sequence, 8);
}
