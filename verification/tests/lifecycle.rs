use padagonia::{LifecycleError, LifecycleRegistry, NamespaceId, RecordKey, RetentionPolicy, Tombstone};

fn key(namespace: &str, id: &str) -> RecordKey {
    RecordKey {
        namespace: NamespaceId::new(namespace).unwrap(),
        external_id: id.into(),
    }
}

#[test]
fn stale_replay_is_blocked_and_retention_is_bounded() {
    let record = key("workspace", "run-1");
    let mut registry = LifecycleRegistry::default();
    registry
        .tombstone(Tombstone {
            key: record.clone(),
            deleted_at: 10,
            reason: "user deletion".into(),
            schema_version: 1,
        })
        .unwrap();
    assert_eq!(registry.accepts_replay(&record), Err(LifecycleError::Tombstoned));
    assert!(!registry.eligible_for_compaction(
        &record,
        19,
        &RetentionPolicy {
            retention_seconds: 10,
            preserve_audit: true
        }
    ));
    assert!(registry.eligible_for_compaction(
        &record,
        20,
        &RetentionPolicy {
            retention_seconds: 10,
            preserve_audit: true
        }
    ));
}

#[test]
fn supersession_and_namespace_plan_are_scoped() {
    let old = key("workspace", "old");
    let new = key("workspace", "new");
    let other = key("other", "record");
    let mut registry = LifecycleRegistry::default();
    registry.supersede(old.clone(), new.clone()).unwrap();
    assert_eq!(registry.replacement(&old), Some(&new));
    assert_eq!(
        registry
            .deletion_plan(&old.namespace.clone(), vec![old, new, other])
            .len(),
        2
    );
}

#[test]
fn retraction_reports_repeats() {
    let record = key("workspace", "run-2");
    let mut registry = LifecycleRegistry::new();
    assert_eq!(registry.accepts_replay(&record), Ok(()));
    assert!(!registry.is_retracted(&record));
    assert_eq!(registry.retract(record.clone()), Ok(true));
    assert_eq!(registry.retract(record.clone()), Ok(false));
    assert!(registry.is_retracted(&record));
}

#[test]
fn empty_ids_and_self_supersession_are_refused() {
    let mut registry = LifecycleRegistry::new();
    assert_eq!(registry.retract(key("workspace", "")), Err(LifecycleError::EmptyId));
    let a = key("workspace", "a");
    assert_eq!(registry.supersede(a.clone(), a.clone()), Err(LifecycleError::SelfSupersession));
    assert_eq!(registry.supersede(a.clone(), key("other", "")), Err(LifecycleError::EmptyId));
    assert_eq!(registry.replacement(&a), None);
}

#[test]
fn audit_free_policy_compacts_only_after_retention() {
    let record = key("workspace", "gone");
    let mut registry = LifecycleRegistry::new();
    registry
        .tombstone(Tombstone { key: record.clone(), deleted_at: 5, reason: "x".into(), schema_version: 1 })
        .unwrap();
    assert_eq!(registry.get_tombstone(&record).unwrap().deleted_at, 5);
    assert_eq!(registry.tombstones().len(), 1);
    let never = key("workspace", "never");
    let policy = RetentionPolicy { retention_seconds: 0, preserve_audit: false };
    assert!(!registry.eligible_for_compaction(&never, 100, &policy));
}

#[test]
fn compaction_once_due_stays_due() {
    let record = key("workspace", "old-run");
    let mut registry = LifecycleRegistry::new();
    registry
        .tombstone(Tombstone { key: record.clone(), deleted_at: 100, reason: "gone".into(), schema_version: 1 })
        .unwrap();
    let policy = RetentionPolicy { retention_seconds: 50, preserve_audit: true };
    assert!(!registry.eligible_for_compaction(&record, 149, &policy));
    assert!(registry.eligible_for_compaction(&record, 150, &policy));
    assert!(registry.eligible_for_compaction(&record, 10_000, &policy));
    assert!(!registry.eligible_for_compaction(&record, 0, &policy));
}
