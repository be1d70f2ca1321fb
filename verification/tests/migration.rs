use padagonia::migration::{CurrentVersion, Migration, MigrationManager, V1ToCurrent};
use padagonia::{FileHeader, StoreError, StringTable, VERSION};

#[test]
fn needs_migration_detects_older_versions() {
    let mut header = FileHeader::new(StringTable::new(), 0);
    header.version = 1;
    assert!(MigrationManager::needs_migration(&header));

    header.version = VERSION;
    assert!(!MigrationManager::needs_migration(&header));
}

#[test]
fn current_version_migration_is_noop() {
    assert_eq!(CurrentVersion::target_version(), VERSION);
}

#[test]
fn supported_versions_includes_v1_forward_migration() {
    let (min, max) = MigrationManager::supported_versions();
    assert_eq!(min, 1);
    assert_eq!(max, VERSION);
}

#[test]
fn migrate_upgrades_v1_and_rejects_version_zero() {
    let mut header = FileHeader::new(StringTable::new(), 0);
    header.version = 1;
    assert!(MigrationManager::migrate(header).unwrap());
    let current = FileHeader::new(StringTable::new(), 0);
    assert!(!MigrationManager::migrate(current).unwrap());
    let mut zero = FileHeader::new(StringTable::new(), 0);
    zero.version = 0;
    assert!(matches!(MigrationManager::migrate(zero), Err(StoreError::BadHeader)));
    assert_eq!(V1ToCurrent::target_version(), VERSION);
}
