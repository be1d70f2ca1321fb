use padagonia::identity::{append_hex16, default_external_id, default_schema_version};
use padagonia::{stable_external_id, IdentityError, NamespaceId, CURRENT_SCHEMA_VERSION};

#[test]
fn stable_ids_are_repeatable_and_namespace_scoped() {
    let alpha = NamespaceId::new("account-a").unwrap();
    let beta = NamespaceId::new("account-b").unwrap();
    assert_eq!(
        stable_external_id(&alpha, "Run", "source=one;sequence=1"),
        stable_external_id(&alpha, "Run", "source=one;sequence=1")
    );
    assert_ne!(
        stable_external_id(&alpha, "Run", "source=one;sequence=1"),
        stable_external_id(&beta, "Run", "source=one;sequence=1")
    );
}

#[test]
fn namespace_rejects_unsafe_values() {
    assert!(NamespaceId::new("account/secret").is_err());
    assert!(NamespaceId::new("account.good:v1").is_ok());
}

#[test]
fn namespace_errors_name_the_failure() {
    assert_eq!(NamespaceId::new("").err(), Some(IdentityError::InvalidNamespace));
    assert_eq!(NamespaceId::new(&"a".repeat(257)).err(), Some(IdentityError::InvalidNamespace));
    assert_eq!(NamespaceId::new(&"a".repeat(256)).unwrap().as_str().len(), 256);
    assert_eq!(NamespaceId::default().as_str(), "default");
}

#[test]
fn stable_id_has_kind_prefix_and_two_hex_halves() {
    let ns = NamespaceId::new("account-a").unwrap();
    let id = stable_external_id(&ns, "Run", "x");
    assert!(id.starts_with("Run_"));
    assert_eq!(id.len(), 4 + 32);
    assert!(id[4..].chars().all(|c| c.is_ascii_hexdigit() && !c.is_ascii_uppercase()));
    assert_ne!(id, stable_external_id(&ns, "Run", "y"));
}

#[test]
fn hex16_renders_zero_padded_lowercase() {
    let mut s = String::from("p");
    append_hex16(&mut s, 0xab);
    assert_eq!(s, "p00000000000000ab");
}

#[test]
fn defaults_are_current_version_and_empty_id() {
    assert_eq!(default_schema_version(), CURRENT_SCHEMA_VERSION);
    assert_eq!(default_external_id(), "");
}

#[test]
fn a_raw_namespace_keeps_its_text_unchecked() {
    let raw = NamespaceId::from_raw("not valid!".to_string());
    assert_eq!(raw.as_str(), "not valid!");
    assert!(NamespaceId::new("not valid!").is_err());
}

#[test]
fn seconds_since_epoch_takes_whole_seconds_or_zero() {
    let d = std::time::Duration::from_millis(5_999);
    assert_eq!(padagonia::identity::seconds_since_epoch(Ok(d)), 5);
    let epoch = std::time::UNIX_EPOCH;
    let before = epoch.duration_since(epoch + std::time::Duration::from_secs(1));
    assert!(before.is_err());
    assert_eq!(padagonia::identity::seconds_since_epoch(before), 0);
}
