use padagonia::auth::{authenticate_request, constant_time_eq};
use padagonia::{CredentialRegistry, NamespaceId, Role};

#[test]
fn constant_time_eq_matches_only_identical_inputs() {
    assert!(constant_time_eq(b"Bearer s3cret", b"Bearer s3cret"));
    assert!(!constant_time_eq(b"Bearer s3cret", b"Bearer s3creX"));
    assert!(!constant_time_eq(b"Bearer s3cret", b"Bearer"));
    assert!(!constant_time_eq(b"", b"Bearer "));
}

fn registry() -> CredentialRegistry {
    let mut registry = CredentialRegistry::default();
    registry.insert_token("s3cret", NamespaceId::new("workspace").unwrap(), Role::Reader);
    registry.insert_token("root", NamespaceId::default(), Role::Administrator);
    registry
}

#[test]
fn bearer_token_authenticates_in_its_namespace() {
    let registry = registry();
    let principal = authenticate_request(&registry, Some(Ok("Bearer s3cret")), Some("workspace")).unwrap();
    assert_eq!(principal.namespace.as_str(), "workspace");
    assert_eq!(principal.role, Role::Reader);
}

#[test]
fn missing_or_unreadable_or_non_bearer_headers_are_unauthorized() {
    let registry = registry();
    assert_eq!(authenticate_request(&registry, None, Some("workspace")).err(), Some(401));
    assert_eq!(authenticate_request(&registry, Some(Err(())), Some("workspace")).err(), Some(401));
    assert_eq!(authenticate_request(&registry, Some(Ok("Basic s3cret")), Some("workspace")).err(), Some(401));
    assert_eq!(authenticate_request(&registry, Some(Ok("Bearer wrong")), Some("workspace")).err(), Some(401));
}

#[test]
fn malformed_namespace_is_a_bad_request() {
    let registry = registry();
    assert_eq!(authenticate_request(&registry, Some(Ok("Bearer s3cret")), Some("a/b")).err(), Some(400));
}

#[test]
fn missing_namespace_means_default() {
    let registry = registry();
    let principal = authenticate_request(&registry, Some(Ok("Bearer root")), None).unwrap();
    assert_eq!(principal.namespace.as_str(), "default");
    assert_eq!(principal.role, Role::Administrator);
}
