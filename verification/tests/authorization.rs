use padagonia::{
    AuthorizationError, CredentialRegistry, NamespaceId, Operation, QuotaError, QuotaRegistry, Role,
    TenantQuota,
};

#[test]
fn revocation_and_roles_are_enforced() {
    let namespace = NamespaceId::new("workspace").unwrap();
    let mut registry = CredentialRegistry::default();
    registry.insert_token("secret-token", namespace.clone(), Role::Writer);
    assert!(registry
        .authorize("secret-token", &namespace, Operation::Write)
        .is_ok());
    assert_eq!(
        registry.authorize("secret-token", &namespace, Operation::Bill),
        Err(AuthorizationError::Forbidden)
    );
    registry.revoke("secret-token");
    assert_eq!(
        registry.authorize("secret-token", &namespace, Operation::Read),
        Err(AuthorizationError::Unauthenticated)
    );
}

#[test]
fn quota_reservations_are_atomic() {
    let namespace = NamespaceId::new("workspace").unwrap();
    let mut quotas = QuotaRegistry::default();
    quotas.set_quota(
        namespace.clone(),
        TenantQuota {
            max_nodes: 2,
            max_edges: 1,
            max_bytes: 100,
            max_requests: 1,
        },
    );
    assert!(quotas.reserve_graph(&namespace, 2, 1, 100).is_ok());
    assert_eq!(
        quotas.reserve_graph(&namespace, 1, 0, 0),
        Err(QuotaError::Storage)
    );
    assert_eq!(quotas.usage(&namespace).nodes, 2);
}

#[test]
fn administrator_reaches_other_namespaces() {
    let mut registry = CredentialRegistry::default();
    registry.insert_token("root", NamespaceId::default(), Role::Administrator);
    let other = NamespaceId::new("elsewhere").unwrap();
    let principal = registry.authorize("root", &other, Operation::Administer).unwrap();
    assert_eq!(principal.namespace.as_str(), "elsewhere");
}

#[test]
fn request_quota_is_enforced() {
    let namespace = NamespaceId::new("workspace").unwrap();
    let mut quotas = QuotaRegistry::default();
    quotas.set_quota(
        namespace.clone(),
        TenantQuota {
            max_nodes: 1,
            max_edges: 1,
            max_bytes: 1,
            max_requests: 1,
        },
    );
    assert!(quotas.record_request(&namespace).is_ok());
    assert_eq!(quotas.record_request(&namespace), Err(QuotaError::Requests));
    assert_eq!(quotas.usage(&namespace).requests, 1);
}

#[test]
fn revoking_one_token_leaves_the_others() {
    let namespace = NamespaceId::new("workspace").unwrap();
    let mut registry = CredentialRegistry::default();
    registry.insert_token("first-token", namespace.clone(), Role::Reader);
    registry.insert_token("second-token", namespace.clone(), Role::Reader);
    assert!(registry.revoke("first-token"));
    assert!(!registry.revoke("never-issued"));
    assert!(registry.authenticate("first-token", &namespace).is_none());
    assert!(registry.authenticate("second-token", &namespace).is_some());
}
