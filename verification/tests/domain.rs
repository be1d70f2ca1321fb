use padagonia::{NodeKind, RelationKind, REQUIRED_NODE_KINDS, REQUIRED_RELATION_KINDS};

#[test]
fn ontology_covers_directive_kinds() {
    assert_eq!(REQUIRED_NODE_KINDS.len(), 14);
    assert_eq!(REQUIRED_RELATION_KINDS.len(), 15);
    assert_eq!(NodeKind::Run.as_str(), "Run");
    assert_eq!(RelationKind::Supersedes.as_str(), "supersedes");
}

#[test]
fn required_kind_lists_match_the_enums() {
    assert_eq!(REQUIRED_NODE_KINDS[0], NodeKind::Account.as_str());
    assert_eq!(REQUIRED_RELATION_KINDS[0], RelationKind::Contains.as_str());
}
