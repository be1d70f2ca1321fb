//! Dreamsequence control-plane ontology names.

use vstd::prelude::*;

verus! {

#[derive(Clone, Copy, Debug, PartialEq, Eq, Structural)]
pub enum NodeKind {
    Account,
    Workspace,
    Principal,
    Device,
    Run,
    Source,
    Repository,
    Pattern,
    Opportunity,
    Capability,
    InferenceRequest,
    WebhookReceipt,
    AuditEvent,
    Subscription,
}

/// The label of each node kind.
pub open spec fn node_kind_name(kind: NodeKind) -> Seq<char> {
    match kind {
        NodeKind::Account => "Account"@,
        NodeKind::Workspace => "Workspace"@,
        NodeKind::Principal => "Principal"@,
        NodeKind::Device => "Device"@,
        NodeKind::Run => "Run"@,
        NodeKind::Source => "Source"@,
        NodeKind::Repository => "Repository"@,
        NodeKind::Pattern => "Pattern"@,
        NodeKind::Opportunity => "Opportunity"@,
        NodeKind::Capability => "Capability"@,
        NodeKind::InferenceRequest => "InferenceRequest"@,
        NodeKind::WebhookReceipt => "WebhookReceipt"@,
        NodeKind::AuditEvent => "AuditEvent"@,
        NodeKind::Subscription => "Subscription"@,
    }
}

impl NodeKind {
    pub fn as_str(self) -> (r: &'static str)
        ensures
            r@ == node_kind_name(self),
    {
        match self {
            NodeKind::Account => "Account",
            NodeKind::Workspace => "Workspace",
            NodeKind::Principal => "Principal",
            NodeKind::Device => "Device",
            NodeKind::Run => "Run",
            NodeKind::Source => "Source",
            NodeKind::Repository => "Repository",
            NodeKind::Pattern => "Pattern",
            NodeKind::Opportunity => "Opportunity",
            NodeKind::Capability => "Capability",
            NodeKind::InferenceRequest => "InferenceRequest",
            NodeKind::WebhookReceipt => "WebhookReceipt",
            NodeKind::AuditEvent => "AuditEvent",
            NodeKind::Subscription => "Subscription",
        }
    }
}

#[derive(Clone, Copy, Debug, PartialEq, Eq, Structural)]
pub enum RelationKind {
    Contains,
    MemberOf,
    PairedTo,
    Emitted,
    ObservedIn,
    BelongsTo,
    Repeats,
    Supports,
    Suggests,
    Extends,
    Implements,
    ValidatedBy,
    ReleasedAs,
    ChargedTo,
    Supersedes,
}

/// The relation name of each relation kind.
pub open spec fn relation_kind_name(kind: RelationKind) -> Seq<char> {
    match kind {
        RelationKind::Contains => "contains"@,
        RelationKind::MemberOf => "member_of"@,
        RelationKind::PairedTo => "paired_to"@,
        RelationKind::Emitted => "emitted"@,
        RelationKind::ObservedIn => "observed_in"@,
        RelationKind::BelongsTo => "belongs_to"@,
        RelationKind::Repeats => "repeats"@,
        RelationKind::Supports => "supports"@,
        RelationKind::Suggests => "suggests"@,
        RelationKind::Extends => "extends"@,
        RelationKind::Implements => "implements"@,
        RelationKind::ValidatedBy => "validated_by"@,
        RelationKind::ReleasedAs => "released_as"@,
        RelationKind::ChargedTo => "charged_to"@,
        RelationKind::Supersedes => "supersedes"@,
    }
}

impl RelationKind {
    pub fn as_str(self) -> (r: &'static str)
        ensures
            r@ == relation_kind_name(self),
    {
        match self {
            RelationKind::Contains => "contains",
            RelationKind::MemberOf => "member_of",
            RelationKind::PairedTo => "paired_to",
            RelationKind::Emitted => "emitted",
            RelationKind::ObservedIn => "observed_in",
            RelationKind::BelongsTo => "belongs_to",
            RelationKind::Repeats => "repeats",
            RelationKind::Supports => "supports",
            RelationKind::Suggests => "suggests",
            RelationKind::Extends => "extends",
            RelationKind::Implements => "implements",
            RelationKind::ValidatedBy => "validated_by",
            RelationKind::ReleasedAs => "released_as",
            RelationKind::ChargedTo => "charged_to",
            RelationKind::Supersedes => "supersedes",
        }
    }
}

/// Every node label the control plane requires.
pub const REQUIRED_NODE_KINDS: [&'static str; 14] = ["Account", "Workspace", "Principal", "Device", "Run", "Source", "Repository", "Pattern", "Opportunity", "Capability", "InferenceRequest", "WebhookReceipt", "AuditEvent", "Subscription"];

/// Every relation name the control plane requires.
pub const REQUIRED_RELATION_KINDS: [&'static str; 15] = ["contains", "member_of", "paired_to", "emitted", "observed_in", "belongs_to", "repeats", "supports", "suggests", "extends", "implements", "validated_by", "released_as", "charged_to", "supersedes"];

} // verus!
