//! PADAGONIA: an ontology-native, append-only, provenance-rich graph store.
//!
//! This crate holds the verified core of the store: identities, ontology
//! interning, tenant authorization and quotas, lifecycle bookkeeping, the
//! outbox, the in-memory graph with its indexes, queries over it, and the
//! checks that guard the on-disk format.

pub mod id;
pub mod identity;
pub mod keyed;
pub mod auth;
pub mod authorization;
pub mod lifecycle;
pub mod outbox;
pub mod ontology;
pub mod checksum;
pub mod block;
pub mod storage;
pub mod migration;
pub mod frame;
pub mod domain;
pub mod app_config;
pub mod value;
pub mod provenance;
pub mod fact;
pub mod node;
pub mod edge;
pub mod graph_maps;
pub mod store;
pub mod query;
pub mod id_sets;
pub mod traversal;
pub mod snapshot;
pub mod snapshot_laws;
pub mod projection;
pub mod transaction;
pub mod contract;
pub mod hnsw;
pub mod requests;
pub mod bench_support;
pub mod benchmark_gate;
pub mod server_middleware;

pub use authorization::{
    AuthenticatedPrincipal, AuthorizationError, Credential, CredentialRegistry, Operation,
    QuotaError, QuotaRegistry, QuotaUsage, Role, TenantQuota,
};
pub use block::{Block, BlockKind, BlockPayload, FileHeader, MAGIC, VERSION};
pub use checksum::{compute_checksum, validate_checksum};
pub use contract::{
    BatchMutationRequest, BatchMutationResponse, NodeQueryRequest, PageCursorResponse, API_VERSION,
};
pub use domain::{NodeKind, RelationKind, REQUIRED_NODE_KINDS, REQUIRED_RELATION_KINDS};
pub use edge::Edge;
pub use fact::FactSubject;
pub use frame::MAX_FRAME_BYTES;
pub use id::{EdgeId, KeyId, LabelId, NodeId, RelationId};
pub use identity::{stable_external_id, IdentityError, NamespaceId, CURRENT_SCHEMA_VERSION};
pub use lifecycle::{LifecycleError, LifecycleRegistry, RecordKey, RetentionPolicy, Tombstone};
pub use node::Node;
pub use ontology::{StringTable, StringTableExt};
pub use outbox::{compare_shadow_reads, Outbox, OutboxEvent, ShadowReadDiff};
pub use provenance::Provenance;
pub use query::{NodePage, NodeQuery, QueryEngine};
pub use storage::{StoreError, MAX_BLOCK_COUNT, MAX_STORE_BYTES};
pub use store::Store;
pub use transaction::{CommitResult, JournalError, JournalState, Mutation, Transaction};
pub use value::Scalar;
