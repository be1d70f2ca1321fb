//! Versioned wire contract models. Internal maps and storage files stay private.

use crate::identity::NamespaceId;
use crate::id::LabelId;
use crate::query::NodeQuery;
use crate::transaction::{mutations_view, CommitResult, Mutation, Transaction};
use vstd::prelude::*;

verus! {

/// The version of the wire contract.
pub const API_VERSION: &'static str = "v1";

/// A batch of mutations as a client sends it.
#[derive(Debug)]
pub struct BatchMutationRequest {
    pub namespace: NamespaceId,
    pub idempotency_key: String,
    pub mutations: Vec<Mutation>,
}

impl BatchMutationRequest {
    /// The transaction the request asks for: its idempotency key and mutations.
    pub fn into_transaction(self) -> (t: Transaction)
        ensures
            t.idempotency_key == self.idempotency_key,
            t.mutations == self.mutations,
    {
        Transaction { idempotency_key: self.idempotency_key, mutations: self.mutations }
    }
}

/// The answer to a batch of mutations.
#[derive(Debug)]
pub struct BatchMutationResponse {
    pub api_version: String,
    pub result: CommitResult,
}

/// A page query as a client sends it: always scoped to a namespace.
#[derive(Debug)]
pub struct NodeQueryRequest {
    pub namespace: NamespaceId,
    pub label: Option<u32>,
    pub created_after: Option<u64>,
    pub created_before: Option<u64>,
    pub limit: usize,
    pub cursor: Option<String>,
}

impl NodeQueryRequest {
    /// The query the request asks for, in its namespace.
    pub fn into_query(self) -> (q: NodeQuery)
        ensures
            q.namespace == Some(self.namespace),
            q.label == (match self.label {
                Some(l) => Some(LabelId(l)),
                None => None,
            }),
            q.created_after == self.created_after,
            q.created_before == self.created_before,
            q.limit == self.limit,
            q.cursor == self.cursor,
    {
        NodeQuery {
            namespace: Some(self.namespace),
            label: match self.label {
                Some(l) => Some(LabelId(l)),
                None => None,
            },
            created_after: self.created_after,
            created_before: self.created_before,
            limit: self.limit,
            cursor: self.cursor,
        }
    }
}

/// One page of node ids, and the cursor of the next.
#[derive(Debug)]
pub struct PageCursorResponse {
    pub api_version: String,
    pub node_ids: Vec<u64>,
    pub next_cursor: Option<String>,
}

} // verus!
