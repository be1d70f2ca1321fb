//! Nodes of the graph.

use crate::id::{KeyId, LabelId, NodeId};
use crate::identity::NamespaceId;
use crate::provenance::{Provenance, ProvenanceView};
use crate::value::{clone_props, clone_u32s, props_view, Scalar, ScalarView};
use vstd::prelude::*;

verus! {

/// An immutable node in the PADAGONIA graph. The embedding holds `f32` bit patterns.
#[derive(Debug)]
pub struct Node {
    pub id: NodeId,
    /// Stable identity used by APIs and idempotent ingestion.
    pub external_id: String,
    pub namespace: NamespaceId,
    pub created_at: u64,
    pub updated_at: Option<u64>,
    pub schema_version: u16,
    pub label: LabelId,
    pub properties: Vec<(KeyId, Scalar)>,
    pub embedding: Option<Vec<u32>>,
    pub provenance: Provenance,
}

/// The abstract value of a `Node`.
pub struct NodeView {
    pub id: NodeId,
    pub external_id: Seq<char>,
    pub namespace: Seq<char>,
    pub created_at: u64,
    pub updated_at: Option<u64>,
    pub schema_version: u16,
    pub label: LabelId,
    pub properties: Seq<(KeyId, ScalarView)>,
    pub embedding: Option<Seq<u32>>,
    pub provenance: ProvenanceView,
}

/// An optional embedding viewed abstractly.
pub open spec fn embedding_view(e: Option<Vec<u32>>) -> Option<Seq<u32>> {
    match e {
        Some(v) => Some(v@),
        None => None,
    }
}

/// Clones an optional embedding.
pub fn clone_embedding(e: &Option<Vec<u32>>) -> (r: Option<Vec<u32>>)
    ensures
        embedding_view(r) == embedding_view(*e),
{
    match e {
        Some(v) => Some(clone_u32s(v)),
        None => None,
    }
}

impl View for Node {
    type V = NodeView;

    open spec fn view(&self) -> NodeView {
        NodeView {
            id: self.id,
            external_id: self.external_id@,
            namespace: self.namespace@,
            created_at: self.created_at,
            updated_at: self.updated_at,
            schema_version: self.schema_version,
            label: self.label,
            properties: props_view(self.properties@),
            embedding: embedding_view(self.embedding),
            provenance: self.provenance@,
        }
    }
}

impl Clone for Node {
    fn clone(&self) -> (r: Self)
        ensures
            r@ == self@,
    {
        Node {
            id: self.id,
            external_id: self.external_id.clone(),
            namespace: self.namespace.clone(),
            created_at: self.created_at,
            updated_at: self.updated_at,
            schema_version: self.schema_version,
            label: self.label,
            properties: clone_props(&self.properties),
            embedding: clone_embedding(&self.embedding),
            provenance: self.provenance.clone(),
        }
    }
}

} // verus!
