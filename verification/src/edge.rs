//! Edges of the graph.

use crate::id::{EdgeId, KeyId, NodeId, RelationId};
use crate::identity::NamespaceId;
use crate::node::{clone_embedding, embedding_view};
use crate::provenance::{Provenance, ProvenanceView};
use crate::value::{clone_props, props_view, Scalar, ScalarView};
use vstd::prelude::*;

verus! {

/// An immutable directed edge in the PADAGONIA graph. The embedding holds `f32` bit
/// patterns.
#[derive(Debug)]
pub struct Edge {
    pub id: EdgeId,
    /// Stable identity used by APIs and idempotent ingestion.
    pub external_id: String,
    pub namespace: NamespaceId,
    pub src: NodeId,
    pub dst: NodeId,
    pub label: RelationId,
    pub properties: Vec<(KeyId, Scalar)>,
    pub embedding: Option<Vec<u32>>,
    pub provenance: Provenance,
}

/// The abstract value of an `Edge`.
pub struct EdgeView {
    pub id: EdgeId,
    pub external_id: Seq<char>,
    pub namespace: Seq<char>,
    pub src: NodeId,
    pub dst: NodeId,
    pub label: RelationId,
    pub properties: Seq<(KeyId, ScalarView)>,
    pub embedding: Option<Seq<u32>>,
    pub provenance: ProvenanceView,
}

impl View for Edge {
    type V = EdgeView;

    open spec fn view(&self) -> EdgeView {
        EdgeView {
            id: self.id,
            external_id: self.external_id@,
            namespace: self.namespace@,
            src: self.src,
            dst: self.dst,
            label: self.label,
            properties: props_view(self.properties@),
            embedding: embedding_view(self.embedding),
            provenance: self.provenance@,
        }
    }
}

impl Clone for Edge {
    fn clone(&self) -> (r: Self)
        ensures
            r@ == self@,
    {
        Edge {
            id: self.id,
            external_id: self.external_id.clone(),
            namespace: self.namespace.clone(),
            src: self.src,
            dst: self.dst,
            label: self.label,
            properties: clone_props(&self.properties),
            embedding: clone_embedding(&self.embedding),
            provenance: self.provenance.clone(),
        }
    }
}

} // verus!
