//! Block and file-header data structures of the storage format.

use crate::checksum::{compute_checksum, crc32};
use crate::edge::{Edge, EdgeView};
use crate::fact::FactSubject;
use crate::id::{LabelId, RelationId};
use crate::node::{Node, NodeView};
use crate::provenance::{Provenance, ProvenanceView};
use crate::ontology::StringTable;
use vstd::prelude::*;

verus! {

/// The eight bytes every PADAGONIA file starts with: `PADAGON` and a newline.
pub const MAGIC: [u8; 8] = [80, 65, 68, 65, 71, 79, 78, 10];

/// The storage format version this library writes and reads.
pub const VERSION: u8 = 2;

/// The bytes of `MAGIC`.
pub open spec fn magic_bytes() -> Seq<u8> {
    seq![80u8, 65u8, 68u8, 65u8, 71u8, 79u8, 78u8, 10u8]
}

#[derive(Clone, Copy, Debug, PartialEq, Eq, Structural)]
pub enum BlockKind {
    Nodes(LabelId),
    Edges(RelationId),
    Facts,
}

/// The records one block holds: the nodes of one label, the edges of one relation, or
/// facts beyond the canonical provenance of their subjects.
#[derive(Debug)]
pub enum BlockPayload {
    Nodes { label: LabelId, nodes: Vec<Node> },
    Edges { relation: RelationId, edges: Vec<Edge> },
    Facts { entries: Vec<(FactSubject, Provenance)> },
}

/// The abstract value of a `BlockPayload`.
pub enum BlockPayloadView {
    Nodes { label: LabelId, nodes: Seq<NodeView> },
    Edges { relation: RelationId, edges: Seq<EdgeView> },
    Facts { entries: Seq<(FactSubject, ProvenanceView)> },
}

/// The abstract values of a list of nodes.
pub open spec fn nodes_view(v: Seq<Node>) -> Seq<NodeView> {
    v.map_values(|n: Node| n@)
}

/// The abstract values of a list of edges.
pub open spec fn edges_view(v: Seq<Edge>) -> Seq<EdgeView> {
    v.map_values(|e: Edge| e@)
}

/// The abstract values of a list of fact entries.
pub open spec fn fact_entries_view(v: Seq<(FactSubject, Provenance)>) -> Seq<(FactSubject, ProvenanceView)> {
    v.map_values(|e: (FactSubject, Provenance)| (e.0, e.1@))
}

impl View for BlockPayload {
    type V = BlockPayloadView;

    open spec fn view(&self) -> BlockPayloadView {
        match self {
            BlockPayload::Nodes { label, nodes } => BlockPayloadView::Nodes { label: *label, nodes: nodes_view(nodes@) },
            BlockPayload::Edges { relation, edges } => BlockPayloadView::Edges { relation: *relation, edges: edges_view(edges@) },
            BlockPayload::Facts { entries } => BlockPayloadView::Facts { entries: fact_entries_view(entries@) },
        }
    }
}

/// A block of encoded records and the checksum of its payload.
#[derive(Debug)]
pub struct Block {
    pub kind: BlockKind,
    pub payload: Vec<u8>,
    pub checksum: u32,
}

/// The header at the start of a storage file.
#[derive(Debug)]
pub struct FileHeader {
    pub magic: [u8; 8],
    pub version: u8,
    pub string_table: StringTable,
    pub block_count: u64,
}

/// The kind of block that carries a payload: the nodes of its label, the edges of its
/// relation, or facts.
pub open spec fn payload_kind(p: BlockPayloadView) -> BlockKind {
    match p {
        BlockPayloadView::Nodes { label, .. } => BlockKind::Nodes(label),
        BlockPayloadView::Edges { relation, .. } => BlockKind::Edges(relation),
        BlockPayloadView::Facts { .. } => BlockKind::Facts,
    }
}

impl BlockPayload {
    /// The kind of block that carries this payload: the nodes of its label, the edges of
    /// its relation, or facts.
    pub fn kind(&self) -> (k: BlockKind)
        ensures
            k == payload_kind(self@),
    {
        match self {
            BlockPayload::Nodes { label, .. } => BlockKind::Nodes(*label),
            BlockPayload::Edges { relation, .. } => BlockKind::Edges(*relation),
            BlockPayload::Facts { .. } => BlockKind::Facts,
        }
    }
}

impl Block {
    /// Wraps a payload in a block, computing its checksum.
    pub fn new(kind: BlockKind, payload: Vec<u8>) -> (b: Self)
        ensures
            b.kind == kind,
            b.payload == payload,
            b.checksum == crc32(payload@),
    {
        let checksum = compute_checksum(payload.as_slice());
        Block { kind, payload, checksum }
    }
}

impl FileHeader {
    /// A header of the current version for `block_count` blocks.
    pub fn new(string_table: StringTable, block_count: u64) -> (h: Self)
        ensures
            h.magic@ == magic_bytes(),
            h.version == VERSION,
            h.string_table == string_table,
            h.block_count == block_count,
    {
        let h = FileHeader { magic: MAGIC, version: VERSION, string_table, block_count };
        assert(h.magic@ =~= magic_bytes());
        h
    }
}

} // verus!
