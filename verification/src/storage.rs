//! Errors and bounds of the on-disk storage format.

use crate::block::{edges_view, magic_bytes, nodes_view, Block, BlockKind, BlockPayload, BlockPayloadView, FileHeader, MAGIC, VERSION};
use crate::id::{EdgeId, LabelId, NodeId, RelationId};
use crate::id_sets::{edge_set_insert, edge_set_members, edge_set_new, node_set_insert, node_set_members, node_set_new};
use crate::checksum::{crc32, validate_checksum};
use crate::edge::{Edge, EdgeView};
use crate::fact::FactSubject;
use crate::graph_maps::{edge_get, edge_keys, fact_get, fact_keys, node_get, node_keys, provenances_view};
use crate::id::KeyId;
use crate::migration::MigrationManager;
use crate::node::{Node, NodeView};
use crate::ontology::StringTable;
use crate::provenance::{provenance_is_valid, provenance_valid, Provenance, ProvenanceView};
use crate::store::{Store, StoreView};
use crate::value::{f32_bits_finite, f32_bits_is_finite, f64_bits_finite, f64_bits_is_finite, props_view, Scalar, ScalarView};
use vstd::prelude::*;

verus! {

/// Hard upper bound on the size of a single storage file, in bytes.
pub const MAX_STORE_BYTES: u64 = 8589934592;

/// Hard upper bound on the number of blocks a file may declare.
pub const MAX_BLOCK_COUNT: u64 = 1_000_000;

/// Declares `std::io::Error`, the error of a failed read or write.
#[verifier::external_type_specification]
#[verifier::external_body]
pub struct ExIoError(std::io::Error);

/// Declares `rmp_serde::encode::Error`, the error of a failed MessagePack encoding.
#[verifier::external_type_specification]
#[verifier::external_body]
pub struct ExEncodeError(rmp_serde::encode::Error);

/// Declares `rmp_serde::decode::Error`, the error of a failed MessagePack decoding.
#[verifier::external_type_specification]
#[verifier::external_body]
pub struct ExDecodeError(rmp_serde::decode::Error);

#[derive(Debug)]
pub enum StoreError {
    Io(std::io::Error),
    MessagePackEncode(rmp_serde::encode::Error),
    MessagePackDecode(rmp_serde::decode::Error),
    CrcMismatch { block_index: usize },
    BadHeader,
    FrameTooLarge { len: u64 },
    TrailingBytes { bytes: usize },
    InconsistentBlockPayload,
    UnknownStringId { id: u32 },
    DanglingEdge { edge_id: u64 },
    CrossNamespaceEdge { edge_id: u64 },
    DanglingFact,
    DuplicateNodeId { id: u64 },
    DuplicateEdgeId { id: u64 },
    TooManyBlocks { count: u64 },
    StoreTooLarge { bytes: u64 },
    InvalidValue { context: &'static str },
}


/// Why a store with a node whose map key differs from its id is refused.
pub const NODE_KEY_MISMATCH: &'static str = "node map key does not match node id";

/// Why a store with an edge whose map key differs from its id is refused.
pub const EDGE_KEY_MISMATCH: &'static str = "edge map key does not match edge id";

/// Why a store whose node embeddings differ in length is refused.
pub const EMBEDDING_DIMENSIONS: &'static str = "node embeddings have inconsistent dimensions";

/// Why an empty or non-finite embedding is refused.
pub const EMBEDDING_INVALID: &'static str = "embedding must be non-empty and finite";

/// Why an invalid provenance is refused.
pub const PROVENANCE_INVALID: &'static str = "provenance identity, confidence, or cost is invalid";

/// Why a non-finite floating-point property is refused.
pub const PROPERTIES_NOT_FINITE: &'static str = "floating-point properties must be finite";

/// Refuses a file larger than `MAX_STORE_BYTES`.
pub fn check_store_size(bytes: u64) -> (r: Result<(), StoreError>)
    ensures
        r == (if bytes > MAX_STORE_BYTES { Err(StoreError::StoreTooLarge { bytes }) } else { Ok(()) }),
{
    if bytes > MAX_STORE_BYTES {
        Err(StoreError::StoreTooLarge { bytes })
    } else {
        Ok(())
    }
}

/// The verdict on a file header: a foreign magic, an older version (which would need a
/// migration) and any other version than the current one are refused as a bad header, and
/// then a declared block count over `MAX_BLOCK_COUNT`.
pub open spec fn header_verdict(magic: Seq<u8>, version: u8, block_count: u64) -> Result<(), StoreError> {
    if magic != magic_bytes() || version < VERSION || version != VERSION {
        Err(StoreError::BadHeader)
    } else if block_count > MAX_BLOCK_COUNT {
        Err(StoreError::TooManyBlocks { count: block_count })
    } else {
        Ok(())
    }
}

/// Checks a file header before any block is read.
pub fn check_header(header: &FileHeader) -> (r: Result<(), StoreError>)
    ensures
        r == header_verdict(header.magic@, header.version, header.block_count),
{
    let mut same = true;
    let mut i: usize = 0;
    proof {
        assert(MAGIC@ =~= magic_bytes());
    }
    while i < 8
        invariant
            i <= 8,
            MAGIC@ == magic_bytes(),
            same <==> forall|j: int| 0 <= j < i ==> header.magic@[j] == magic_bytes()[j],
        decreases 8 - i,
    {
        if header.magic[i] != MAGIC[i] {
            same = false;
        }
        i = i + 1;
    }
    proof {
        if same {
            assert(header.magic@ =~= magic_bytes());
        }
    }
    if !same {
        return Err(StoreError::BadHeader);
    }
    if MigrationManager::needs_migration(header) {
        return Err(StoreError::BadHeader);
    }
    if header.version != VERSION {
        return Err(StoreError::BadHeader);
    }
    if header.block_count > MAX_BLOCK_COUNT {
        return Err(StoreError::TooManyBlocks { count: header.block_count });
    }
    Ok(())
}

/// Refuses bytes left over after the declared blocks.
pub fn check_trailing_bytes(bytes: usize) -> (r: Result<(), StoreError>)
    ensures
        r == (if bytes > 0 { Err(StoreError::TrailingBytes { bytes }) } else { Ok(()) }),
{
    if bytes > 0 {
        Err(StoreError::TrailingBytes { bytes })
    } else {
        Ok(())
    }
}

/// Refuses a block whose payload does not match its checksum.
pub fn check_block_checksum(block_index: usize, block: &Block) -> (r: Result<(), StoreError>)
    ensures
        r == (if crc32(block.payload@) != block.checksum { Err(StoreError::CrcMismatch { block_index }) } else { Ok(()) }),
{
    if !validate_checksum(block.payload.as_slice(), block.checksum) {
        Err(StoreError::CrcMismatch { block_index })
    } else {
        Ok(())
    }
}

/// The first property key that the string table cannot resolve, if any.
pub open spec fn first_unknown_key(table_len: nat, props: Seq<(KeyId, ScalarView)>) -> Option<u32>
    decreases props.len(),
{
    if props.len() == 0 {
        None
    } else if props[0].0.0 >= table_len {
        Some(props[0].0.0)
    } else {
        first_unknown_key(table_len, props.drop_first())
    }
}

/// Every floating-point property is finite.
pub open spec fn properties_finite(props: Seq<(KeyId, ScalarView)>) -> bool {
    forall|i: int| 0 <= i < props.len() ==> (#[trigger] props[i].1 matches ScalarView::F64(b) ==> f64_bits_finite(b))
}

/// An embedding is non-empty and each of its numbers finite.
pub open spec fn embedding_valid(e: Seq<u32>) -> bool {
    e.len() > 0 && forall|i: int| 0 <= i < e.len() ==> f32_bits_finite(#[trigger] e[i])
}

/// What is wrong with a record's label or relation, keys, properties, provenance and
/// embedding, in the order they are checked.
pub open spec fn record_fault(
    table_len: nat,
    label: u32,
    props: Seq<(KeyId, ScalarView)>,
    provenance: ProvenanceView,
    embedding: Option<Seq<u32>>,
) -> Option<StoreError> {
    if label >= table_len {
        Some(StoreError::UnknownStringId { id: label })
    } else if first_unknown_key(table_len, props) is Some {
        Some(StoreError::UnknownStringId { id: first_unknown_key(table_len, props).unwrap() })
    } else if !properties_finite(props) {
        Some(StoreError::InvalidValue { context: PROPERTIES_NOT_FINITE })
    } else if !provenance_valid(provenance) {
        Some(StoreError::InvalidValue { context: PROVENANCE_INVALID })
    } else if embedding matches Some(e) && !embedding_valid(e) {
        Some(StoreError::InvalidValue { context: EMBEDDING_INVALID })
    } else {
        None
    }
}

/// What is wrong with a node on its own, if anything.
pub open spec fn node_fault(table_len: nat, n: NodeView) -> Option<StoreError> {
    record_fault(table_len, n.label.0, n.properties, n.provenance, n.embedding)
}

/// What is wrong with an edge, if anything: first its endpoints and their namespace,
/// then the edge on its own.
pub open spec fn edge_fault(s: StoreView, e: EdgeView) -> Option<StoreError> {
    if !s.nodes.contains_key(e.src.0) || !s.nodes.contains_key(e.dst.0) {
        Some(StoreError::DanglingEdge { edge_id: e.id.0 })
    } else if s.nodes[e.src.0].namespace != e.namespace || s.nodes[e.dst.0].namespace != e.namespace {
        Some(StoreError::CrossNamespaceEdge { edge_id: e.id.0 })
    } else {
        record_fault(s.strings.len(), e.label.0, e.properties, e.provenance, e.embedding)
    }
}

/// What is wrong with the facts about a subject, if anything.
pub open spec fn fact_fault(s: StoreView, subject: FactSubject, facts: Seq<ProvenanceView>) -> Option<StoreError> {
    if (subject matches FactSubject::Node(id) && !s.nodes.contains_key(id.0)) || (subject matches FactSubject::Edge(
        id,
    ) && !s.edges.contains_key(id.0)) {
        Some(StoreError::DanglingFact)
    } else if exists|i: int| 0 <= i < facts.len() && !provenance_valid(#[trigger] facts[i]) {
        Some(StoreError::InvalidValue { context: PROVENANCE_INVALID })
    } else {
        None
    }
}

/// All node embeddings have the same length.
pub open spec fn embedding_dimensions_agree(s: StoreView) -> bool {
    forall|a: u64, b: u64|
        #![trigger s.nodes[a].embedding, s.nodes[b].embedding]
        s.nodes.contains_key(a) && s.nodes.contains_key(b) && s.nodes[a].embedding is Some && s.nodes[b].embedding is Some
            ==> s.nodes[a].embedding.unwrap().len() == s.nodes[b].embedding.unwrap().len()
}

/// The nodes pass: none has a fault and their embeddings agree in length.
pub open spec fn nodes_valid(s: StoreView) -> bool {
    (forall|k: u64| #[trigger] s.nodes.contains_key(k) ==> node_fault(s.strings.len(), s.nodes[k]) is None)
        && embedding_dimensions_agree(s)
}

/// The edges pass: none has a fault.
pub open spec fn edges_valid(s: StoreView) -> bool {
    forall|k: u64| #[trigger] s.edges.contains_key(k) ==> edge_fault(s, s.edges[k]) is None
}

/// The facts pass: none has a fault.
pub open spec fn facts_valid(s: StoreView) -> bool {
    forall|k: FactSubject| #[trigger] s.facts.contains_key(k) ==> fact_fault(s, k, s.facts[k]) is None
}

/// A store fit to be written: its nodes, edges and facts all pass.
pub open spec fn store_valid(s: StoreView) -> bool {
    nodes_valid(s) && edges_valid(s) && facts_valid(s)
}

/// The errors validation may report for a store, whichever order its maps are walked in:
/// a fault of some node (or disagreeing embedding lengths) while the nodes fail; else a
/// fault of some edge while the edges fail; else a fault of some facts.
pub open spec fn store_fault(s: StoreView, e: StoreError) -> bool {
    if !nodes_valid(s) {
        (exists|k: u64| #[trigger] s.nodes.contains_key(k) && node_fault(s.strings.len(), s.nodes[k]) == Some(e)) || (
        e == StoreError::InvalidValue { context: EMBEDDING_DIMENSIONS } && !embedding_dimensions_agree(s))
    } else if !edges_valid(s) {
        exists|k: u64| #[trigger] s.edges.contains_key(k) && edge_fault(s, s.edges[k]) == Some(e)
    } else {
        exists|k: FactSubject| #[trigger] s.facts.contains_key(k) && fact_fault(s, k, s.facts[k]) == Some(e)
    }
}

/// The first property key not below `table_len`, if any.
fn unknown_key_of(table_len: usize, props: &Vec<(KeyId, Scalar)>) -> (r: Option<u32>)
    ensures
        r == first_unknown_key(table_len as nat, props_view(props@)),
{
    let ghost pv = props_view(props@);
    proof {
        assert(pv.subrange(0, pv.len() as int) =~= pv);
    }
    let mut i: usize = 0;
    while i < props.len()
        invariant
            i <= props@.len(),
            pv == props_view(props@),
            first_unknown_key(table_len as nat, pv) == first_unknown_key(table_len as nat, pv.subrange(i as int, pv.len() as int)),
        decreases props@.len() - i,
    {
        let ghost rest = pv.subrange(i as int, pv.len() as int);
        proof {
            assert(rest[0] == pv[i as int]);
            assert(rest.drop_first() =~= pv.subrange(i + 1, pv.len() as int));
        }
        if props[i].0.0 as usize >= table_len {
            return Some(props[i].0.0);
        }
        i = i + 1;
    }
    proof {
        assert(pv.subrange(i as int, pv.len() as int) =~= Seq::<(KeyId, ScalarView)>::empty());
    }
    None
}

/// Whether every floating-point property is finite.
fn properties_are_finite(props: &Vec<(KeyId, Scalar)>) -> (r: bool)
    ensures
        r == properties_finite(props_view(props@)),
{
    let ghost pv = props_view(props@);
    let mut i: usize = 0;
    while i < props.len()
        invariant
            i <= props@.len(),
            pv == props_view(props@),
            forall|j: int| 0 <= j < i ==> (#[trigger] pv[j].1 matches ScalarView::F64(b) ==> f64_bits_finite(b)),
        decreases props@.len() - i,
    {
        match &props[i].1 {
            Scalar::F64(b) => {
                if !f64_bits_is_finite(*b) {
                    proof {
                        assert(pv[i as int].1 == ScalarView::F64(*b));
                    }
                    return false;
                }
            },
            _ => {},
        }
        i = i + 1;
    }
    true
}

/// Whether an embedding is non-empty with every number finite.
fn embedding_is_valid(e: &Vec<u32>) -> (r: bool)
    ensures
        r == embedding_valid(e@),
{
    if e.len() == 0 {
        return false;
    }
    let mut i: usize = 0;
    while i < e.len()
        invariant
            i <= e@.len(),
            forall|j: int| 0 <= j < i ==> f32_bits_finite(#[trigger] e@[j]),
        decreases e@.len() - i,
    {
        if !f32_bits_is_finite(e[i]) {
            return false;
        }
        i = i + 1;
    }
    true
}

/// Checks a record's label or relation, keys, properties, provenance and embedding.
fn check_record(
    table_len: usize,
    label: u32,
    props: &Vec<(KeyId, Scalar)>,
    provenance: &Provenance,
    embedding: &Option<Vec<u32>>,
) -> (r: Result<(), StoreError>)
    ensures
        r == (match record_fault(table_len as nat, label, props_view(props@), provenance@, crate::node::embedding_view(*embedding)) {
            Some(e) => Err(e),
            None => Ok(()),
        }),
{
    if label as usize >= table_len {
        return Err(StoreError::UnknownStringId { id: label });
    }
    match unknown_key_of(table_len, props) {
        Some(k) => {
            return Err(StoreError::UnknownStringId { id: k });
        },
        None => {},
    }
    if !properties_are_finite(props) {
        return Err(StoreError::InvalidValue { context: PROPERTIES_NOT_FINITE });
    }
    if !provenance_is_valid(provenance) {
        return Err(StoreError::InvalidValue { context: PROVENANCE_INVALID });
    }
    match embedding {
        Some(e) => {
            if !embedding_is_valid(e) {
                return Err(StoreError::InvalidValue { context: EMBEDDING_INVALID });
            }
        },
        None => {},
    }
    Ok(())
}

/// Checks that every provenance of a list is valid.
fn provenances_are_valid(facts: &Vec<Provenance>) -> (r: bool)
    ensures
        r == !exists|i: int| 0 <= i < facts@.len() && !provenance_valid(#[trigger] provenances_view(facts@)[i]),
{
    let ghost pv = provenances_view(facts@);
    let mut i: usize = 0;
    while i < facts.len()
        invariant
            i <= facts@.len(),
            pv == provenances_view(facts@),
            forall|j: int| 0 <= j < i ==> provenance_valid(#[trigger] pv[j]),
        decreases facts@.len() - i,
    {
        if !provenance_is_valid(&facts[i]) {
            proof {
                assert(!provenance_valid(provenances_view(facts@)[i as int]));
            }
            return false;
        }
        i = i + 1;
    }
    true
}

/// Checks a store before it is written: every node, edge and fact must pass, and node
/// embeddings must agree in length.
pub fn validate_store(store: &Store) -> (r: Result<(), StoreError>)
    requires
        store.wf(),
    ensures
        match r {
            Ok(()) => store_valid(store@),
            Err(e) => !store_valid(store@) && store_fault(store@, e),
        },
{
    proof {
        store.lemma_view_fields();
    }
    let ghost s = store@;
    let table_len = store.string_table.len();
    // Nodes.
    let keys = node_keys(&store.nodes);
    let mut dimension: Option<usize> = None;
    let mut i: usize = 0;
    while i < keys.len()
        invariant
            i <= keys@.len(),
            s == store@,
            table_len == s.strings.len(),
            crate::graph_maps::node_entries(store.nodes) == s.nodes,
            crate::store::store_view_wf(s),
            keys@.len() == s.nodes.dom().len(),
            forall|j: int| 0 <= j < keys@.len() ==> s.nodes.contains_key(#[trigger] keys@[j].0),
            forall|k: u64| s.nodes.contains_key(k) ==> exists|j: int| 0 <= j < keys@.len() && #[trigger] keys@[j].0 == k,
            forall|j: int| 0 <= j < i ==> node_fault(table_len as nat, #[trigger] s.nodes[keys@[j].0]) is None,
            match dimension {
                None => forall|j: int| 0 <= j < i ==> (#[trigger] s.nodes[keys@[j].0]).embedding is None,
                Some(d) => (exists|j: int| 0 <= j < i && (#[trigger] s.nodes[keys@[j].0]).embedding is Some)
                    && forall|j: int| 0 <= j < i && (#[trigger] s.nodes[keys@[j].0]).embedding is Some
                        ==> s.nodes[keys@[j].0].embedding.unwrap().len() == d,
            },
        decreases keys@.len() - i,
    {
        let key = keys[i];
        let n = match node_get(&store.nodes, &key) {
            Some(n) => n,
            None => {
                i = i + 1;
                continue;
            },
        };
        proof {
            assert(n@ == s.nodes[keys@[i as int].0]);
        }
        if key.0 != n.id.0 {
            return Err(StoreError::InvalidValue { context: NODE_KEY_MISMATCH });
        }
        match check_record(table_len, n.label.0, &n.properties, &n.provenance, &n.embedding) {
            Err(e) => {
                proof {
                    assert(!nodes_valid(s)) by {
                        assert(s.nodes.contains_key(key.0));
                    }
                    assert(s.nodes.contains_key(key.0) && node_fault(s.strings.len(), s.nodes[key.0]) == Some(e));
                }
                return Err(e);
            },
            Ok(()) => {},
        }
        match &n.embedding {
            Some(e) => {
                match dimension {
                    Some(d) => {
                        if d != e.len() {
                            proof {
                                let j = choose|j: int| 0 <= j < i && (#[trigger] s.nodes[keys@[j].0]).embedding is Some;
                                assert(!embedding_dimensions_agree(s)) by {
                                    let a = keys@[j].0;
                                    let b = key.0;
                                    assert(s.nodes[a].embedding is Some && s.nodes[b].embedding is Some);
                                    assert(s.nodes[a].embedding.unwrap().len() != s.nodes[b].embedding.unwrap().len());
                                }
                            }
                            return Err(StoreError::InvalidValue { context: EMBEDDING_DIMENSIONS });
                        }
                    },
                    None => {
                        dimension = Some(e.len());
                    },
                }
            },
            None => {},
        }
        i = i + 1;
    }
    proof {
        assert forall|k: u64| #[trigger] s.nodes.contains_key(k) implies node_fault(s.strings.len(), s.nodes[k]) is None by {
            let j = choose|j: int| 0 <= j < keys@.len() && #[trigger] keys@[j].0 == k;
            assert(node_fault(table_len as nat, s.nodes[keys@[j].0]) is None);
        }
        assert(embedding_dimensions_agree(s)) by {
            assert forall|a: u64, b: u64|
                #![trigger s.nodes[a].embedding, s.nodes[b].embedding]
                s.nodes.contains_key(a) && s.nodes.contains_key(b) && s.nodes[a].embedding is Some && s.nodes[b].embedding is Some
                implies s.nodes[a].embedding.unwrap().len() == s.nodes[b].embedding.unwrap().len() by {
                let ja = choose|j: int| 0 <= j < keys@.len() && #[trigger] keys@[j].0 == a;
                let jb = choose|j: int| 0 <= j < keys@.len() && #[trigger] keys@[j].0 == b;
                assert((s.nodes[keys@[ja].0]).embedding is Some);
                assert((s.nodes[keys@[jb].0]).embedding is Some);
            }
        }
        assert(nodes_valid(s));
    }
    // Edges.
    let ekeys = edge_keys(&store.edges);
    let mut i: usize = 0;
    while i < ekeys.len()
        invariant
            i <= ekeys@.len(),
            s == store@,
            nodes_valid(s),
            crate::store::store_view_wf(s),
            crate::graph_maps::node_entries(store.nodes) == s.nodes,
            crate::graph_maps::edge_entries(store.edges) == s.edges,
            table_len == s.strings.len(),
            forall|j: int| 0 <= j < ekeys@.len() ==> s.edges.contains_key(#[trigger] ekeys@[j].0),
            forall|k: u64| s.edges.contains_key(k) ==> exists|j: int| 0 <= j < ekeys@.len() && #[trigger] ekeys@[j].0 == k,
            forall|j: int| 0 <= j < i ==> edge_fault(s, #[trigger] s.edges[ekeys@[j].0]) is None,
        decreases ekeys@.len() - i,
    {
        let key = ekeys[i];
        let e = match edge_get(&store.edges, &key) {
            Some(e) => e,
            None => {
                i = i + 1;
                continue;
            },
        };
        proof {
            assert(e@ == s.edges[ekeys@[i as int].0]);
        }
        if key.0 != e.id.0 {
            return Err(StoreError::InvalidValue { context: EDGE_KEY_MISMATCH });
        }
        let src = node_get(&store.nodes, &e.src);
        let dst = node_get(&store.nodes, &e.dst);
        let verdict = match (src, dst) {
            (Some(a), Some(b)) => {
                if a.namespace != e.namespace || b.namespace != e.namespace {
                    Err(StoreError::CrossNamespaceEdge { edge_id: e.id.0 })
                } else {
                    check_record(table_len, e.label.0, &e.properties, &e.provenance, &e.embedding)
                }
            },
            _ => Err(StoreError::DanglingEdge { edge_id: e.id.0 }),
        };
        match verdict {
            Err(err) => {
                proof {
                    assert(s.edges.contains_key(key.0) && edge_fault(s, s.edges[key.0]) == Some(err));
                    assert(!edges_valid(s));
                }
                return Err(err);
            },
            Ok(()) => {},
        }
        i = i + 1;
    }
    proof {
        assert forall|k: u64| #[trigger] s.edges.contains_key(k) implies edge_fault(s, s.edges[k]) is None by {
            let j = choose|j: int| 0 <= j < ekeys@.len() && #[trigger] ekeys@[j].0 == k;
            assert(edge_fault(s, s.edges[ekeys@[j].0]) is None);
        }
        assert(edges_valid(s));
    }
    // Facts.
    let fkeys = fact_keys(&store.facts);
    let mut i: usize = 0;
    while i < fkeys.len()
        invariant
            i <= fkeys@.len(),
            s == store@,
            nodes_valid(s),
            edges_valid(s),
            crate::graph_maps::node_entries(store.nodes) == s.nodes,
            crate::graph_maps::edge_entries(store.edges) == s.edges,
            crate::graph_maps::fact_entries(store.facts) == s.facts,
            forall|j: int| 0 <= j < fkeys@.len() ==> s.facts.contains_key(#[trigger] fkeys@[j]),
            forall|k: FactSubject| s.facts.contains_key(k) ==> exists|j: int| 0 <= j < fkeys@.len() && #[trigger] fkeys@[j] == k,
            forall|j: int| 0 <= j < i ==> fact_fault(s, #[trigger] fkeys@[j], s.facts[fkeys@[j]]) is None,
        decreases fkeys@.len() - i,
    {
        let subject = fkeys[i];
        let facts = match fact_get(&store.facts, &subject) {
            Some(f) => f,
            None => {
                i = i + 1;
                continue;
            },
        };
        let present = match subject {
            FactSubject::Node(id) => node_get(&store.nodes, &id).is_some(),
            FactSubject::Edge(id) => edge_get(&store.edges, &id).is_some(),
        };
        let verdict = if !present {
            Err(StoreError::DanglingFact)
        } else if !provenances_are_valid(facts) {
            Err(StoreError::InvalidValue { context: PROVENANCE_INVALID })
        } else {
            Ok(())
        };
        match verdict {
            Err(err) => {
                proof {
                    assert(s.facts.contains_key(subject) && fact_fault(s, subject, s.facts[subject]) == Some(err));
                    assert(!facts_valid(s));
                }
                return Err(err);
            },
            Ok(()) => {},
        }
        i = i + 1;
    }
    proof {
        assert forall|k: FactSubject| #[trigger] s.facts.contains_key(k) implies fact_fault(s, k, s.facts[k]) is None by {
            let j = choose|j: int| 0 <= j < fkeys@.len() && #[trigger] fkeys@[j] == k;
            assert(fact_fault(s, fkeys@[j], s.facts[fkeys@[j]]) is None);
        }
    }
    Ok(())
}


/// The abstract value of a list of decoded blocks.
pub open spec fn decoded_view(decoded: Seq<(BlockKind, BlockPayload)>) -> Seq<(BlockKind, BlockPayloadView)> {
    decoded.map_values(|b: (BlockKind, BlockPayload)| (b.0, b.1@))
}

/// Checks the nodes of one block from position `j` on, given the node ids seen so far:
/// the ids seen by the end, or the first problem — a repeated id, a node of another
/// label, or an id the string table cannot resolve.
pub open spec fn node_run(table_len: nat, label: LabelId, nodes: Seq<NodeView>, j: int, seen: Set<u64>) -> Result<Set<u64>, StoreError>
    decreases nodes.len() - j,
{
    if j < 0 || j >= nodes.len() {
        Ok(seen)
    } else {
        let n = nodes[j];
        if seen.contains(n.id.0) {
            Err(StoreError::DuplicateNodeId { id: n.id.0 })
        } else if n.label != label {
            Err(StoreError::InconsistentBlockPayload)
        } else if n.label.0 >= table_len {
            Err(StoreError::UnknownStringId { id: n.label.0 })
        } else if first_unknown_key(table_len, n.properties) is Some {
            Err(StoreError::UnknownStringId { id: first_unknown_key(table_len, n.properties).unwrap() })
        } else {
            node_run(table_len, label, nodes, j + 1, seen.insert(n.id.0))
        }
    }
}

/// Checks the edges of one block from position `j` on, as `node_run` does nodes.
pub open spec fn edge_run(table_len: nat, relation: RelationId, edges: Seq<EdgeView>, j: int, seen: Set<u64>) -> Result<Set<u64>, StoreError>
    decreases edges.len() - j,
{
    if j < 0 || j >= edges.len() {
        Ok(seen)
    } else {
        let e = edges[j];
        if seen.contains(e.id.0) {
            Err(StoreError::DuplicateEdgeId { id: e.id.0 })
        } else if e.label != relation {
            Err(StoreError::InconsistentBlockPayload)
        } else if e.label.0 >= table_len {
            Err(StoreError::UnknownStringId { id: e.label.0 })
        } else if first_unknown_key(table_len, e.properties) is Some {
            Err(StoreError::UnknownStringId { id: first_unknown_key(table_len, e.properties).unwrap() })
        } else {
            edge_run(table_len, relation, edges, j + 1, seen.insert(e.id.0))
        }
    }
}

/// Checks decoded blocks from block `i` on, given the node and edge ids seen so far:
/// the first problem, in block order. A block's kind must agree with its payload (and
/// its label or relation), its label or relation must resolve, and its records must
/// pass their run.
pub open spec fn blocks_fault(table_len: nat, blocks: Seq<(BlockKind, BlockPayloadView)>, i: int, nodes_seen: Set<u64>, edges_seen: Set<u64>) -> Option<StoreError>
    decreases blocks.len() - i,
{
    if i < 0 || i >= blocks.len() {
        None
    } else {
        match blocks[i] {
            (BlockKind::Nodes(kind_label), BlockPayloadView::Nodes { label, nodes }) => if kind_label != label {
                Some(StoreError::InconsistentBlockPayload)
            } else if label.0 >= table_len {
                Some(StoreError::UnknownStringId { id: label.0 })
            } else {
                match node_run(table_len, label, nodes, 0, nodes_seen) {
                    Err(e) => Some(e),
                    Ok(seen) => blocks_fault(table_len, blocks, i + 1, seen, edges_seen),
                }
            },
            (BlockKind::Edges(kind_relation), BlockPayloadView::Edges { relation, edges }) => if kind_relation != relation {
                Some(StoreError::InconsistentBlockPayload)
            } else if relation.0 >= table_len {
                Some(StoreError::UnknownStringId { id: relation.0 })
            } else {
                match edge_run(table_len, relation, edges, 0, edges_seen) {
                    Err(e) => Some(e),
                    Ok(seen) => blocks_fault(table_len, blocks, i + 1, nodes_seen, seen),
                }
            },
            (BlockKind::Facts, BlockPayloadView::Facts { .. }) => blocks_fault(table_len, blocks, i + 1, nodes_seen, edges_seen),
            _ => Some(StoreError::InconsistentBlockPayload),
        }
    }
}

/// Checks the nodes of one block against the node ids seen so far.
fn check_node_block(table_len: usize, label: LabelId, nodes: &Vec<Node>, seen: &mut ahash::AHashSet<NodeId>) -> (r: Result<(), StoreError>)
    ensures
        match node_run(table_len as nat, label, nodes_view(nodes@), 0, node_set_members(*old(seen))) {
            Ok(after) => r is Ok && node_set_members(*final(seen)) == after,
            Err(e) => r == Err::<(), StoreError>(e),
        },
{
    let ghost nv = nodes_view(nodes@);
    let ghost start = node_set_members(*seen);
    let mut j: usize = 0;
    while j < nodes.len()
        invariant
            j <= nodes@.len(),
            nv == nodes_view(nodes@),
            start == node_set_members(*old(seen)),
            node_run(table_len as nat, label, nv, 0, start) == node_run(table_len as nat, label, nv, j as int, node_set_members(*seen)),
        decreases nodes@.len() - j,
    {
        let n = &nodes[j];
        proof {
            assert(nv[j as int] == n@);
        }
        let ghost before = node_set_members(*seen);
        proof {
            assert(node_run(table_len as nat, label, nv, j as int, before) == (if before.contains(n.id.0) {
                Err(StoreError::DuplicateNodeId { id: n.id.0 })
            } else if n@.label != label {
                Err(StoreError::InconsistentBlockPayload)
            } else if n@.label.0 >= table_len {
                Err(StoreError::UnknownStringId { id: n@.label.0 })
            } else if first_unknown_key(table_len as nat, n@.properties) is Some {
                Err(StoreError::UnknownStringId { id: first_unknown_key(table_len as nat, n@.properties).unwrap() })
            } else {
                node_run(table_len as nat, label, nv, j + 1, before.insert(n.id.0))
            }));
        }
        if !node_set_insert(seen, n.id) {
            return Err(StoreError::DuplicateNodeId { id: n.id.0 });
        }
        if n.label != label {
            return Err(StoreError::InconsistentBlockPayload);
        }
        if n.label.0 as usize >= table_len {
            return Err(StoreError::UnknownStringId { id: n.label.0 });
        }
        match unknown_key_of(table_len, &n.properties) {
            Some(k) => {
                return Err(StoreError::UnknownStringId { id: k });
            },
            None => {},
        }
        j = j + 1;
    }
    Ok(())
}

/// Checks the edges of one block against the edge ids seen so far.
fn check_edge_block(table_len: usize, relation: RelationId, edges: &Vec<Edge>, seen: &mut ahash::AHashSet<EdgeId>) -> (r: Result<(), StoreError>)
    ensures
        match edge_run(table_len as nat, relation, edges_view(edges@), 0, edge_set_members(*old(seen))) {
            Ok(after) => r is Ok && edge_set_members(*final(seen)) == after,
            Err(e) => r == Err::<(), StoreError>(e),
        },
{
    let ghost ev = edges_view(edges@);
    let ghost start = edge_set_members(*seen);
    let mut j: usize = 0;
    while j < edges.len()
        invariant
            j <= edges@.len(),
            ev == edges_view(edges@),
            start == edge_set_members(*old(seen)),
            edge_run(table_len as nat, relation, ev, 0, start) == edge_run(table_len as nat, relation, ev, j as int, edge_set_members(*seen)),
        decreases edges@.len() - j,
    {
        let e = &edges[j];
        proof {
            assert(ev[j as int] == e@);
        }
        let ghost before = edge_set_members(*seen);
        proof {
            assert(edge_run(table_len as nat, relation, ev, j as int, before) == (if before.contains(e.id.0) {
                Err(StoreError::DuplicateEdgeId { id: e.id.0 })
            } else if e@.label != relation {
                Err(StoreError::InconsistentBlockPayload)
            } else if e@.label.0 >= table_len {
                Err(StoreError::UnknownStringId { id: e@.label.0 })
            } else if first_unknown_key(table_len as nat, e@.properties) is Some {
                Err(StoreError::UnknownStringId { id: first_unknown_key(table_len as nat, e@.properties).unwrap() })
            } else {
                edge_run(table_len as nat, relation, ev, j + 1, before.insert(e.id.0))
            }));
        }
        if !edge_set_insert(seen, e.id) {
            return Err(StoreError::DuplicateEdgeId { id: e.id.0 });
        }
        if e.label != relation {
            return Err(StoreError::InconsistentBlockPayload);
        }
        if e.label.0 as usize >= table_len {
            return Err(StoreError::UnknownStringId { id: e.label.0 });
        }
        match unknown_key_of(table_len, &e.properties) {
            Some(k) => {
                return Err(StoreError::UnknownStringId { id: k });
            },
            None => {},
        }
        j = j + 1;
    }
    Ok(())
}

/// Checks decoded blocks before a store is rebuilt from them: each block's kind agrees
/// with its payload, every label, relation and key resolves, and no node or edge id
/// occurs twice. Reports the first problem, in block order.
pub fn validate_decoded_blocks(decoded: &Vec<(BlockKind, BlockPayload)>, string_table: &StringTable) -> (r: Result<(), StoreError>)
    ensures
        r == (match blocks_fault(string_table@.len(), decoded_view(decoded@), 0, Set::empty(), Set::empty()) {
            Some(e) => Err(e),
            None => Ok(()),
        }),
{
    let table_len = string_table.len();
    let ghost bv = decoded_view(decoded@);
    let mut node_ids = node_set_new();
    let mut edge_ids = edge_set_new();
    proof {
        assert(node_set_members(node_ids) =~= Set::empty());
        assert(edge_set_members(edge_ids) =~= Set::empty());
    }
    let mut i: usize = 0;
    while i < decoded.len()
        invariant
            i <= decoded@.len(),
            table_len == string_table@.len(),
            bv == decoded_view(decoded@),
            blocks_fault(table_len as nat, bv, 0, Set::empty(), Set::empty()) == blocks_fault(
                table_len as nat,
                bv,
                i as int,
                node_set_members(node_ids),
                edge_set_members(edge_ids),
            ),
        decreases decoded@.len() - i,
    {
        let block = &decoded[i];
        proof {
            assert(bv[i as int] == (block.0, block.1@));
        }
        match (&block.0, &block.1) {
            (BlockKind::Nodes(kind_label), BlockPayload::Nodes { label, nodes }) => {
                if *kind_label != *label {
                    return Err(StoreError::InconsistentBlockPayload);
                }
                if label.0 as usize >= table_len {
                    return Err(StoreError::UnknownStringId { id: label.0 });
                }
                match check_node_block(table_len, *label, nodes, &mut node_ids) {
                    Err(e) => {
                        return Err(e);
                    },
                    Ok(()) => {},
                }
            },
            (BlockKind::Edges(kind_relation), BlockPayload::Edges { relation, edges }) => {
                if *kind_relation != *relation {
                    return Err(StoreError::InconsistentBlockPayload);
                }
                if relation.0 as usize >= table_len {
                    return Err(StoreError::UnknownStringId { id: relation.0 });
                }
                match check_edge_block(table_len, *relation, edges, &mut edge_ids) {
                    Err(e) => {
                        return Err(e);
                    },
                    Ok(()) => {},
                }
            },
            (BlockKind::Facts, BlockPayload::Facts { .. }) => {},
            _ => {
                return Err(StoreError::InconsistentBlockPayload);
            },
        }
        i = i + 1;
    }
    Ok(())
}

} // verus!
