//! In-memory append-only graph store with ontology interning and indexes.

use crate::edge::{Edge, EdgeView};
use crate::fact::FactSubject;
use crate::graph_maps::{
    adjacency_clone, adjacency_entries, adjacency_get, adjacency_insert, adjacency_new,
    adjacency_remove, edge_clone, edge_entries, edge_external_clone, edge_external_entries,
    edge_external_get, edge_external_insert, edge_external_new, edge_get, edge_insert, edge_len,
    edge_new, fact_clone, fact_entries, fact_get, fact_insert, fact_new, fact_remove,
    label_index_clone, label_index_entries, label_index_get, label_index_insert, label_index_len,
    label_index_new, label_index_remove, node_clone, node_entries, node_external_clone,
    node_external_entries, node_external_get, node_external_insert, node_external_new, node_get,
    node_insert, node_len, node_new, provenances_view, relation_index_clone,
    relation_index_entries, relation_index_get, relation_index_insert, relation_index_len,
    relation_index_new, relation_index_remove,
};
use crate::id::{EdgeId, KeyId, LabelId, NodeId, RelationId};
use crate::identity::{IdentityError, NamespaceId, CURRENT_SCHEMA_VERSION};
use crate::node::{embedding_view, Node, NodeView};
use crate::ontology::{StringTable, StringTableExt};
use crate::provenance::{Provenance, ProvenanceView};
use crate::value::{Scalar, ScalarView};
use crate::snapshot_laws::{
    adding_a_fact_keeps_built_by_adding, adding_a_node_keeps_built_by_adding, adding_an_edge_keeps_built_by_adding,
    built_by_adding, subject_held,
};
use vstd::prelude::*;

verus! {

/// The list stored under `k`, or the empty list.
pub open spec fn list_or_empty<K, T>(m: Map<K, Seq<T>>, k: K) -> Seq<T> {
    if m.contains_key(k) {
        m[k]
    } else {
        Seq::empty()
    }
}

/// `m` with `x` appended to the list under `k` (created when absent).
pub open spec fn push_under<K, T>(m: Map<K, Seq<T>>, k: K, x: T) -> Map<K, Seq<T>> {
    m.insert(k, list_or_empty(m, k).push(x))
}

/// The id of string `s` in `strings`.
pub open spec fn string_index(strings: Seq<Seq<char>>, s: Seq<char>) -> int {
    choose|i: int| 0 <= i < strings.len() && strings[i] == s
}

/// The table after interning each of `names` in order.
pub open spec fn intern_all(strings: Seq<Seq<char>>, names: Seq<Seq<char>>) -> Seq<Seq<char>>
    decreases names.len(),
{
    if names.len() == 0 {
        strings
    } else {
        let before = intern_all(strings, names.drop_last());
        if before.contains(names.last()) {
            before
        } else {
            before.push(names.last())
        }
    }
}

/// Interning only appends: the old table is a prefix of the new one, every name is in
/// the new one, and at most one string per name is added.
pub proof fn lemma_intern_all(strings: Seq<Seq<char>>, names: Seq<Seq<char>>)
    ensures
        intern_all(strings, names).len() <= strings.len() + names.len(),
        intern_all(strings, names).len() >= strings.len(),
        intern_all(strings, names).take(strings.len() as int) == strings,
        forall|i: int| 0 <= i < names.len() ==> intern_all(strings, names).contains(#[trigger] names[i]),
        forall|i: int| 0 <= i < strings.len() ==> #[trigger] intern_all(strings, names)[i] == strings[i],
    decreases names.len(),
{
    if names.len() > 0 {
        lemma_intern_all(strings, names.drop_last());
        let before = intern_all(strings, names.drop_last());
        assert forall|i: int| 0 <= i < names.len() implies intern_all(strings, names).contains(#[trigger] names[i]) by {
            if i < names.len() - 1 {
                assert(names.drop_last()[i] == names[i]);
                let j = choose|j: int| 0 <= j < before.len() && before[j] == names[i];
                assert(intern_all(strings, names)[j] == names[i]);
            } else {
                if !before.contains(names.last()) {
                    assert(intern_all(strings, names)[before.len() as int] == names[i]);
                }
            }
        }
        assert(intern_all(strings, names).take(strings.len() as int) =~= strings);
    } else {
        assert(strings.take(strings.len() as int) =~= strings);
    }
}

/// Interning two lists of names in turn is interning their concatenation.
pub proof fn lemma_intern_all_append(strings: Seq<Seq<char>>, a: Seq<Seq<char>>, b: Seq<Seq<char>>)
    ensures
        intern_all(intern_all(strings, a), b) == intern_all(strings, a + b),
    decreases b.len(),
{
    if b.len() == 0 {
        assert(a + b =~= a);
    } else {
        lemma_intern_all_append(strings, a, b.drop_last());
        assert((a + b).drop_last() =~= a + b.drop_last());
        assert((a + b).last() == b.last());
    }
}

/// A property list given by names, viewed abstractly.
pub open spec fn named_props(props: Seq<(&str, Scalar)>) -> Seq<(Seq<char>, ScalarView)> {
    Seq::new(props.len(), |i: int| (props[i].0@, props[i].1@))
}

/// The names of a property list.
pub open spec fn prop_names(props: Seq<(Seq<char>, ScalarView)>) -> Seq<Seq<char>> {
    Seq::new(props.len(), |i: int| props[i].0)
}

/// A property list with its names replaced by their ids in `strings`.
pub open spec fn interned_props(strings: Seq<Seq<char>>, props: Seq<(Seq<char>, ScalarView)>) -> Seq<(KeyId, ScalarView)> {
    Seq::new(props.len(), |i: int| (KeyId(string_index(strings, props[i].0) as u32), props[i].1))
}

/// The node that adding a record with these parts creates, given the final table.
pub open spec fn new_node_view(
    strings: Seq<Seq<char>>,
    id: NodeId,
    namespace: Seq<char>,
    external_id: Seq<char>,
    label: Seq<char>,
    props: Seq<(Seq<char>, ScalarView)>,
    embedding: Option<Seq<u32>>,
    provenance: ProvenanceView,
) -> NodeView {
    NodeView {
        id,
        external_id,
        namespace,
        created_at: provenance.timestamp,
        updated_at: None,
        schema_version: CURRENT_SCHEMA_VERSION,
        label: LabelId(string_index(strings, label) as u32),
        properties: interned_props(strings, props),
        embedding,
        provenance,
    }
}

/// The edge that adding a record with these parts creates, given the final table.
pub open spec fn new_edge_view(
    strings: Seq<Seq<char>>,
    id: EdgeId,
    namespace: Seq<char>,
    external_id: Seq<char>,
    src: NodeId,
    dst: NodeId,
    label: Seq<char>,
    props: Seq<(Seq<char>, ScalarView)>,
    embedding: Option<Seq<u32>>,
    provenance: ProvenanceView,
) -> EdgeView {
    EdgeView {
        id,
        external_id,
        namespace,
        src,
        dst,
        label: RelationId(string_index(strings, label) as u32),
        properties: interned_props(strings, props),
        embedding,
        provenance,
    }
}

/// Adds the number of facts recorded under `k` to `acc`.
pub open spec fn add_fact_count(facts: Map<FactSubject, Seq<ProvenanceView>>) -> spec_fn(nat, FactSubject) -> nat {
    |acc: nat, k: FactSubject| acc + facts[k].len()
}

/// The number of facts recorded over all subjects.
pub open spec fn fact_total(facts: Map<FactSubject, Seq<ProvenanceView>>) -> nat {
    facts.dom().fold(0nat, add_fact_count(facts))
}

/// `n`, capped at `usize::MAX`.
pub open spec fn cap_usize(n: nat) -> usize {
    if n > usize::MAX {
        usize::MAX
    } else {
        n as usize
    }
}

/// Both endpoints exist and lie in `namespace`.
pub open spec fn endpoints_in_namespace(s: StoreView, src: NodeId, dst: NodeId, namespace: Seq<char>) -> bool {
    &&& s.nodes.contains_key(src.0)
    &&& s.nodes.contains_key(dst.0)
    &&& s.nodes[src.0].namespace == namespace
    &&& s.nodes[dst.0].namespace == namespace
}


/// The store after a stored node is put back: recorded under its id, listed under its
/// label, found by its external identity, and the next node id kept above it.
pub open spec fn restore_node_step(s: StoreView, n: NodeView) -> StoreView {
    StoreView {
        nodes: s.nodes.insert(n.id.0, n),
        node_label_index: push_under(s.node_label_index, n.label.0, n.id),
        node_external: s.node_external.insert((n.namespace, n.external_id), n.id.0),
        next_node_id: if s.next_node_id <= n.id.0 { (n.id.0 + 1) as u64 } else { s.next_node_id },
        ..s
    }
}

/// The store after a stored edge is put back: recorded under its id, listed under its
/// relation and in the adjacency of both ends, found by its external identity, and the
/// next edge id kept above it.
pub open spec fn restore_edge_step(s: StoreView, e: EdgeView) -> StoreView {
    StoreView {
        edges: s.edges.insert(e.id.0, e),
        edge_label_index: push_under(s.edge_label_index, e.label.0, e.id),
        outgoing: push_under(s.outgoing, e.src.0, e.id),
        incoming: push_under(s.incoming, e.dst.0, e.id),
        edge_external: s.edge_external.insert((e.namespace, e.external_id), e.id.0),
        next_edge_id: if s.next_edge_id <= e.id.0 { (e.id.0 + 1) as u64 } else { s.next_edge_id },
        ..s
    }
}

/// The namespace records without one belong to.
pub open spec fn default_namespace() -> Seq<char> {
    NamespaceId::default_name()
}

/// The abstract state of a store.
pub struct StoreView {
    pub strings: Seq<Seq<char>>,
    pub nodes: Map<u64, NodeView>,
    pub edges: Map<u64, EdgeView>,
    pub facts: Map<FactSubject, Seq<ProvenanceView>>,
    pub node_label_index: Map<u32, Seq<NodeId>>,
    pub edge_label_index: Map<u32, Seq<EdgeId>>,
    pub outgoing: Map<u64, Seq<EdgeId>>,
    pub incoming: Map<u64, Seq<EdgeId>>,
    pub node_external: Map<(Seq<char>, Seq<char>), u64>,
    pub edge_external: Map<(Seq<char>, Seq<char>), u64>,
    pub next_node_id: u64,
    pub next_edge_id: u64,
}

/// Node records are stored under their own ids, all below the next id.
pub open spec fn nodes_wf(nodes: Map<u64, NodeView>, next: u64) -> bool {
    &&& nodes.dom().finite()
    &&& forall|k: u64| #[trigger] nodes.contains_key(k) ==> nodes[k].id.0 == k && k < next
}

/// Edge records are stored under their own ids, all below the next id.
pub open spec fn edges_wf(edges: Map<u64, EdgeView>, next: u64) -> bool {
    &&& edges.dom().finite()
    &&& forall|k: u64| #[trigger] edges.contains_key(k) ==> edges[k].id.0 == k && k < next
}

/// The label index lists, under each label, exactly the nodes with that label, each once.
pub open spec fn label_index_wf(idx: Map<u32, Seq<NodeId>>, nodes: Map<u64, NodeView>) -> bool {
    &&& idx.dom().finite()
    &&& forall|l: u32, i: int| #[trigger] idx.contains_key(l) && 0 <= i < idx[l].len() ==> nodes.contains_key(
        #[trigger] idx[l][i].0,
    ) && nodes[idx[l][i].0].label.0 == l
    &&& forall|k: u64| #[trigger] nodes.contains_key(k) ==> idx.contains_key(nodes[k].label.0) && idx[nodes[k].label.0].contains(NodeId(k))
    &&& forall|l: u32| #[trigger] idx.contains_key(l) ==> idx[l].no_duplicates()
}

/// The relation index lists, under each relation, exactly the edges with it, each once.
pub open spec fn relation_index_wf(idx: Map<u32, Seq<EdgeId>>, edges: Map<u64, EdgeView>) -> bool {
    &&& idx.dom().finite()
    &&& forall|l: u32, i: int| #[trigger] idx.contains_key(l) && 0 <= i < idx[l].len() ==> edges.contains_key(
        #[trigger] idx[l][i].0,
    ) && edges[idx[l][i].0].label.0 == l
    &&& forall|k: u64| #[trigger] edges.contains_key(k) ==> idx.contains_key(edges[k].label.0) && idx[edges[k].label.0].contains(EdgeId(k))
    &&& forall|l: u32| #[trigger] idx.contains_key(l) ==> idx[l].no_duplicates()
}

/// The outgoing index lists, under each node, exactly the edges leaving it, each once.
pub open spec fn outgoing_wf(idx: Map<u64, Seq<EdgeId>>, edges: Map<u64, EdgeView>) -> bool {
    &&& idx.dom().finite()
    &&& forall|n: u64, i: int| #[trigger] idx.contains_key(n) && 0 <= i < idx[n].len() ==> edges.contains_key(
        #[trigger] idx[n][i].0,
    ) && edges[idx[n][i].0].src.0 == n
    &&& forall|k: u64| #[trigger] edges.contains_key(k) ==> idx.contains_key(edges[k].src.0) && idx[edges[k].src.0].contains(EdgeId(k))
    &&& forall|n: u64| #[trigger] idx.contains_key(n) ==> idx[n].no_duplicates()
}

/// The incoming index lists, under each node, exactly the edges entering it, each once.
pub open spec fn incoming_wf(idx: Map<u64, Seq<EdgeId>>, edges: Map<u64, EdgeView>) -> bool {
    &&& idx.dom().finite()
    &&& forall|n: u64, i: int| #[trigger] idx.contains_key(n) && 0 <= i < idx[n].len() ==> edges.contains_key(
        #[trigger] idx[n][i].0,
    ) && edges[idx[n][i].0].dst.0 == n
    &&& forall|k: u64| #[trigger] edges.contains_key(k) ==> idx.contains_key(edges[k].dst.0) && idx[edges[k].dst.0].contains(EdgeId(k))
    &&& forall|n: u64| #[trigger] idx.contains_key(n) ==> idx[n].no_duplicates()
}

/// Each external identity points at a node with that namespace and external id.
pub open spec fn node_external_wf(idx: Map<(Seq<char>, Seq<char>), u64>, nodes: Map<u64, NodeView>) -> bool {
    forall|key: (Seq<char>, Seq<char>)| #[trigger] idx.contains_key(key) ==> nodes.contains_key(idx[key])
        && nodes[idx[key]].namespace == key.0 && nodes[idx[key]].external_id == key.1
}

/// Each external identity points at an edge with that namespace and external id.
pub open spec fn edge_external_wf(idx: Map<(Seq<char>, Seq<char>), u64>, edges: Map<u64, EdgeView>) -> bool {
    forall|key: (Seq<char>, Seq<char>)| #[trigger] idx.contains_key(key) ==> edges.contains_key(idx[key])
        && edges[idx[key]].namespace == key.0 && edges[idx[key]].external_id == key.1
}

/// The invariant every store keeps: records under their own ids below the id counters,
/// and every index exactly in step with the records.
pub open spec fn store_view_wf(s: StoreView) -> bool {
    &&& nodes_wf(s.nodes, s.next_node_id)
    &&& edges_wf(s.edges, s.next_edge_id)
    &&& label_index_wf(s.node_label_index, s.nodes)
    &&& relation_index_wf(s.edge_label_index, s.edges)
    &&& outgoing_wf(s.outgoing, s.edges)
    &&& incoming_wf(s.incoming, s.edges)
    &&& node_external_wf(s.node_external, s.nodes)
    &&& edge_external_wf(s.edge_external, s.edges)
    &&& s.facts.dom().finite()
}

proof fn lemma_label_index_push(idx: Map<u32, Seq<NodeId>>, nodes: Map<u64, NodeView>, id: u64, n: NodeView)
    requires
        label_index_wf(idx, nodes),
        !nodes.contains_key(id),
        n.id.0 == id,
    ensures
        label_index_wf(push_under(idx, n.label.0, NodeId(id)), nodes.insert(id, n)),
{
    let idx2 = push_under(idx, n.label.0, NodeId(id));
    let nodes2 = nodes.insert(id, n);
    let l0 = n.label.0;
    assert forall|l: u32, i: int| #[trigger] idx2.contains_key(l) && 0 <= i < idx2[l].len() implies nodes2.contains_key(
        #[trigger] idx2[l][i].0,
    ) && nodes2[idx2[l][i].0].label.0 == l by {
        if l == l0 && i == list_or_empty(idx, l0).len() {
        } else {
            assert(idx2[l][i] == idx[l][i]);
            assert(idx[l][i].0 != id);
        }
    }
    assert forall|k: u64| #[trigger] nodes2.contains_key(k) implies idx2.contains_key(nodes2[k].label.0) && idx2[nodes2[k].label.0].contains(NodeId(k)) by {
        if k == id {
            assert(idx2[l0][list_or_empty(idx, l0).len() as int] == NodeId(id));
        } else {
            let l = nodes[k].label.0;
            let j = choose|j: int| 0 <= j < idx[l].len() && idx[l][j] == NodeId(k);
            assert(idx2[l][j] == NodeId(k));
        }
    }
    assert forall|l: u32| #[trigger] idx2.contains_key(l) implies idx2[l].no_duplicates() by {
        if l == l0 {
            let old_list = list_or_empty(idx, l0);
            assert forall|a: int, b: int| 0 <= a < idx2[l].len() && 0 <= b < idx2[l].len() && a != b implies idx2[l][a] != idx2[l][b] by {
                if a < old_list.len() && b < old_list.len() {
                } else if a < old_list.len() {
                    assert(old_list[a].0 != id);
                } else {
                    assert(old_list[b].0 != id);
                }
            }
        }
    }
}

proof fn lemma_relation_index_push(idx: Map<u32, Seq<EdgeId>>, edges: Map<u64, EdgeView>, id: u64, e: EdgeView)
    requires
        relation_index_wf(idx, edges),
        !edges.contains_key(id),
        e.id.0 == id,
    ensures
        relation_index_wf(push_under(idx, e.label.0, EdgeId(id)), edges.insert(id, e)),
{
    let idx2 = push_under(idx, e.label.0, EdgeId(id));
    let edges2 = edges.insert(id, e);
    let l0 = e.label.0;
    assert forall|l: u32, i: int| #[trigger] idx2.contains_key(l) && 0 <= i < idx2[l].len() implies edges2.contains_key(
        #[trigger] idx2[l][i].0,
    ) && edges2[idx2[l][i].0].label.0 == l by {
        if l == l0 && i == list_or_empty(idx, l0).len() {
        } else {
            assert(idx2[l][i] == idx[l][i]);
            assert(idx[l][i].0 != id);
        }
    }
    assert forall|k: u64| #[trigger] edges2.contains_key(k) implies idx2.contains_key(edges2[k].label.0) && idx2[edges2[k].label.0].contains(EdgeId(k)) by {
        if k == id {
            assert(idx2[l0][list_or_empty(idx, l0).len() as int] == EdgeId(id));
        } else {
            let l = edges[k].label.0;
            let j = choose|j: int| 0 <= j < idx[l].len() && idx[l][j] == EdgeId(k);
            assert(idx2[l][j] == EdgeId(k));
        }
    }
    assert forall|l: u32| #[trigger] idx2.contains_key(l) implies idx2[l].no_duplicates() by {
        if l == l0 {
            let old_list = list_or_empty(idx, l0);
            assert forall|a: int, b: int| 0 <= a < idx2[l].len() && 0 <= b < idx2[l].len() && a != b implies idx2[l][a] != idx2[l][b] by {
                if a < old_list.len() && b < old_list.len() {
                } else if a < old_list.len() {
                    assert(old_list[a].0 != id);
                } else {
                    assert(old_list[b].0 != id);
                }
            }
        }
    }
}

proof fn lemma_outgoing_push(idx: Map<u64, Seq<EdgeId>>, edges: Map<u64, EdgeView>, id: u64, e: EdgeView)
    requires
        outgoing_wf(idx, edges),
        !edges.contains_key(id),
        e.id.0 == id,
    ensures
        outgoing_wf(push_under(idx, e.src.0, EdgeId(id)), edges.insert(id, e)),
{
    let idx2 = push_under(idx, e.src.0, EdgeId(id));
    let edges2 = edges.insert(id, e);
    let l0 = e.src.0;
    assert forall|l: u64, i: int| #[trigger] idx2.contains_key(l) && 0 <= i < idx2[l].len() implies edges2.contains_key(
        #[trigger] idx2[l][i].0,
    ) && edges2[idx2[l][i].0].src.0 == l by {
        if l == l0 && i == list_or_empty(idx, l0).len() {
        } else {
            assert(idx2[l][i] == idx[l][i]);
            assert(idx[l][i].0 != id);
        }
    }
    assert forall|k: u64| #[trigger] edges2.contains_key(k) implies idx2.contains_key(edges2[k].src.0) && idx2[edges2[k].src.0].contains(EdgeId(k)) by {
        if k == id {
            assert(idx2[l0][list_or_empty(idx, l0).len() as int] == EdgeId(id));
        } else {
            let l = edges[k].src.0;
            let j = choose|j: int| 0 <= j < idx[l].len() && idx[l][j] == EdgeId(k);
            assert(idx2[l][j] == EdgeId(k));
        }
    }
    assert forall|l: u64| #[trigger] idx2.contains_key(l) implies idx2[l].no_duplicates() by {
        if l == l0 {
            let old_list = list_or_empty(idx, l0);
            assert forall|a: int, b: int| 0 <= a < idx2[l].len() && 0 <= b < idx2[l].len() && a != b implies idx2[l][a] != idx2[l][b] by {
                if a < old_list.len() && b < old_list.len() {
                } else if a < old_list.len() {
                    assert(old_list[a].0 != id);
                } else {
                    assert(old_list[b].0 != id);
                }
            }
        }
    }
}

proof fn lemma_incoming_push(idx: Map<u64, Seq<EdgeId>>, edges: Map<u64, EdgeView>, id: u64, e: EdgeView)
    requires
        incoming_wf(idx, edges),
        !edges.contains_key(id),
        e.id.0 == id,
    ensures
        incoming_wf(push_under(idx, e.dst.0, EdgeId(id)), edges.insert(id, e)),
{
    let idx2 = push_under(idx, e.dst.0, EdgeId(id));
    let edges2 = edges.insert(id, e);
    let l0 = e.dst.0;
    assert forall|l: u64, i: int| #[trigger] idx2.contains_key(l) && 0 <= i < idx2[l].len() implies edges2.contains_key(
        #[trigger] idx2[l][i].0,
    ) && edges2[idx2[l][i].0].dst.0 == l by {
        if l == l0 && i == list_or_empty(idx, l0).len() {
        } else {
            assert(idx2[l][i] == idx[l][i]);
            assert(idx[l][i].0 != id);
        }
    }
    assert forall|k: u64| #[trigger] edges2.contains_key(k) implies idx2.contains_key(edges2[k].dst.0) && idx2[edges2[k].dst.0].contains(EdgeId(k)) by {
        if k == id {
            assert(idx2[l0][list_or_empty(idx, l0).len() as int] == EdgeId(id));
        } else {
            let l = edges[k].dst.0;
            let j = choose|j: int| 0 <= j < idx[l].len() && idx[l][j] == EdgeId(k);
            assert(idx2[l][j] == EdgeId(k));
        }
    }
    assert forall|l: u64| #[trigger] idx2.contains_key(l) implies idx2[l].no_duplicates() by {
        if l == l0 {
            let old_list = list_or_empty(idx, l0);
            assert forall|a: int, b: int| 0 <= a < idx2[l].len() && 0 <= b < idx2[l].len() && a != b implies idx2[l][a] != idx2[l][b] by {
                if a < old_list.len() && b < old_list.len() {
                } else if a < old_list.len() {
                    assert(old_list[a].0 != id);
                } else {
                    assert(old_list[b].0 != id);
                }
            }
        }
    }
}


/// In-memory append-only graph store with ontology interning and indexes.
///
/// The maps are crate-private: external consumers get read-only views through the
/// accessor methods.
#[derive(Debug)]
pub struct Store {
    pub(crate) string_table: StringTable,
    pub(crate) nodes: ahash::AHashMap<NodeId, Node>,
    pub(crate) edges: ahash::AHashMap<EdgeId, Edge>,
    pub(crate) facts: ahash::AHashMap<FactSubject, Vec<Provenance>>,
    pub(crate) node_label_index: ahash::AHashMap<LabelId, Vec<NodeId>>,
    pub(crate) edge_label_index: ahash::AHashMap<RelationId, Vec<EdgeId>>,
    pub(crate) outgoing: ahash::AHashMap<NodeId, Vec<EdgeId>>,
    pub(crate) incoming: ahash::AHashMap<NodeId, Vec<EdgeId>>,
    pub(crate) node_external_index: ahash::AHashMap<(NamespaceId, String), NodeId>,
    pub(crate) edge_external_index: ahash::AHashMap<(NamespaceId, String), EdgeId>,
    pub(crate) next_node_id: u64,
    pub(crate) next_edge_id: u64,
}

fn push_label_index(m: &mut ahash::AHashMap<LabelId, Vec<NodeId>>, label: LabelId, id: NodeId)
    ensures
        label_index_entries(*final(m)) == push_under(label_index_entries(*old(m)), label.0, id),
{
    let mut v = match label_index_remove(m, &label) {
        Some(v) => v,
        None => Vec::new(),
    };
    v.push(id);
    label_index_insert(m, label, v);
    proof {
        assert(label_index_entries(*m) =~= push_under(label_index_entries(*old(m)), label.0, id));
    }
}

fn push_relation_index(m: &mut ahash::AHashMap<RelationId, Vec<EdgeId>>, label: RelationId, id: EdgeId)
    ensures
        relation_index_entries(*final(m)) == push_under(relation_index_entries(*old(m)), label.0, id),
{
    let mut v = match relation_index_remove(m, &label) {
        Some(v) => v,
        None => Vec::new(),
    };
    v.push(id);
    relation_index_insert(m, label, v);
    proof {
        assert(relation_index_entries(*m) =~= push_under(relation_index_entries(*old(m)), label.0, id));
    }
}

fn push_adjacency(m: &mut ahash::AHashMap<NodeId, Vec<EdgeId>>, node: NodeId, id: EdgeId)
    ensures
        adjacency_entries(*final(m)) == push_under(adjacency_entries(*old(m)), node.0, id),
{
    let mut v = match adjacency_remove(m, &node) {
        Some(v) => v,
        None => Vec::new(),
    };
    v.push(id);
    adjacency_insert(m, node, v);
    proof {
        assert(adjacency_entries(*m) =~= push_under(adjacency_entries(*old(m)), node.0, id));
    }
}

fn push_fact(m: &mut ahash::AHashMap<FactSubject, Vec<Provenance>>, subject: FactSubject, p: Provenance)
    ensures
        fact_entries(*final(m)) == push_under(fact_entries(*old(m)), subject, p@),
{
    let mut v = match fact_remove(m, &subject) {
        Some(v) => v,
        None => Vec::new(),
    };
    let ghost before = v@;
    assert(provenances_view(before) =~= list_or_empty(fact_entries(*old(m)), subject));
    v.push(p);
    proof {
        assert(provenances_view(v@) =~= provenances_view(before).push(p@));
    }
    fact_insert(m, subject, v);
    proof {
        assert(fact_entries(*m) =~= push_under(fact_entries(*old(m)), subject, p@));
    }
}

impl Store {
    /// The abstract state of the store.
    pub closed spec fn view(&self) -> StoreView {
        StoreView {
            strings: self.string_table@,
            nodes: node_entries(self.nodes),
            edges: edge_entries(self.edges),
            facts: fact_entries(self.facts),
            node_label_index: label_index_entries(self.node_label_index),
            edge_label_index: relation_index_entries(self.edge_label_index),
            outgoing: adjacency_entries(self.outgoing),
            incoming: adjacency_entries(self.incoming),
            node_external: node_external_entries(self.node_external_index),
            edge_external: edge_external_entries(self.edge_external_index),
            next_node_id: self.next_node_id,
            next_edge_id: self.next_edge_id,
        }
    }

    /// The store's invariant: a well-formed string table and `store_view_wf`.
    pub closed spec fn wf(&self) -> bool {
        &&& self.string_table.wf()
        &&& store_view_wf(self@)
    }

    /// How the abstract state is read off the store's maps.
    pub(crate) proof fn lemma_view_fields(&self)
        ensures
            self@.strings == self.string_table@,
            self@.nodes == node_entries(self.nodes),
            self@.edges == edge_entries(self.edges),
            self@.facts == fact_entries(self.facts),
            self@.node_label_index == label_index_entries(self.node_label_index),
            self@.edge_label_index == relation_index_entries(self.edge_label_index),
            self@.outgoing == adjacency_entries(self.outgoing),
            self@.incoming == adjacency_entries(self.incoming),
            self.wf() == (self.string_table.wf() && store_view_wf(self@)),
    {
    }

    /// Puts back a stored node under its own id, which the store does not hold yet.
    pub(crate) fn restore_node(&mut self, node: Node)
        requires
            old(self).wf(),
            !old(self)@.nodes.contains_key(node.id.0),
            node.id.0 < u64::MAX,
        ensures
            final(self).wf(),
            final(self)@ == restore_node_step(old(self)@, node@),
    {
        let id = node.id;
        let label = node.label;
        let ghost nv = node@;
        proof {
            lemma_label_index_push(self@.node_label_index, self@.nodes, id.0, nv);
        }
        if self.next_node_id <= id.0 {
            self.next_node_id = id.0 + 1;
        }
        push_label_index(&mut self.node_label_index, label, id);
        let key = (node.namespace.clone(), node.external_id.clone());
        node_external_insert(&mut self.node_external_index, key, id);
        node_insert(&mut self.nodes, id, node);
        proof {
            let s = self@;
            let o = old(self)@;
            assert(s.node_external =~= o.node_external.insert((nv.namespace, nv.external_id), id.0));
            assert forall|k: u64| #[trigger] s.nodes.contains_key(k) implies s.nodes[k].id.0 == k && k < s.next_node_id by {
                if k != id.0 {
                    assert(o.nodes.contains_key(k));
                }
            }
            assert(node_external_wf(s.node_external, s.nodes)) by {
                assert forall|key: (Seq<char>, Seq<char>)| #[trigger] s.node_external.contains_key(key) implies s.nodes.contains_key(s.node_external[key])
                    && s.nodes[s.node_external[key]].namespace == key.0 && s.nodes[s.node_external[key]].external_id == key.1 by {
                    if key != (nv.namespace, nv.external_id) {
                        assert(o.nodes.contains_key(o.node_external[key]));
                        assert(o.node_external[key] != id.0);
                    }
                }
            }
            assert(s =~= restore_node_step(o, nv));
        }
    }

    /// Puts back a stored edge under its own id, which the store does not hold yet.
    pub(crate) fn restore_edge(&mut self, edge: Edge)
        requires
            old(self).wf(),
            !old(self)@.edges.contains_key(edge.id.0),
            edge.id.0 < u64::MAX,
        ensures
            final(self).wf(),
            final(self)@ == restore_edge_step(old(self)@, edge@),
    {
        let id = edge.id;
        let label = edge.label;
        let src = edge.src;
        let dst = edge.dst;
        let ghost ev = edge@;
        proof {
            lemma_relation_index_push(self@.edge_label_index, self@.edges, id.0, ev);
            lemma_outgoing_push(self@.outgoing, self@.edges, id.0, ev);
            lemma_incoming_push(self@.incoming, self@.edges, id.0, ev);
        }
        if self.next_edge_id <= id.0 {
            self.next_edge_id = id.0 + 1;
        }
        push_relation_index(&mut self.edge_label_index, label, id);
        push_adjacency(&mut self.outgoing, src, id);
        push_adjacency(&mut self.incoming, dst, id);
        let key = (edge.namespace.clone(), edge.external_id.clone());
        edge_external_insert(&mut self.edge_external_index, key, id);
        edge_insert(&mut self.edges, id, edge);
        proof {
            let s = self@;
            let o = old(self)@;
            assert(s.edge_external =~= o.edge_external.insert((ev.namespace, ev.external_id), id.0));
            assert forall|k: u64| #[trigger] s.edges.contains_key(k) implies s.edges[k].id.0 == k && k < s.next_edge_id by {
                if k != id.0 {
                    assert(o.edges.contains_key(k));
                }
            }
            assert(edge_external_wf(s.edge_external, s.edges)) by {
                assert forall|key: (Seq<char>, Seq<char>)| #[trigger] s.edge_external.contains_key(key) implies s.edges.contains_key(s.edge_external[key])
                    && s.edges[s.edge_external[key]].namespace == key.0 && s.edges[s.edge_external[key]].external_id == key.1 by {
                    if key != (ev.namespace, ev.external_id) {
                        assert(o.edges.contains_key(o.edge_external[key]));
                        assert(o.edge_external[key] != id.0);
                    }
                }
            }
            assert(s =~= restore_edge_step(o, ev));
        }
    }

    /// A store holding only the given string table.
    pub(crate) fn with_string_table(table: StringTable) -> (s: Self)
        requires
            table.wf(),
        ensures
            s.wf(),
            s@ == (StoreView { strings: table@, ..Store::new_view() }),
    {
        let mut s = Store::new();
        s.string_table = table;
        proof {
            assert(s@ =~= (StoreView { strings: table@, ..Store::new_view() }));
        }
        s
    }

    /// The abstract state of an empty store.
    pub open spec fn new_view() -> StoreView {
        StoreView {
            strings: Seq::empty(),
            nodes: Map::empty(),
            edges: Map::empty(),
            facts: Map::empty(),
            node_label_index: Map::empty(),
            edge_label_index: Map::empty(),
            outgoing: Map::empty(),
            incoming: Map::empty(),
            node_external: Map::empty(),
            edge_external: Map::empty(),
            next_node_id: 0,
            next_edge_id: 0,
        }
    }

    /// An empty store.
    pub fn new() -> (s: Self)
        ensures
            s.wf(),
            s@.strings.len() == 0,
            s@.nodes.is_empty(),
            s@.edges.is_empty(),
            s@.facts.is_empty(),
            s@.node_label_index.is_empty(),
            s@.edge_label_index.is_empty(),
            s@.outgoing.is_empty(),
            s@.incoming.is_empty(),
            s@.node_external.is_empty(),
            s@.edge_external.is_empty(),
            s@.next_node_id == 0,
            s@.next_edge_id == 0,
            s@ == Store::new_view(),
            built_by_adding(s@),
    {
        let s = Store {
            string_table: StringTable::new(),
            nodes: node_new(),
            edges: edge_new(),
            facts: fact_new(),
            node_label_index: label_index_new(),
            edge_label_index: relation_index_new(),
            outgoing: adjacency_new(),
            incoming: adjacency_new(),
            node_external_index: node_external_new(),
            edge_external_index: edge_external_new(),
            next_node_id: 0,
            next_edge_id: 0,
        };
        proof {
            assert(s@.nodes.dom() =~= Set::empty());
            assert(s@.edges.dom() =~= Set::empty());
            assert(s@.facts.dom() =~= Set::empty());
            assert(s@.node_label_index.dom() =~= Set::empty());
            assert(s@.edge_label_index.dom() =~= Set::empty());
            assert(s@.outgoing.dom() =~= Set::empty());
            assert(s@.incoming.dom() =~= Set::empty());
            assert(s@.nodes =~= Map::empty());
            assert(s@.edges =~= Map::empty());
            assert(s@.facts =~= Map::empty());
            assert(s@.node_label_index =~= Map::empty());
            assert(s@.edge_label_index =~= Map::empty());
            assert(s@.outgoing =~= Map::empty());
            assert(s@.incoming =~= Map::empty());
            assert(s@.node_external =~= Map::empty());
            assert(s@.edge_external =~= Map::empty());
            assert(s@.strings =~= Seq::empty());
        }
        s
    }

    /// Read-only view of the interned ontology strings.
    pub fn string_table(&self) -> (r: &StringTable)
        requires
            self.wf(),
        ensures
            r@ == self@.strings,
            r.wf(),
    {
        &self.string_table
    }

    /// Read-only view of all nodes by id.
    pub fn nodes(&self) -> (r: &ahash::AHashMap<NodeId, Node>)
        ensures
            node_entries(*r) == self@.nodes,
    {
        &self.nodes
    }

    /// Read-only view of all edges by id.
    pub fn edges(&self) -> (r: &ahash::AHashMap<EdgeId, Edge>)
        ensures
            edge_entries(*r) == self@.edges,
    {
        &self.edges
    }

    /// Read-only view of the competing facts recorded for each subject.
    pub fn facts(&self) -> (r: &ahash::AHashMap<FactSubject, Vec<Provenance>>)
        ensures
            fact_entries(*r) == self@.facts,
    {
        &self.facts
    }

    /// Read-only view of the node-label index.
    pub fn node_label_index(&self) -> (r: &ahash::AHashMap<LabelId, Vec<NodeId>>)
        ensures
            label_index_entries(*r) == self@.node_label_index,
    {
        &self.node_label_index
    }

    /// Read-only view of the edge-relation index.
    pub fn edge_label_index(&self) -> (r: &ahash::AHashMap<RelationId, Vec<EdgeId>>)
        ensures
            relation_index_entries(*r) == self@.edge_label_index,
    {
        &self.edge_label_index
    }

    /// Read-only view of the outgoing-adjacency index.
    pub fn outgoing(&self) -> (r: &ahash::AHashMap<NodeId, Vec<EdgeId>>)
        ensures
            adjacency_entries(*r) == self@.outgoing,
    {
        &self.outgoing
    }

    /// Read-only view of the incoming-adjacency index.
    pub fn incoming(&self) -> (r: &ahash::AHashMap<NodeId, Vec<EdgeId>>)
        ensures
            adjacency_entries(*r) == self@.incoming,
    {
        &self.incoming
    }

    /// Interns `s` as a label.
    pub fn intern_label(&mut self, s: &str) -> (r: LabelId)
        requires
            old(self).wf(),
            old(self)@.strings.contains(s@) || old(self)@.strings.len() < u32::MAX,
        ensures
            final(self).wf(),
            crate::ontology::interned(old(self)@.strings, final(self)@.strings, s@, r.0),
            final(self)@ == (StoreView { strings: final(self)@.strings, ..old(self)@ }),
            built_by_adding(old(self)@) ==> built_by_adding(final(self)@),
    {
        self.string_table.intern_label(s)
    }

    /// Interns `s` as a relation.
    pub fn intern_relation(&mut self, s: &str) -> (r: RelationId)
        requires
            old(self).wf(),
            old(self)@.strings.contains(s@) || old(self)@.strings.len() < u32::MAX,
        ensures
            final(self).wf(),
            crate::ontology::interned(old(self)@.strings, final(self)@.strings, s@, r.0),
            final(self)@ == (StoreView { strings: final(self)@.strings, ..old(self)@ }),
            built_by_adding(old(self)@) ==> built_by_adding(final(self)@),
    {
        self.string_table.intern_relation(s)
    }

    /// Interns `s` as a property key.
    pub fn intern_key(&mut self, s: &str) -> (r: KeyId)
        requires
            old(self).wf(),
            old(self)@.strings.contains(s@) || old(self)@.strings.len() < u32::MAX,
        ensures
            final(self).wf(),
            crate::ontology::interned(old(self)@.strings, final(self)@.strings, s@, r.0),
            final(self)@ == (StoreView { strings: final(self)@.strings, ..old(self)@ }),
            built_by_adding(old(self)@) ==> built_by_adding(final(self)@),
    {
        self.string_table.intern_key(s)
    }

    /// Interns the names of `props` in order and returns the list keyed by their ids.
    fn intern_props(&mut self, props: &Vec<(&str, Scalar)>) -> (r: Vec<(KeyId, Scalar)>)
        requires
            old(self).wf(),
            old(self)@.strings.len() + props@.len() <= u32::MAX,
        ensures
            final(self).wf(),
            final(self)@ == (StoreView { strings: final(self)@.strings, ..old(self)@ }),
            final(self)@.strings == intern_all(old(self)@.strings, prop_names(named_props(props@))),
            crate::value::props_view(r@) == interned_props(final(self)@.strings, named_props(props@)),
    {
        let mut out: Vec<(KeyId, Scalar)> = Vec::new();
        let mut i: usize = 0;
        let ghost start = self@;
        while i < props.len()
            invariant
                self.wf(),
                0 <= i <= props@.len(),
                start.strings.len() + props@.len() <= u32::MAX,
                self@ == (StoreView { strings: self@.strings, ..start }),
                self@.strings == intern_all(start.strings, prop_names(named_props(props@)).take(i as int)),
                self@.strings.len() <= start.strings.len() + i,
                out@.len() == i,
                forall|j: int| 0 <= j < i ==> (#[trigger] out@[j]).0.0 < self@.strings.len()
                    && self@.strings[out@[j].0.0 as int] == props@[j].0@ && out@[j].1@ == props@[j].1@,
            decreases props@.len() - i,
        {
            let (name, value) = &props[i];
            let ghost before = self@.strings;
            let key = self.string_table.intern_key(name);
            proof {
                assert(prop_names(named_props(props@)).take(i + 1).drop_last() =~= prop_names(named_props(props@)).take(i as int));
                assert forall|j: int| 0 <= j < i implies (#[trigger] out@[j]).0.0 < self@.strings.len()
                    && self@.strings[out@[j].0.0 as int] == props@[j].0@ by {
                    assert(self@.strings[out@[j].0.0 as int] == before[out@[j].0.0 as int]);
                }
            }
            out.push((key, value.clone()));
            i = i + 1;
        }
        proof {
            assert(prop_names(named_props(props@)).take(props@.len() as int) =~= prop_names(named_props(props@)));
            let strings = self@.strings;
            self.string_table.lemma_distinct();
            assert(crate::value::props_view(out@) =~= interned_props(strings, named_props(props@))) by {
                assert forall|j: int| 0 <= j < out@.len() implies #[trigger] crate::value::props_view(out@)[j] == interned_props(strings, named_props(props@))[j] by {
                    let k = string_index(strings, props@[j].0@);
                    assert(strings[out@[j].0.0 as int] == props@[j].0@);
                    assert(0 <= k < strings.len() && strings[k] == props@[j].0@);
                    assert(k == out@[j].0.0);
                }
            }
        }
        out
    }

    /// Adds a fully built node whose id is the next node id, with its label index entry
    /// and its canonical fact.
    fn insert_new_node(&mut self, node: Node)
        requires
            old(self).wf(),
            node.id.0 == old(self)@.next_node_id,
            old(self)@.next_node_id < u64::MAX,
        ensures
            final(self).wf(),
            final(self)@ == (StoreView {
                nodes: old(self)@.nodes.insert(node.id.0, node@),
                facts: push_under(old(self)@.facts, FactSubject::Node(node.id), node.provenance@),
                node_label_index: push_under(old(self)@.node_label_index, node.label.0, node.id),
                next_node_id: (old(self)@.next_node_id + 1) as u64,
                ..old(self)@
            }),
    {
        let id = node.id;
        let label = node.label;
        let ghost nv = node@;
        let prov = node.provenance.clone();
        proof {
            lemma_label_index_push(self@.node_label_index, self@.nodes, id.0, nv);
            assert(!self@.nodes.contains_key(id.0));
        }
        self.next_node_id = self.next_node_id + 1;
        push_label_index(&mut self.node_label_index, label, id);
        node_insert(&mut self.nodes, id, node);
        push_fact(&mut self.facts, FactSubject::Node(id), prov);
        proof {
            let s = self@;
            assert forall|k: u64| #[trigger] s.nodes.contains_key(k) implies s.nodes[k].id.0 == k && k < s.next_node_id by {}
            assert(node_external_wf(s.node_external, s.nodes)) by {
                assert forall|key: (Seq<char>, Seq<char>)| #[trigger] s.node_external.contains_key(key) implies s.nodes.contains_key(s.node_external[key])
                    && s.nodes[s.node_external[key]].namespace == key.0 && s.nodes[s.node_external[key]].external_id == key.1 by {
                    assert(old(self)@.nodes.contains_key(s.node_external[key]));
                }
            }
        }
    }

    /// Adds a fully built edge whose id is the next edge id, with its relation and
    /// adjacency index entries and its canonical fact.
    fn insert_new_edge(&mut self, edge: Edge)
        requires
            old(self).wf(),
            edge.id.0 == old(self)@.next_edge_id,
            old(self)@.next_edge_id < u64::MAX,
        ensures
            final(self).wf(),
            final(self)@ == (StoreView {
                edges: old(self)@.edges.insert(edge.id.0, edge@),
                facts: push_under(old(self)@.facts, FactSubject::Edge(edge.id), edge.provenance@),
                edge_label_index: push_under(old(self)@.edge_label_index, edge.label.0, edge.id),
                outgoing: push_under(old(self)@.outgoing, edge.src.0, edge.id),
                incoming: push_under(old(self)@.incoming, edge.dst.0, edge.id),
                next_edge_id: (old(self)@.next_edge_id + 1) as u64,
                ..old(self)@
            }),
    {
        let id = edge.id;
        let label = edge.label;
        let src = edge.src;
        let dst = edge.dst;
        let ghost ev = edge@;
        let prov = edge.provenance.clone();
        proof {
            lemma_relation_index_push(self@.edge_label_index, self@.edges, id.0, ev);
            lemma_outgoing_push(self@.outgoing, self@.edges, id.0, ev);
            lemma_incoming_push(self@.incoming, self@.edges, id.0, ev);
            assert(!self@.edges.contains_key(id.0));
        }
        self.next_edge_id = self.next_edge_id + 1;
        push_relation_index(&mut self.edge_label_index, label, id);
        push_adjacency(&mut self.outgoing, src, id);
        push_adjacency(&mut self.incoming, dst, id);
        edge_insert(&mut self.edges, id, edge);
        push_fact(&mut self.facts, FactSubject::Edge(id), prov);
        proof {
            let s = self@;
            assert forall|k: u64| #[trigger] s.edges.contains_key(k) implies s.edges[k].id.0 == k && k < s.next_edge_id by {}
            assert(edge_external_wf(s.edge_external, s.edges)) by {
                assert forall|key: (Seq<char>, Seq<char>)| #[trigger] s.edge_external.contains_key(key) implies s.edges.contains_key(s.edge_external[key])
                    && s.edges[s.edge_external[key]].namespace == key.0 && s.edges[s.edge_external[key]].external_id == key.1 by {
                    assert(old(self)@.edges.contains_key(s.edge_external[key]));
                }
            }
        }
    }

    /// Interns the label and property names, then adds the node.
    fn build_node(
        &mut self,
        namespace: NamespaceId,
        external_id: String,
        label: &str,
        props: Vec<(&str, Scalar)>,
        embedding: Option<Vec<u32>>,
        provenance: Provenance,
    ) -> (id: NodeId)
        requires
            old(self).wf(),
            old(self)@.next_node_id < u64::MAX,
            old(self)@.strings.len() + props@.len() + 1 <= u32::MAX,
        ensures
            final(self).wf(),
            id.0 == old(self)@.next_node_id,
            final(self)@.strings == intern_all(old(self)@.strings, seq![label@] + prop_names(named_props(props@))),
            final(self)@ == (StoreView {
                strings: final(self)@.strings,
                nodes: old(self)@.nodes.insert(
                    id.0,
                    new_node_view(final(self)@.strings, id, namespace@, external_id@, label@, named_props(props@), embedding_view(embedding), provenance@),
                ),
                facts: push_under(old(self)@.facts, FactSubject::Node(id), provenance@),
                node_label_index: push_under(
                    old(self)@.node_label_index,
                    string_index(final(self)@.strings, label@) as u32,
                    id,
                ),
                next_node_id: (old(self)@.next_node_id + 1) as u64,
                ..old(self)@
            }),
    {
        let ghost s0 = self@.strings;
        let label_id = self.string_table.intern_label(label);
        let ghost s1 = self@.strings;
        proof {
            lemma_intern_all(s0, seq![label@]);
            let one = seq![label@];
            assert(one.drop_last() =~= Seq::<Seq<char>>::empty());
            assert(intern_all(s0, one.drop_last()) == s0);
            assert(one.last() == label@);
            assert(intern_all(s0, one) == s1);
        }
        let properties = self.intern_props(&props);
        let ghost s2 = self@.strings;
        proof {
            lemma_intern_all_append(s0, seq![label@], prop_names(named_props(props@)));
            lemma_intern_all(s1, prop_names(named_props(props@)));
            self.string_table.lemma_distinct();
            assert(s2[label_id.0 as int] == label@);
            assert(string_index(s2, label@) == label_id.0);
        }
        let id = NodeId(self.next_node_id);
        let node = Node {
            id,
            external_id,
            namespace,
            created_at: provenance.timestamp,
            updated_at: None,
            schema_version: CURRENT_SCHEMA_VERSION,
            label: label_id,
            properties,
            embedding,
            provenance,
        };
        self.insert_new_node(node);
        id
    }

    /// Interns the relation and property names, then adds the edge.
    fn build_edge(
        &mut self,
        namespace: NamespaceId,
        external_id: String,
        src: NodeId,
        dst: NodeId,
        label: &str,
        props: Vec<(&str, Scalar)>,
        embedding: Option<Vec<u32>>,
        provenance: Provenance,
    ) -> (id: EdgeId)
        requires
            old(self).wf(),
            old(self)@.next_edge_id < u64::MAX,
            old(self)@.strings.len() + props@.len() + 1 <= u32::MAX,
        ensures
            final(self).wf(),
            id.0 == old(self)@.next_edge_id,
            final(self)@.strings == intern_all(old(self)@.strings, seq![label@] + prop_names(named_props(props@))),
            final(self)@ == (StoreView {
                strings: final(self)@.strings,
                edges: old(self)@.edges.insert(
                    id.0,
                    new_edge_view(final(self)@.strings, id, namespace@, external_id@, src, dst, label@, named_props(props@), embedding_view(embedding), provenance@),
                ),
                facts: push_under(old(self)@.facts, FactSubject::Edge(id), provenance@),
                edge_label_index: push_under(
                    old(self)@.edge_label_index,
                    string_index(final(self)@.strings, label@) as u32,
                    id,
                ),
                outgoing: push_under(old(self)@.outgoing, src.0, id),
                incoming: push_under(old(self)@.incoming, dst.0, id),
                next_edge_id: (old(self)@.next_edge_id + 1) as u64,
                ..old(self)@
            }),
    {
        let ghost s0 = self@.strings;
        let label_id = self.string_table.intern_relation(label);
        let ghost s1 = self@.strings;
        proof {
            lemma_intern_all(s0, seq![label@]);
            let one = seq![label@];
            assert(one.drop_last() =~= Seq::<Seq<char>>::empty());
            assert(intern_all(s0, one.drop_last()) == s0);
            assert(one.last() == label@);
            assert(intern_all(s0, one) == s1);
        }
        let properties = self.intern_props(&props);
        let ghost s2 = self@.strings;
        proof {
            lemma_intern_all_append(s0, seq![label@], prop_names(named_props(props@)));
            lemma_intern_all(s1, prop_names(named_props(props@)));
            self.string_table.lemma_distinct();
            assert(s2[label_id.0 as int] == label@);
            assert(string_index(s2, label@) == label_id.0);
        }
        let id = EdgeId(self.next_edge_id);
        let edge = Edge {
            id,
            external_id,
            namespace,
            src,
            dst,
            label: label_id,
            properties,
            embedding,
            provenance,
        };
        self.insert_new_edge(edge);
        id
    }

    /// Adds a node in the default namespace, without an external id, and records its
    /// provenance as the node's first fact.
    pub fn add_node(&mut self, label: &str, props: Vec<(&str, Scalar)>, embedding: Option<Vec<u32>>, provenance: Provenance) -> (id: NodeId)
        requires
            old(self).wf(),
            old(self)@.next_node_id < u64::MAX,
            old(self)@.strings.len() + props@.len() + 1 <= u32::MAX,
        ensures
            final(self).wf(),
            id.0 == old(self)@.next_node_id,
            final(self)@.strings == intern_all(old(self)@.strings, seq![label@] + prop_names(named_props(props@))),
            final(self)@ == (StoreView {
                strings: final(self)@.strings,
                nodes: old(self)@.nodes.insert(
                    id.0,
                    new_node_view(final(self)@.strings, id, default_namespace(), Seq::empty(), label@, named_props(props@), embedding_view(embedding), provenance@),
                ),
                facts: push_under(old(self)@.facts, FactSubject::Node(id), provenance@),
                node_label_index: push_under(
                    old(self)@.node_label_index,
                    string_index(final(self)@.strings, label@) as u32,
                    id,
                ),
                next_node_id: (old(self)@.next_node_id + 1) as u64,
                ..old(self)@
            }),
            built_by_adding(old(self)@) ==> built_by_adding(final(self)@),
    {
        let ghost before = self@;
        let id = self.build_node(NamespaceId::default(), String::new(), label, props, embedding, provenance);
        proof {
            if built_by_adding(before) {
                adding_a_node_keeps_built_by_adding(before, self@, self@.nodes[id.0]);
            }
        }
        id
    }

    /// Adds an edge from `src` to `dst` in the default namespace, without an external id,
    /// and records its provenance as the edge's first fact. The endpoints are not checked.
    pub fn add_edge(
        &mut self,
        src: NodeId,
        dst: NodeId,
        label: &str,
        props: Vec<(&str, Scalar)>,
        embedding: Option<Vec<u32>>,
        provenance: Provenance,
    ) -> (id: EdgeId)
        requires
            old(self).wf(),
            old(self)@.next_edge_id < u64::MAX,
            old(self)@.strings.len() + props@.len() + 1 <= u32::MAX,
        ensures
            final(self).wf(),
            id.0 == old(self)@.next_edge_id,
            final(self)@.strings == intern_all(old(self)@.strings, seq![label@] + prop_names(named_props(props@))),
            final(self)@ == (StoreView {
                strings: final(self)@.strings,
                edges: old(self)@.edges.insert(
                    id.0,
                    new_edge_view(final(self)@.strings, id, default_namespace(), Seq::empty(), src, dst, label@, named_props(props@), embedding_view(embedding), provenance@),
                ),
                facts: push_under(old(self)@.facts, FactSubject::Edge(id), provenance@),
                edge_label_index: push_under(
                    old(self)@.edge_label_index,
                    string_index(final(self)@.strings, label@) as u32,
                    id,
                ),
                outgoing: push_under(old(self)@.outgoing, src.0, id),
                incoming: push_under(old(self)@.incoming, dst.0, id),
                next_edge_id: (old(self)@.next_edge_id + 1) as u64,
                ..old(self)@
            }),
            built_by_adding(old(self)@) ==> built_by_adding(final(self)@),
    {
        let ghost before = self@;
        let id = self.build_edge(NamespaceId::default(), String::new(), src, dst, label, props, embedding, provenance);
        proof {
            if built_by_adding(before) {
                adding_an_edge_keeps_built_by_adding(before, self@, self@.edges[id.0]);
            }
        }
        id
    }

    /// Adds a node with a stable identity in `namespace`. Refused, with the store
    /// unchanged, when the external id is empty or already names a node in the namespace.
    pub fn add_node_in_namespace(
        &mut self,
        namespace: NamespaceId,
        external_id: &str,
        label: &str,
        props: Vec<(&str, Scalar)>,
        embedding: Option<Vec<u32>>,
        provenance: Provenance,
    ) -> (r: Result<NodeId, IdentityError>)
        requires
            old(self).wf(),
            old(self)@.next_node_id < u64::MAX,
            old(self)@.strings.len() + props@.len() + 1 <= u32::MAX,
        ensures
            final(self).wf(),
            external_id@.len() == 0 ==> r == Err::<NodeId, _>(IdentityError::EmptyExternalId)
                && final(self)@ == old(self)@,
            external_id@.len() > 0 && old(self)@.node_external.contains_key((namespace@, external_id@))
                ==> r == Err::<NodeId, _>(IdentityError::DuplicateExternalId) && final(self)@ == old(self)@,
            external_id@.len() > 0 && !old(self)@.node_external.contains_key((namespace@, external_id@)) ==> (r matches Ok(id)
                && id.0 == old(self)@.next_node_id
                && final(self)@.strings == intern_all(old(self)@.strings, seq![label@] + prop_names(named_props(props@)))
                && final(self)@ == (StoreView {
                    strings: final(self)@.strings,
                    nodes: old(self)@.nodes.insert(
                        id.0,
                        new_node_view(final(self)@.strings, id, namespace@, external_id@, label@, named_props(props@), embedding_view(embedding), provenance@),
                    ),
                    facts: push_under(old(self)@.facts, FactSubject::Node(id), provenance@),
                    node_label_index: push_under(
                        old(self)@.node_label_index,
                        string_index(final(self)@.strings, label@) as u32,
                        id,
                    ),
                    node_external: old(self)@.node_external.insert((namespace@, external_id@), id.0),
                    next_node_id: (old(self)@.next_node_id + 1) as u64,
                    ..old(self)@
                })),
            built_by_adding(old(self)@) ==> built_by_adding(final(self)@),
    {
        let ghost before = self@;
        if external_id.is_empty() {
            return Err(IdentityError::EmptyExternalId);
        }
        if self.node_by_external_id(&namespace, external_id).is_some() {
            return Err(IdentityError::DuplicateExternalId);
        }
        let key = (namespace.clone(), external_id.to_owned());
        let id = self.build_node(namespace, external_id.to_owned(), label, props, embedding, provenance);
        let ghost mid = self@;
        node_external_insert(&mut self.node_external_index, key, id);
        proof {
            let s = self@;
            assert(node_external_wf(s.node_external, s.nodes)) by {
                assert forall|k: (Seq<char>, Seq<char>)| #[trigger] s.node_external.contains_key(k) implies s.nodes.contains_key(s.node_external[k])
                    && s.nodes[s.node_external[k]].namespace == k.0 && s.nodes[s.node_external[k]].external_id == k.1 by {
                    if k != (key.0@, key.1@) {
                        assert(mid.node_external.contains_key(k));
                    }
                }
            }
            if built_by_adding(before) {
                adding_a_node_keeps_built_by_adding(before, self@, self@.nodes[id.0]);
            }
        }
        Ok(id)
    }

    /// Adds an edge with a stable identity in `namespace` between two nodes of that
    /// namespace. Refused, with the store unchanged, when the external id is empty, an
    /// endpoint is missing or lies in another namespace, or the external id already
    /// names an edge in the namespace.
    pub fn add_edge_in_namespace(
        &mut self,
        namespace: NamespaceId,
        external_id: &str,
        src: NodeId,
        dst: NodeId,
        label: &str,
        props: Vec<(&str, Scalar)>,
        embedding: Option<Vec<u32>>,
        provenance: Provenance,
    ) -> (r: Result<EdgeId, IdentityError>)
        requires
            old(self).wf(),
            old(self)@.next_edge_id < u64::MAX,
            old(self)@.strings.len() + props@.len() + 1 <= u32::MAX,
        ensures
            final(self).wf(),
            r is Err ==> final(self)@ == old(self)@,
            r == Err::<EdgeId, _>(IdentityError::EmptyExternalId) <==> external_id@.len() == 0,
            r == Err::<EdgeId, _>(IdentityError::NamespaceMismatch) <==> external_id@.len() > 0
                && !endpoints_in_namespace(old(self)@, src, dst, namespace@),
            r == Err::<EdgeId, _>(IdentityError::DuplicateExternalId) <==> external_id@.len() > 0
                && endpoints_in_namespace(old(self)@, src, dst, namespace@)
                && old(self)@.edge_external.contains_key((namespace@, external_id@)),
            r is Ok <==> external_id@.len() > 0 && endpoints_in_namespace(old(self)@, src, dst, namespace@)
                && !old(self)@.edge_external.contains_key((namespace@, external_id@)),
            r matches Ok(id) ==> id.0 == old(self)@.next_edge_id
                && final(self)@.strings == intern_all(old(self)@.strings, seq![label@] + prop_names(named_props(props@)))
                && final(self)@ == (StoreView {
                    strings: final(self)@.strings,
                    edges: old(self)@.edges.insert(
                        id.0,
                        new_edge_view(final(self)@.strings, id, namespace@, external_id@, src, dst, label@, named_props(props@), embedding_view(embedding), provenance@),
                    ),
                    facts: push_under(old(self)@.facts, FactSubject::Edge(id), provenance@),
                    edge_label_index: push_under(
                        old(self)@.edge_label_index,
                        string_index(final(self)@.strings, label@) as u32,
                        id,
                    ),
                    outgoing: push_under(old(self)@.outgoing, src.0, id),
                    incoming: push_under(old(self)@.incoming, dst.0, id),
                    edge_external: old(self)@.edge_external.insert((namespace@, external_id@), id.0),
                    next_edge_id: (old(self)@.next_edge_id + 1) as u64,
                    ..old(self)@
                }),
            built_by_adding(old(self)@) ==> built_by_adding(final(self)@),
    {
        let ghost before = self@;
        if external_id.is_empty() {
            return Err(IdentityError::EmptyExternalId);
        }
        let endpoints_ok = match (node_get(&self.nodes, &src), node_get(&self.nodes, &dst)) {
            (Some(a), Some(b)) => &a.namespace == &namespace && &b.namespace == &namespace,
            _ => false,
        };
        if !endpoints_ok {
            return Err(IdentityError::NamespaceMismatch);
        }
        if self.edge_by_external_id(&namespace, external_id).is_some() {
            return Err(IdentityError::DuplicateExternalId);
        }
        let key = (namespace.clone(), external_id.to_owned());
        let id = self.build_edge(namespace, external_id.to_owned(), src, dst, label, props, embedding, provenance);
        let ghost mid = self@;
        edge_external_insert(&mut self.edge_external_index, key, id);
        proof {
            let s = self@;
            assert(edge_external_wf(s.edge_external, s.edges)) by {
                assert forall|k: (Seq<char>, Seq<char>)| #[trigger] s.edge_external.contains_key(k) implies s.edges.contains_key(s.edge_external[k])
                    && s.edges[s.edge_external[k]].namespace == k.0 && s.edges[s.edge_external[k]].external_id == k.1 by {
                    if k != (key.0@, key.1@) {
                        assert(mid.edge_external.contains_key(k));
                    }
                }
            }
            if built_by_adding(before) {
                adding_an_edge_keeps_built_by_adding(before, self@, self@.edges[id.0]);
            }
        }
        Ok(id)
    }

    /// Records one more, competing, fact about `subject`.
    pub fn add_fact(&mut self, subject: FactSubject, provenance: Provenance)
        requires
            old(self).wf(),
        ensures
            final(self).wf(),
            final(self)@ == (StoreView { facts: push_under(old(self)@.facts, subject, provenance@), ..old(self)@ }),
            built_by_adding(old(self)@) && subject_held(old(self)@, subject) ==> built_by_adding(final(self)@),
    {
        let ghost before = self@;
        let ghost p = provenance@;
        push_fact(&mut self.facts, subject, provenance);
        proof {
            if built_by_adding(before) && subject_held(before, subject) {
                adding_a_fact_keeps_built_by_adding(before, subject, p);
            }
        }
    }

    /// The node with this namespace and external id, if any.
    pub fn node_by_external_id(&self, namespace: &NamespaceId, external_id: &str) -> (r: Option<NodeId>)
        requires
            self.wf(),
        ensures
            match r {
                Some(id) => self@.node_external.contains_key((namespace@, external_id@))
                    && self@.node_external[(namespace@, external_id@)] == id.0,
                None => !self@.node_external.contains_key((namespace@, external_id@)),
            },
    {
        let key = (namespace.clone(), external_id.to_owned());
        match node_external_get(&self.node_external_index, &key) {
            Some(id) => Some(*id),
            None => None,
        }
    }

    /// The edge with this namespace and external id, if any.
    pub fn edge_by_external_id(&self, namespace: &NamespaceId, external_id: &str) -> (r: Option<EdgeId>)
        requires
            self.wf(),
        ensures
            match r {
                Some(id) => self@.edge_external.contains_key((namespace@, external_id@))
                    && self@.edge_external[(namespace@, external_id@)] == id.0,
                None => !self@.edge_external.contains_key((namespace@, external_id@)),
            },
    {
        let key = (namespace.clone(), external_id.to_owned());
        match edge_external_get(&self.edge_external_index, &key) {
            Some(id) => Some(*id),
            None => None,
        }
    }

    /// `(nodes, edges, facts, labels, relations)`: the number of nodes, of edges, of
    /// recorded facts over all subjects (capped at `usize::MAX`), of labels in use and
    /// of relations in use.
    pub fn stats(&self) -> (r: (usize, usize, usize, usize, usize))
        requires
            self.wf(),
        ensures
            r.0 == self@.nodes.dom().len(),
            r.1 == self@.edges.dom().len(),
            r.2 == cap_usize(fact_total(self@.facts)),
            r.3 == self@.node_label_index.dom().len(),
            r.4 == self@.edge_label_index.dom().len(),
    {
        let keys = crate::graph_maps::fact_keys(&self.facts);
        let ghost facts = self@.facts;
        let ghost f = add_fact_count(facts);
        let mut total: usize = 0;
        let mut i: usize = 0;
        proof {
            assert(vstd::set::fold::is_fun_commutative(f)) by {
                assert forall|b: nat, a1: FactSubject, a2: FactSubject| #[trigger] f(f(b, a1), a2) == f(f(b, a2), a1) by {}
            }
            vstd::set::fold::lemma_fold_empty(0nat, f);
            assert(keys@.take(0).to_set() =~= Set::<FactSubject>::empty());
        }
        while i < keys.len()
            invariant
                0 <= i <= keys@.len(),
                facts == self@.facts,
                f == add_fact_count(facts),
                vstd::set::fold::is_fun_commutative(f),
                forall|a: int, b: int| 0 <= a < keys@.len() && 0 <= b < keys@.len() && a != b ==> keys@[a] != keys@[b],
                forall|a: int| 0 <= a < keys@.len() ==> facts.contains_key(#[trigger] keys@[a]),
                total == cap_usize(keys@.take(i as int).to_set().fold(0nat, f)),
            decreases keys@.len() - i,
        {
            let k = keys[i];
            let n = match crate::graph_maps::fact_get(&self.facts, &k) {
                Some(v) => v.len(),
                None => 0,
            };
            proof {
                let done = keys@.take(i as int).to_set();
                let pre = keys@.take(i as int);
                let next = keys@.take(i + 1);
                assert forall|x: FactSubject| next.contains(x) <==> pre.contains(x) || x == k by {
                    if next.contains(x) {
                        let j = choose|j: int| 0 <= j < next.len() && next[j] == x;
                        if j < i {
                            assert(pre[j] == x);
                        }
                    }
                    if pre.contains(x) {
                        let j = choose|j: int| 0 <= j < pre.len() && pre[j] == x;
                        assert(next[j] == x);
                    }
                    if x == k {
                        assert(next[i as int] == x);
                    }
                }
                assert(keys@.take(i + 1).to_set() =~= done.insert(k));
                assert(!done.contains(k)) by {
                    if done.contains(k) {
                        let j = choose|j: int| 0 <= j < i && keys@.take(i as int)[j] == k;
                        assert(keys@[j] == keys@[i as int]);
                    }
                }
                vstd::seq_lib::seq_to_set_is_finite(keys@.take(i as int));
                assert(done.finite());
                vstd::set::fold::lemma_fold_insert(done, 0nat, f, k);
                assert(n == facts[k].len());
            }
            total = total.saturating_add(n);
            i = i + 1;
        }
        proof {
            assert(keys@.take(keys@.len() as int) =~= keys@);
            assert(keys@.to_set() =~= facts.dom()) by {
                assert forall|k: FactSubject| facts.dom().contains(k) implies keys@.to_set().contains(k) by {
                    let j = choose|j: int| 0 <= j < keys@.len() && #[trigger] keys@[j] == k;
                    assert(keys@.contains(k));
                }
            }
        }
        (
            node_len(&self.nodes),
            edge_len(&self.edges),
            total,
            label_index_len(&self.node_label_index),
            relation_index_len(&self.edge_label_index),
        )
    }

    /// Id that will be assigned to the next added node.
    pub fn next_node_id(&self) -> (r: u64)
        ensures
            r == self@.next_node_id,
    {
        self.next_node_id
    }

    /// Id that will be assigned to the next added edge.
    pub fn next_edge_id(&self) -> (r: u64)
        ensures
            r == self@.next_edge_id,
    {
        self.next_edge_id
    }
}


impl Clone for Store {
    fn clone(&self) -> (r: Self)
        ensures
            r@ == self@,
            self.wf() ==> r.wf(),
    {
        Store {
            string_table: self.string_table.clone(),
            nodes: node_clone(&self.nodes),
            edges: edge_clone(&self.edges),
            facts: fact_clone(&self.facts),
            node_label_index: label_index_clone(&self.node_label_index),
            edge_label_index: relation_index_clone(&self.edge_label_index),
            outgoing: adjacency_clone(&self.outgoing),
            incoming: adjacency_clone(&self.incoming),
            node_external_index: node_external_clone(&self.node_external_index),
            edge_external_index: edge_external_clone(&self.edge_external_index),
            next_node_id: self.next_node_id,
            next_edge_id: self.next_edge_id,
        }
    }
}

impl Default for Store {
    fn default() -> (s: Self)
        ensures
            s.wf(),
            s@.strings.len() == 0,
            s@.nodes.is_empty(),
            s@.edges.is_empty(),
            s@.facts.is_empty(),
            s@.next_node_id == 0,
            s@.next_edge_id == 0,
    {
        Store::new()
    }
}

/// The store is append-only: a node or an edge added under the next id leaves every
/// record the store held in place, unchanged.
pub proof fn adding_keeps_existing_records(s: StoreView, n: NodeView, e: EdgeView)
    requires
        store_view_wf(s),
    ensures
        forall|k: u64| #[trigger] s.nodes.contains_key(k) ==> s.nodes.insert(s.next_node_id, n).contains_key(k)
            && s.nodes.insert(s.next_node_id, n)[k] == s.nodes[k],
        forall|k: u64| #[trigger] s.edges.contains_key(k) ==> s.edges.insert(s.next_edge_id, e).contains_key(k)
            && s.edges.insert(s.next_edge_id, e)[k] == s.edges[k],
{
}

} // verus!
