//! A store as the blocks of a storage file: laying it out to be written, and rebuilding
//! it from decoded blocks.

use crate::block::{BlockKind, BlockPayload, BlockPayloadView};
use crate::edge::EdgeView;
use crate::fact::FactSubject;
use crate::graph_maps::{
    edge_get, edge_keys, fact_get, fact_keys, label_index_get, label_index_keys, node_get, node_keys,
    provenances_view, relation_index_get, relation_index_keys,
};
use crate::id::{EdgeId, LabelId, NodeId, RelationId};
use crate::node::Node;
use crate::edge::Edge;
use crate::provenance::Provenance;
use crate::node::NodeView;
use crate::ontology::StringTable;
use crate::provenance::ProvenanceView;
use crate::storage::{
    blocks_fault, decoded_view, edge_run, node_run, store_fault, store_valid, validate_decoded_blocks,
    validate_store, StoreError,
};
use crate::store::{push_under, restore_edge_step, restore_node_step, Store, StoreView};
use vstd::prelude::*;

verus! {

/// The nodes a block payload holds.
pub open spec fn block_nodes(p: BlockPayloadView) -> Seq<NodeView> {
    match p {
        BlockPayloadView::Nodes { nodes, .. } => nodes,
        _ => Seq::empty(),
    }
}

/// The edges a block payload holds.
pub open spec fn block_edges(p: BlockPayloadView) -> Seq<EdgeView> {
    match p {
        BlockPayloadView::Edges { edges, .. } => edges,
        _ => Seq::empty(),
    }
}

/// The fact entries a block payload holds.
pub open spec fn block_facts(p: BlockPayloadView) -> Seq<(FactSubject, ProvenanceView)> {
    match p {
        BlockPayloadView::Facts { entries } => entries,
        _ => Seq::empty(),
    }
}

/// The records `f` takes from each block, one block after another.
pub open spec fn flat_by<T>(bv: Seq<(BlockKind, BlockPayloadView)>, f: spec_fn(BlockPayloadView) -> Seq<T>) -> Seq<T>
    decreases bv.len(),
{
    if bv.len() == 0 {
        Seq::empty()
    } else {
        flat_by(bv.drop_last(), f) + f(bv.last().1)
    }
}

/// Every node of the decoded blocks, in file order.
pub open spec fn flat_nodes(bv: Seq<(BlockKind, BlockPayloadView)>) -> Seq<NodeView> {
    flat_by(bv, |p: BlockPayloadView| block_nodes(p))
}

/// Every edge of the decoded blocks, in file order.
pub open spec fn flat_edges(bv: Seq<(BlockKind, BlockPayloadView)>) -> Seq<EdgeView> {
    flat_by(bv, |p: BlockPayloadView| block_edges(p))
}

/// Every extra fact of the decoded blocks, in file order.
pub open spec fn flat_facts(bv: Seq<(BlockKind, BlockPayloadView)>) -> Seq<(FactSubject, ProvenanceView)> {
    flat_by(bv, |p: BlockPayloadView| block_facts(p))
}

/// A store after the given nodes are put back one after another.
pub open spec fn node_pass(s: StoreView, ns: Seq<NodeView>) -> StoreView
    decreases ns.len(),
{
    if ns.len() == 0 {
        s
    } else {
        restore_node_step(node_pass(s, ns.drop_last()), ns.last())
    }
}

/// A store after the given edges are put back one after another.
pub open spec fn edge_pass(s: StoreView, es: Seq<EdgeView>) -> StoreView
    decreases es.len(),
{
    if es.len() == 0 {
        s
    } else {
        restore_edge_step(edge_pass(s, es.drop_last()), es.last())
    }
}

/// An edge with an end the nodes do not hold.
pub open spec fn dangling(nodes: Map<u64, NodeView>, e: EdgeView) -> bool {
    !nodes.contains_key(e.src.0) || !nodes.contains_key(e.dst.0)
}

/// The id of the first edge, in order, with an end the nodes do not hold.
pub open spec fn first_dangling_edge(nodes: Map<u64, NodeView>, es: Seq<EdgeView>) -> Option<u64>
    decreases es.len(),
{
    if es.len() == 0 {
        None
    } else {
        match first_dangling_edge(nodes, es.drop_last()) {
            Some(id) => Some(id),
            None => if dangling(nodes, es.last()) {
                Some(es.last().id.0)
            } else {
                None
            },
        }
    }
}

/// A fact subject the store holds no record for.
pub open spec fn subject_missing(s: StoreView, subject: FactSubject) -> bool {
    match subject {
        FactSubject::Node(id) => !s.nodes.contains_key(id.0),
        FactSubject::Edge(id) => !s.edges.contains_key(id.0),
    }
}

/// The canonical facts of a store: each node and edge with its own provenance alone.
pub open spec fn canonical_facts(s: StoreView) -> Map<FactSubject, Seq<ProvenanceView>> {
    Map::new(
        |k: FactSubject| !subject_missing(s, k),
        |k: FactSubject|
            match k {
                FactSubject::Node(id) => seq![s.nodes[id.0].provenance],
                FactSubject::Edge(id) => seq![s.edges[id.0].provenance],
            },
    )
}

/// Facts after the given entries are appended one after another.
pub open spec fn fact_pass(
    facts: Map<FactSubject, Seq<ProvenanceView>>,
    entries: Seq<(FactSubject, ProvenanceView)>,
) -> Map<FactSubject, Seq<ProvenanceView>>
    decreases entries.len(),
{
    if entries.len() == 0 {
        facts
    } else {
        let rest = fact_pass(facts, entries.drop_last());
        push_under(rest, entries.last().0, entries.last().1)
    }
}

/// The store decoded blocks describe: the string table, every node, then every edge put
/// back in file order, the canonical facts, and then the extra facts in file order.
pub open spec fn rebuilt_view(strings: Seq<Seq<char>>, bv: Seq<(BlockKind, BlockPayloadView)>) -> StoreView {
    let s1 = node_pass(StoreView { strings, ..Store::new_view() }, flat_nodes(bv));
    let s2 = edge_pass(s1, flat_edges(bv));
    StoreView { facts: fact_pass(canonical_facts(s2), flat_facts(bv)), ..s2 }
}

/// What rebuilding a store from decoded blocks gives: the first problem the blocks have;
/// else the first edge with a missing end; else a fact about a missing subject; else the
/// rebuilt store when it passes validation, and a validation error when it does not.
pub open spec fn restore_outcome(
    strings: Seq<Seq<char>>,
    bv: Seq<(BlockKind, BlockPayloadView)>,
    r: Result<StoreView, StoreError>,
) -> bool {
    match blocks_fault(strings.len(), bv, 0, Set::empty(), Set::empty()) {
        Some(e) => r == Err::<StoreView, StoreError>(e),
        None => {
            let s1 = node_pass(StoreView { strings, ..Store::new_view() }, flat_nodes(bv));
            match first_dangling_edge(s1.nodes, flat_edges(bv)) {
                Some(id) => r == Err::<StoreView, StoreError>(StoreError::DanglingEdge { edge_id: id }),
                None => {
                    let s2 = edge_pass(s1, flat_edges(bv));
                    if exists|i: int| 0 <= i < flat_facts(bv).len() && subject_missing(s2, #[trigger] flat_facts(bv)[i].0) {
                        r == Err::<StoreView, StoreError>(StoreError::DanglingFact)
                    } else {
                        let v = rebuilt_view(strings, bv);
                        if store_valid(v) {
                            r == Ok::<StoreView, StoreError>(v)
                        } else {
                            r matches Err(e) && store_fault(v, e)
                        }
                    }
                },
            }
        },
    }
}

pub(crate) proof fn lemma_flat_by_push<T>(bv: Seq<(BlockKind, BlockPayloadView)>, f: spec_fn(BlockPayloadView) -> Seq<T>, i: int)
    requires
        0 <= i < bv.len(),
    ensures
        flat_by(bv.take(i + 1), f) == flat_by(bv.take(i), f) + f(bv[i].1),
{
    assert(bv.take(i + 1).drop_last() =~= bv.take(i));
}

pub(crate) proof fn lemma_flat_by_add<T>(a: Seq<(BlockKind, BlockPayloadView)>, b: Seq<(BlockKind, BlockPayloadView)>, f: spec_fn(BlockPayloadView) -> Seq<T>)
    ensures
        flat_by(a + b, f) == flat_by(a, f) + flat_by(b, f),
    decreases b.len(),
{
    if b.len() == 0 {
        assert(a + b =~= a);
        assert(flat_by(a, f) + flat_by(b, f) =~= flat_by(a, f));
    } else {
        assert((a + b).drop_last() =~= a + b.drop_last());
        lemma_flat_by_add(a, b.drop_last(), f);
        assert(flat_by(a, f) + flat_by(b, f) =~= flat_by(a, f) + flat_by(b.drop_last(), f) + f(b.last().1));
    }
}

/// The records of the first `i` blocks, then the first `j` of block `i`, begin the records
/// of all the blocks.
proof fn lemma_flat_by_prefix<T>(bv: Seq<(BlockKind, BlockPayloadView)>, f: spec_fn(BlockPayloadView) -> Seq<T>, i: int, j: int)
    requires
        0 <= i < bv.len(),
        0 <= j <= f(bv[i].1).len(),
    ensures
        flat_by(bv, f) == flat_by(bv.take(i), f) + f(bv[i].1).take(j) + (f(bv[i].1).skip(j) + flat_by(bv.skip(i + 1), f)),
{
    lemma_flat_by_add(bv.take(i + 1), bv.skip(i + 1), f);
    assert(bv.take(i + 1) + bv.skip(i + 1) =~= bv);
    lemma_flat_by_push(bv, f, i);
    let x = f(bv[i].1);
    assert(x =~= x.take(j) + x.skip(j));
    assert(flat_by(bv, f) =~= flat_by(bv.take(i), f) + x.take(j) + (x.skip(j) + flat_by(bv.skip(i + 1), f)));
}

proof fn lemma_first_dangling_prefix(nodes: Map<u64, NodeView>, a: Seq<EdgeView>, b: Seq<EdgeView>)
    requires
        first_dangling_edge(nodes, a) is Some,
    ensures
        first_dangling_edge(nodes, a + b) == first_dangling_edge(nodes, a),
    decreases b.len(),
{
    if b.len() == 0 {
        assert(a + b =~= a);
    } else {
        assert((a + b).drop_last() =~= a + b.drop_last());
        lemma_first_dangling_prefix(nodes, a, b.drop_last());
    }
}

pub(crate) proof fn lemma_node_pass_add(s: StoreView, a: Seq<NodeView>, b: Seq<NodeView>)
    ensures
        node_pass(s, a + b) == node_pass(node_pass(s, a), b),
    decreases b.len(),
{
    if b.len() == 0 {
        assert(a + b =~= a);
    } else {
        assert((a + b).drop_last() =~= a + b.drop_last());
        lemma_node_pass_add(s, a, b.drop_last());
    }
}

pub(crate) proof fn lemma_edge_pass_add(s: StoreView, a: Seq<EdgeView>, b: Seq<EdgeView>)
    ensures
        edge_pass(s, a + b) == edge_pass(edge_pass(s, a), b),
    decreases b.len(),
{
    if b.len() == 0 {
        assert(a + b =~= a);
    } else {
        assert((a + b).drop_last() =~= a + b.drop_last());
        lemma_edge_pass_add(s, a, b.drop_last());
    }
}

pub(crate) proof fn lemma_fact_pass_add(
    f: Map<FactSubject, Seq<ProvenanceView>>,
    a: Seq<(FactSubject, ProvenanceView)>,
    b: Seq<(FactSubject, ProvenanceView)>,
)
    ensures
        fact_pass(f, a + b) == fact_pass(fact_pass(f, a), b),
    decreases b.len(),
{
    if b.len() == 0 {
        assert(a + b =~= a);
    } else {
        assert((a + b).drop_last() =~= a + b.drop_last());
        lemma_fact_pass_add(f, a, b.drop_last());
    }
}

pub(crate) proof fn lemma_first_dangling_add(nodes: Map<u64, NodeView>, a: Seq<EdgeView>, b: Seq<EdgeView>)
    ensures
        first_dangling_edge(nodes, a + b) == (match first_dangling_edge(nodes, a) {
            Some(id) => Some(id),
            None => first_dangling_edge(nodes, b),
        }),
    decreases b.len(),
{
    if b.len() == 0 {
        assert(a + b =~= a);
    } else {
        assert((a + b).drop_last() =~= a + b.drop_last());
        lemma_first_dangling_add(nodes, a, b.drop_last());
    }
}

/// Putting back nodes leaves the edges, facts and edge indexes alone.
pub(crate) proof fn lemma_node_pass_frame(s: StoreView, ns: Seq<NodeView>)
    ensures
        node_pass(s, ns).edges == s.edges,
        node_pass(s, ns).facts == s.facts,
        node_pass(s, ns).edge_label_index == s.edge_label_index,
        node_pass(s, ns).outgoing == s.outgoing,
        node_pass(s, ns).incoming == s.incoming,
        node_pass(s, ns).edge_external == s.edge_external,
        node_pass(s, ns).next_edge_id == s.next_edge_id,
        node_pass(s, ns).strings == s.strings,
    decreases ns.len(),
{
    if ns.len() > 0 {
        lemma_node_pass_frame(s, ns.drop_last());
    }
}

/// Putting back edges leaves the nodes, facts and node indexes alone.
pub(crate) proof fn lemma_edge_pass_frame(s: StoreView, es: Seq<EdgeView>)
    ensures
        edge_pass(s, es).nodes == s.nodes,
        edge_pass(s, es).facts == s.facts,
        edge_pass(s, es).node_label_index == s.node_label_index,
        edge_pass(s, es).node_external == s.node_external,
        edge_pass(s, es).next_node_id == s.next_node_id,
        edge_pass(s, es).strings == s.strings,
    decreases es.len(),
{
    if es.len() > 0 {
        lemma_edge_pass_frame(s, es.drop_last());
    }
}

/// Puts back the nodes of one block.
fn restore_block_nodes(store: &mut Store, label: crate::id::LabelId, nodes: &Vec<crate::node::Node>, Ghost(table_len): Ghost<nat>)
    requires
        old(store).wf(),
        node_run(table_len, label, crate::block::nodes_view(nodes@), 0, old(store)@.nodes.dom()) is Ok,
        forall|k: int| 0 <= k < nodes@.len() ==> #[trigger] nodes@[k].id.0 < u64::MAX,
    ensures
        final(store).wf(),
        final(store)@ == node_pass(old(store)@, crate::block::nodes_view(nodes@)),
        node_run(table_len, label, crate::block::nodes_view(nodes@), 0, old(store)@.nodes.dom()) == Ok::<Set<u64>, StoreError>(final(store)@.nodes.dom()),
{
    let ghost nv = crate::block::nodes_view(nodes@);
    let ghost after = node_run(table_len, label, nv, 0, store@.nodes.dom())->Ok_0;
    let ghost start = store@;
    proof {
        assert(nv.take(0) =~= Seq::empty());
    }
    let mut j: usize = 0;
    while j < nodes.len()
        invariant
            j <= nodes@.len(),
            nv == crate::block::nodes_view(nodes@),
            start == old(store)@,
            store.wf(),
            store@ == node_pass(start, nv.take(j as int)),
            node_run(table_len, label, nv, j as int, store@.nodes.dom()) == Ok::<Set<u64>, StoreError>(after),
            forall|k: int| 0 <= k < nodes@.len() ==> #[trigger] nodes@[k].id.0 < u64::MAX,
        decreases nodes@.len() - j,
    {
        let node = nodes[j].clone();
        proof {
            assert(nv[j as int] == node@);
            assert(nv.take(j + 1).drop_last() =~= nv.take(j as int));
            assert(nodes@[j as int].id.0 < u64::MAX);
        }
        let ghost dom_before = store@.nodes.dom();
        store.restore_node(node);
        proof {
            assert(store@.nodes.dom() =~= dom_before.insert(nv[j as int].id.0));
        }
        j = j + 1;
    }
    proof {
        assert(nv.take(j as int) =~= nv);
    }
}

/// Puts back the edges of one block, unless one of them has an end the store lacks.
fn restore_block_edges(store: &mut Store, relation: crate::id::RelationId, edges: &Vec<crate::edge::Edge>, Ghost(table_len): Ghost<nat>) -> (r: Result<(), StoreError>)
    requires
        old(store).wf(),
        edge_run(table_len, relation, crate::block::edges_view(edges@), 0, old(store)@.edges.dom()) is Ok,
        forall|k: int| 0 <= k < edges@.len() ==> #[trigger] edges@[k].id.0 < u64::MAX,
    ensures
        final(store).wf(),
        match first_dangling_edge(old(store)@.nodes, crate::block::edges_view(edges@)) {
            Some(id) => r == Err::<(), StoreError>(StoreError::DanglingEdge { edge_id: id }),
            None => r is Ok && final(store)@ == edge_pass(old(store)@, crate::block::edges_view(edges@))
                && edge_run(table_len, relation, crate::block::edges_view(edges@), 0, old(store)@.edges.dom())
                    == Ok::<Set<u64>, StoreError>(final(store)@.edges.dom()),
        },
{
    let ghost ev = crate::block::edges_view(edges@);
    let ghost after = edge_run(table_len, relation, ev, 0, store@.edges.dom())->Ok_0;
    let ghost start = store@;
    proof {
        assert(ev.take(0) =~= Seq::empty());
        store.lemma_view_fields();
    }
    let mut j: usize = 0;
    while j < edges.len()
        invariant
            j <= edges@.len(),
            ev == crate::block::edges_view(edges@),
            start == old(store)@,
            store.wf(),
            store@ == edge_pass(start, ev.take(j as int)),
            store@.nodes == start.nodes,
            first_dangling_edge(start.nodes, ev.take(j as int)) is None,
            edge_run(table_len, relation, ev, j as int, store@.edges.dom()) == Ok::<Set<u64>, StoreError>(after),
            forall|k: int| 0 <= k < edges@.len() ==> #[trigger] edges@[k].id.0 < u64::MAX,
        decreases edges@.len() - j,
    {
        let edge = edges[j].clone();
        proof {
            assert(ev[j as int] == edge@);
            assert(ev.take(j + 1).drop_last() =~= ev.take(j as int));
            assert(edges@[j as int].id.0 < u64::MAX);
            store.lemma_view_fields();
        }
        let src = node_get(&store.nodes, &edge.src);
        let dst = node_get(&store.nodes, &edge.dst);
        if src.is_none() || dst.is_none() {
            proof {
                assert(first_dangling_edge(start.nodes, ev.take(j + 1)) == Some(edge.id.0));
                assert(ev =~= ev.take(j + 1) + ev.skip(j + 1));
                lemma_first_dangling_prefix(start.nodes, ev.take(j + 1), ev.skip(j + 1));
            }
            return Err(StoreError::DanglingEdge { edge_id: edge.id.0 });
        }
        let ghost dom_before = store@.edges.dom();
        store.restore_edge(edge);
        proof {
            assert(store@.edges.dom() =~= dom_before.insert(ev[j as int].id.0));
        }
        j = j + 1;
    }
    proof {
        assert(ev.take(j as int) =~= ev);
    }
    Ok(())
}


/// Puts back the edges of every block, refusing the first edge with a missing end.
fn restore_edges_pass(store: &mut Store, decoded: &Vec<(BlockKind, BlockPayload)>, Ghost(table_len): Ghost<nat>) -> (r: Result<(), StoreError>)
    requires
        old(store).wf(),
        old(store)@.edges.dom() == Set::<u64>::empty(),
        table_len == old(store)@.strings.len(),
        blocks_fault(table_len, decoded_view(decoded@), 0, Set::empty(), Set::empty()) is None,
        forall|i: int| 0 <= i < flat_edges(decoded_view(decoded@)).len() ==> #[trigger] flat_edges(decoded_view(decoded@))[i].id.0 < u64::MAX,
    ensures
        final(store).wf(),
        match first_dangling_edge(old(store)@.nodes, flat_edges(decoded_view(decoded@))) {
            Some(id) => r == Err::<(), StoreError>(StoreError::DanglingEdge { edge_id: id }),
            None => r is Ok && final(store)@ == edge_pass(old(store)@, flat_edges(decoded_view(decoded@))),
        },
{
    let ghost bv = decoded_view(decoded@);
    let ghost s1 = store@;
    let ghost mut nodes_seen: Set<u64> = Set::empty();
    proof {
        assert(flat_edges(bv.take(0)) =~= Seq::empty());
    }
    let mut i: usize = 0;
    while i < decoded.len()
        invariant
            i <= decoded@.len(),
            bv == decoded_view(decoded@),
            s1 == old(store)@,
            store.wf(),
            store@ == edge_pass(s1, flat_edges(bv.take(i as int))),
            first_dangling_edge(s1.nodes, flat_edges(bv.take(i as int))) is None,
            blocks_fault(table_len, bv, i as int, nodes_seen, store@.edges.dom()) is None,
            forall|k: int| 0 <= k < flat_edges(bv).len() ==> #[trigger] flat_edges(bv)[k].id.0 < u64::MAX,
        decreases decoded@.len() - i,
    {
        let block = &decoded[i];
        let ghost prefix = flat_edges(bv.take(i as int));
        proof {
            assert(bv[i as int] == (block.0, block.1@));
            lemma_flat_by_push(bv, |p: BlockPayloadView| block_edges(p), i as int);
            lemma_edge_pass_add(s1, prefix, block_edges(block.1@));
            lemma_first_dangling_add(s1.nodes, prefix, block_edges(block.1@));
            lemma_edge_pass_frame(s1, prefix);
        }
        match &block.1 {
            BlockPayload::Edges { relation, edges } => {
                proof {
                    lemma_flat_by_prefix(bv, |p: BlockPayloadView| block_edges(p), i as int, 0);
                    let x = block_edges(block.1@);
                    let rest = flat_edges(bv.skip(i + 1));
                    assert(x.take(0) =~= Seq::<EdgeView>::empty());
                    assert(x.skip(0) =~= x);
                    assert(flat_edges(bv) =~= prefix + (x + rest));
                    assert forall|k: int| 0 <= k < edges@.len() implies #[trigger] edges@[k].id.0 < u64::MAX by {
                        assert(flat_edges(bv)[prefix.len() + k] == x[k]);
                        assert(x[k] == edges@[k]@);
                        assert(flat_edges(bv)[prefix.len() + k].id.0 < u64::MAX);
                    }
                    lemma_first_dangling_add(s1.nodes, prefix, x + rest);
                    lemma_first_dangling_add(s1.nodes, x, rest);
                }
                match restore_block_edges(store, *relation, edges, Ghost(table_len)) {
                    Err(e) => {
                        return Err(e);
                    },
                    Ok(()) => {},
                }
            },
            BlockPayload::Nodes { label, nodes } => {
                proof {
                    nodes_seen = node_run(table_len, *label, block_nodes(block.1@), 0, nodes_seen)->Ok_0;
                    assert(block_edges(block.1@) =~= Seq::empty());
                    assert(prefix + block_edges(block.1@) =~= prefix);
                }
            },
            BlockPayload::Facts { .. } => {
                proof {
                    assert(block_edges(block.1@) =~= Seq::empty());
                    assert(prefix + block_edges(block.1@) =~= prefix);
                }
            },
        }
        i = i + 1;
    }
    proof {
        assert(bv.take(i as int) =~= bv);
    }
    Ok(())
}

proof fn lemma_canonical_step(
    canon: Map<FactSubject, Seq<ProvenanceView>>,
    done: Set<FactSubject>,
    x: FactSubject,
    p: ProvenanceView,
)
    requires
        !done.contains(x),
        canon.contains_key(x),
        canon[x] == seq![p],
    ensures
        push_under(canon.restrict(done), x, p) == canon.restrict(done.insert(x)),
{
    assert(crate::store::list_or_empty(canon.restrict(done), x) =~= Seq::<ProvenanceView>::empty());
    assert(push_under(canon.restrict(done), x, p) =~= canon.restrict(done.insert(x)));
}

/// Records each node's and each edge's own provenance as its only fact.
fn restore_canonical_facts(store: &mut Store)
    requires
        old(store).wf(),
        old(store)@.facts == Map::<FactSubject, Seq<ProvenanceView>>::empty(),
    ensures
        final(store).wf(),
        final(store)@ == (StoreView { facts: canonical_facts(old(store)@), ..old(store)@ }),
{
    let ghost s = store@;
    let ghost canon = canonical_facts(s);
    proof {
        store.lemma_view_fields();
    }
    let keys = node_keys(&store.nodes);
    let ghost mut done: Set<FactSubject> = Set::empty();
    proof {
        assert(canon.restrict(done) =~= Map::empty());
        assert(store@ =~= (StoreView { facts: canon.restrict(done), ..s }));
    }
    let mut j: usize = 0;
    while j < keys.len()
        invariant
            j <= keys@.len(),
            canon == canonical_facts(s),
            store.wf(),
            store@ == (StoreView { facts: canon.restrict(done), ..s }),
            forall|m: int| 0 <= m < keys@.len() ==> s.nodes.contains_key(#[trigger] keys@[m].0),
            forall|k: u64| s.nodes.contains_key(k) ==> exists|m: int| 0 <= m < keys@.len() && #[trigger] keys@[m].0 == k,
            forall|a: int, b: int| 0 <= a < keys@.len() && 0 <= b < keys@.len() && a != b ==> keys@[a].0 != keys@[b].0,
            forall|x: FactSubject| #[trigger] done.contains(x) <==> (x matches FactSubject::Node(id) && exists|m: int| 0 <= m < j && keys@[m] == id),
        decreases keys@.len() - j,
    {
        proof {
            store.lemma_view_fields();
        }
        let id = keys[j];
        let ghost x = FactSubject::Node(id);
        match node_get(&store.nodes, &id) {
            Some(n) => {
                let p = n.provenance.clone();
                proof {
                    assert(!done.contains(x)) by {
                        if done.contains(x) {
                            let m = choose|m: int| 0 <= m < j && keys@[m] == id;
                            assert(keys@[m].0 != keys@[j as int].0);
                        }
                    }
                    lemma_canonical_step(canon, done, x, p@);
                }
                store.add_fact(FactSubject::Node(id), p);
                proof {
                    done = done.insert(x);
                    assert(store@ =~= (StoreView { facts: canon.restrict(done), ..s }));
                    assert forall|y: FactSubject| #[trigger] done.contains(y) <==> (y matches FactSubject::Node(id2) && exists|m: int| 0 <= m < j + 1 && keys@[m] == id2) by {
                        if y == x {
                            assert(keys@[j as int] == id);
                        }
                    }
                }
            },
            None => {},
        }
        j = j + 1;
    }
    proof {
        store.lemma_view_fields();
        assert forall|x: FactSubject| #[trigger] done.contains(x) <==> (x matches FactSubject::Node(id) && s.nodes.contains_key(id.0)) by {
            if let FactSubject::Node(id) = x {
                if s.nodes.contains_key(id.0) {
                    let m = choose|m: int| 0 <= m < keys@.len() && #[trigger] keys@[m].0 == id.0;
                    assert(keys@[m] == id);
                }
            }
        }
    }
    let ekeys = edge_keys(&store.edges);
    let ghost node_done = done;
    let mut j: usize = 0;
    while j < ekeys.len()
        invariant
            j <= ekeys@.len(),
            canon == canonical_facts(s),
            store.wf(),
            store@ == (StoreView { facts: canon.restrict(done), ..s }),
            forall|m: int| 0 <= m < ekeys@.len() ==> s.edges.contains_key(#[trigger] ekeys@[m].0),
            forall|k: u64| s.edges.contains_key(k) ==> exists|m: int| 0 <= m < ekeys@.len() && #[trigger] ekeys@[m].0 == k,
            forall|a: int, b: int| 0 <= a < ekeys@.len() && 0 <= b < ekeys@.len() && a != b ==> ekeys@[a].0 != ekeys@[b].0,
            forall|x: FactSubject| #[trigger] node_done.contains(x) <==> (x matches FactSubject::Node(id) && s.nodes.contains_key(id.0)),
            forall|x: FactSubject| #[trigger] done.contains(x) <==> (node_done.contains(x) || (x matches FactSubject::Edge(id) && exists|m: int| 0 <= m < j && ekeys@[m] == id)),
        decreases ekeys@.len() - j,
    {
        proof {
            store.lemma_view_fields();
        }
        let id = ekeys[j];
        let ghost x = FactSubject::Edge(id);
        match edge_get(&store.edges, &id) {
            Some(e) => {
                let p = e.provenance.clone();
                proof {
                    assert(!done.contains(x)) by {
                        if done.contains(x) {
                            let m = choose|m: int| 0 <= m < j && ekeys@[m] == id;
                            assert(ekeys@[m].0 != ekeys@[j as int].0);
                        }
                    }
                    lemma_canonical_step(canon, done, x, p@);
                }
                store.add_fact(FactSubject::Edge(id), p);
                proof {
                    done = done.insert(x);
                    assert(store@ =~= (StoreView { facts: canon.restrict(done), ..s }));
                    assert forall|y: FactSubject| #[trigger] done.contains(y) <==> (node_done.contains(y) || (y matches FactSubject::Edge(id2) && exists|m: int| 0 <= m < j + 1 && ekeys@[m] == id2)) by {
                        if y == x {
                            assert(ekeys@[j as int] == id);
                        }
                    }
                }
            },
            None => {},
        }
        j = j + 1;
    }
    proof {
        assert forall|y: FactSubject| #[trigger] canon.contains_key(y) implies done.contains(y) by {
            match y {
                FactSubject::Node(id) => {
                    let m = choose|m: int| 0 <= m < keys@.len() && #[trigger] keys@[m].0 == id.0;
                    assert(keys@[m] == id);
                },
                FactSubject::Edge(id) => {
                    let m = choose|m: int| 0 <= m < ekeys@.len() && #[trigger] ekeys@[m].0 == id.0;
                    assert(ekeys@[m] == id);
                },
            }
        }
        assert(canon.restrict(done) =~= canon);
    }
}

/// Appends the extra facts of every block, refusing one about a missing subject.
fn restore_extra_facts(store: &mut Store, decoded: &Vec<(BlockKind, BlockPayload)>) -> (r: Result<(), StoreError>)
    requires
        old(store).wf(),
    ensures
        final(store).wf(),
        if exists|i: int| 0 <= i < flat_facts(decoded_view(decoded@)).len() && subject_missing(old(store)@, #[trigger] flat_facts(decoded_view(decoded@))[i].0) {
            r == Err::<(), StoreError>(StoreError::DanglingFact)
        } else {
            r is Ok && final(store)@ == (StoreView { facts: fact_pass(old(store)@.facts, flat_facts(decoded_view(decoded@))), ..old(store)@ })
        },
{
    let ghost bv = decoded_view(decoded@);
    let ghost s = store@;
    proof {
        assert(flat_facts(bv.take(0)) =~= Seq::empty());
    }
    let mut i: usize = 0;
    while i < decoded.len()
        invariant
            i <= decoded@.len(),
            bv == decoded_view(decoded@),
            s == old(store)@,
            store.wf(),
            store@ == (StoreView { facts: fact_pass(s.facts, flat_facts(bv.take(i as int))), ..s }),
            forall|k: int| 0 <= k < flat_facts(bv.take(i as int)).len() ==> !subject_missing(s, #[trigger] flat_facts(bv.take(i as int))[k].0),
        decreases decoded@.len() - i,
    {
        let block = &decoded[i];
        let ghost prefix = flat_facts(bv.take(i as int));
        proof {
            assert(bv[i as int] == (block.0, block.1@));
            lemma_flat_by_push(bv, |p: BlockPayloadView| block_facts(p), i as int);
        }
        match &block.1 {
            BlockPayload::Facts { entries } => {
                let ghost x = block_facts(block.1@);
                let mut j: usize = 0;
                proof {
                    assert(prefix + x.take(0) =~= prefix);
                }
                while j < entries.len()
                    invariant
                        j <= entries@.len(),
                        bv == decoded_view(decoded@),
                        0 <= i < bv.len(),
                        bv[i as int] == (block.0, block.1@),
                        x == block_facts(block.1@),
                        x == crate::block::fact_entries_view(entries@),
                        prefix == flat_facts(bv.take(i as int)),
                        s == old(store)@,
                        store.wf(),
                        store@ == (StoreView { facts: fact_pass(s.facts, prefix + x.take(j as int)), ..s }),
                        forall|k: int| 0 <= k < (prefix + x.take(j as int)).len() ==> !subject_missing(s, #[trigger] (prefix + x.take(j as int))[k].0),
                    decreases entries@.len() - j,
                {
                    proof {
                        store.lemma_view_fields();
                    }
                    let subject = entries[j].0;
                    let present = match subject {
                        FactSubject::Node(id) => node_get(&store.nodes, &id).is_some(),
                        FactSubject::Edge(id) => edge_get(&store.edges, &id).is_some(),
                    };
                    proof {
                        assert(x[j as int].0 == subject);
                        assert(present == !subject_missing(s, subject));
                    }
                    if !present {
                        proof {
                            lemma_flat_by_prefix(bv, |p: BlockPayloadView| block_facts(p), i as int, j as int);
                            let all = flat_facts(bv);
                            assert(all[prefix.len() + j] == x[j as int]);
                            assert(subject_missing(s, all[prefix.len() + j].0));
                        }
                        return Err(StoreError::DanglingFact);
                    }
                    let p = entries[j].1.clone();
                    let ghost before = prefix + x.take(j as int);
                    store.add_fact(subject, p);
                    proof {
                        assert(before.push(x[j as int]) =~= prefix + x.take(j + 1));
                        assert((prefix + x.take(j + 1)).drop_last() =~= before);
                        assert(store@ =~= (StoreView { facts: fact_pass(s.facts, prefix + x.take(j + 1)), ..s }));
                        assert forall|k: int| 0 <= k < (prefix + x.take(j + 1)).len() implies !subject_missing(s, #[trigger] (prefix + x.take(j + 1))[k].0) by {
                            if k < before.len() {
                                assert((prefix + x.take(j + 1))[k] == before[k]);
                            }
                        }
                    }
                    j = j + 1;
                }
                proof {
                    assert(x.take(j as int) =~= x);
                }
            },
            _ => {
                proof {
                    assert(block_facts(block.1@) =~= Seq::empty());
                    assert(prefix + block_facts(block.1@) =~= prefix);
                }
            },
        }
        i = i + 1;
    }
    proof {
        assert(bv.take(i as int) =~= bv);
    }
    Ok(())
}


/// The labels some node carries.
pub open spec fn used_labels(s: StoreView) -> Set<u32> {
    Set::new(|l: u32| exists|k: u64| #[trigger] s.nodes.contains_key(k) && s.nodes[k].label.0 == l)
}

/// The relations some edge carries.
pub open spec fn used_relations(s: StoreView) -> Set<u32> {
    Set::new(|l: u32| exists|k: u64| #[trigger] s.edges.contains_key(k) && s.edges[k].label.0 == l)
}

/// `ns` lists every node of label `l`, each once, as the store holds it.
pub open spec fn lists_label(s: StoreView, ns: Seq<NodeView>, l: LabelId) -> bool {
    &&& forall|i: int| 0 <= i < ns.len() ==> s.nodes.contains_key(#[trigger] ns[i].id.0) && ns[i] == s.nodes[ns[i].id.0] && ns[i].label == l
    &&& forall|i: int, j: int| 0 <= i < ns.len() && 0 <= j < ns.len() && i != j ==> ns[i].id != ns[j].id
    &&& forall|k: u64| s.nodes.contains_key(k) && s.nodes[k].label == l ==> exists|i: int| 0 <= i < ns.len() && #[trigger] ns[i].id.0 == k
}

/// `es` lists every edge of relation `r`, each once, as the store holds it.
pub open spec fn lists_relation(s: StoreView, es: Seq<EdgeView>, r: RelationId) -> bool {
    &&& forall|i: int| 0 <= i < es.len() ==> s.edges.contains_key(#[trigger] es[i].id.0) && es[i] == s.edges[es[i].id.0] && es[i].label == r
    &&& forall|i: int, j: int| 0 <= i < es.len() && 0 <= j < es.len() && i != j ==> es[i].id != es[j].id
    &&& forall|k: u64| s.edges.contains_key(k) && s.edges[k].label == r ==> exists|i: int| 0 <= i < es.len() && #[trigger] es[i].id.0 == k
}

/// The facts beyond the first about each listed subject, subject after subject.
pub open spec fn extra_facts_of(s: StoreView, subjects: Seq<FactSubject>) -> Seq<(FactSubject, ProvenanceView)>
    decreases subjects.len(),
{
    if subjects.len() == 0 {
        Seq::empty()
    } else {
        let k = subjects.last();
        let list = s.facts[k];
        extra_facts_of(s, subjects.drop_last()) + if list.len() > 1 {
            list.skip(1).map_values(|p: ProvenanceView| (k, p))
        } else {
            Seq::empty()
        }
    }
}

/// `entries` holds the facts beyond the first about every subject, grouped by subject in
/// some order of the subjects.
pub open spec fn lists_extra_facts(s: StoreView, entries: Seq<(FactSubject, ProvenanceView)>) -> bool {
    exists|subjects: Seq<FactSubject>|
        subjects.no_duplicates() && subjects.to_set() == s.facts.dom() && entries == #[trigger] extra_facts_of(s, subjects)
}

/// The abstract values of a list of block payloads.
pub open spec fn payloads_view(ps: Seq<BlockPayload>) -> Seq<BlockPayloadView> {
    ps.map_values(|p: BlockPayload| p@)
}

/// How a store is laid out in `nb` node blocks and `eb` edge blocks: one block per label
/// in use, in increasing label order, holding every node of that label; then one block
/// per relation in use, in increasing order, holding every edge of it; then one block of
/// the facts beyond the first about each subject.
pub open spec fn save_layout_with(s: StoreView, ps: Seq<BlockPayloadView>, nb: int, eb: int) -> bool {
    &&& 0 <= nb && 0 <= eb && nb + eb + 1 == ps.len()
    &&& forall|i: int| 0 <= i < nb ==> (#[trigger] ps[i] matches BlockPayloadView::Nodes { label, nodes }
        && lists_label(s, nodes, label) && used_labels(s).contains(label.0))
    &&& forall|i: int, j: int| 0 <= i < j < nb ==> (#[trigger] ps[i])->label.0 < (#[trigger] ps[j])->label.0
    &&& forall|l: u32| #[trigger] used_labels(s).contains(l) ==> exists|i: int| 0 <= i < nb && (#[trigger] ps[i])->label.0 == l
    &&& forall|i: int| nb <= i < nb + eb ==> (#[trigger] ps[i] matches BlockPayloadView::Edges { relation, edges }
        && lists_relation(s, edges, relation) && used_relations(s).contains(relation.0))
    &&& forall|i: int, j: int| nb <= i < j < nb + eb ==> (#[trigger] ps[i])->relation.0 < (#[trigger] ps[j])->relation.0
    &&& forall|l: u32| #[trigger] used_relations(s).contains(l) ==> exists|i: int| nb <= i < nb + eb && (#[trigger] ps[i])->relation.0 == l
    &&& ps[nb + eb] matches BlockPayloadView::Facts { entries } && lists_extra_facts(s, entries)
}

/// How a store is laid out in blocks, for some number of node and edge blocks.
pub open spec fn save_layout(s: StoreView, ps: Seq<BlockPayloadView>) -> bool {
    exists|nb: int, eb: int| #[trigger] save_layout_with(s, ps, nb, eb)
}

/// Values in strictly increasing order.
pub open spec fn increasing_u32(v: Seq<u32>) -> bool {
    forall|i: int, j: int| 0 <= i < j < v.len() ==> v[i] < v[j]
}

/// Puts `x` into a list kept in strictly increasing order, unless it is there already.
fn insert_sorted_u32(v: &mut Vec<u32>, x: u32)
    requires
        increasing_u32(old(v)@),
    ensures
        increasing_u32(final(v)@),
        final(v)@.to_set() == old(v)@.to_set().insert(x),
{
    let ghost before = v@;
    let mut pos: usize = 0;
    while pos < v.len() && v[pos] < x
        invariant
            v@ == before,
            pos <= v@.len(),
            increasing_u32(v@),
            forall|i: int| 0 <= i < pos ==> v@[i] < x,
        decreases v@.len() - pos,
    {
        pos = pos + 1;
    }
    if pos < v.len() && v[pos] == x {
        proof {
            assert(before.to_set().insert(x) =~= before.to_set()) by {
                assert(before[pos as int] == x);
            }
        }
        return;
    }
    v.insert(pos, x);
    proof {
        assert(v@ == before.insert(pos as int, x));
        assert forall|k: u32| #[trigger] v@.to_set().contains(k) == before.to_set().insert(x).contains(k) by {
            if v@.to_set().contains(k) {
                let j = choose|j: int| 0 <= j < v@.len() && v@[j] == k;
                if j < pos {
                    assert(before[j] == k);
                } else if j > pos {
                    assert(before[j - 1] == k);
                }
            }
            if before.to_set().contains(k) {
                let j = choose|j: int| 0 <= j < before.len() && before[j] == k;
                if j < pos {
                    assert(v@[j] == k);
                } else {
                    assert(v@[j + 1] == k);
                }
            }
            if k == x {
                assert(v@[pos as int] == k);
            }
        }
        assert(v@.to_set() =~= before.to_set().insert(x));
    }
}

impl Store {
    /// The labels with a non-empty index entry, in increasing order.
    fn used_label_ids(&self) -> (r: Vec<u32>)
        requires
            self.wf(),
        ensures
            increasing_u32(r@),
            r@.to_set() == used_labels(self@),
    {
        proof {
            self.lemma_view_fields();
        }
        let ghost s = self@;
        let keys = label_index_keys(&self.node_label_index);
        let mut out: Vec<u32> = Vec::new();
        let mut j: usize = 0;
        proof {
            assert(out@.to_set() =~= Set::empty());
        }
        while j < keys.len()
            invariant
                j <= keys@.len(),
                s == self@,
                crate::store::store_view_wf(s),
                crate::graph_maps::label_index_entries(self.node_label_index) == s.node_label_index,
                forall|m: int| 0 <= m < keys@.len() ==> s.node_label_index.contains_key(#[trigger] keys@[m].0),
                forall|k: u32| s.node_label_index.contains_key(k) ==> exists|m: int| 0 <= m < keys@.len() && #[trigger] keys@[m].0 == k,
                increasing_u32(out@),
                out@.to_set() == Set::new(|l: u32| exists|m: int| 0 <= m < j && #[trigger] keys@[m].0 == l && s.node_label_index[l].len() > 0),
            decreases keys@.len() - j,
        {
            let ghost prev = out@.to_set();
            match label_index_get(&self.node_label_index, &keys[j]) {
                Some(ids) => {
                    if ids.len() > 0 {
                        insert_sorted_u32(&mut out, keys[j].0);
                    }
                },
                None => {},
            }
            proof {
                assert(out@.to_set() =~= Set::new(|l: u32| exists|m: int| 0 <= m < j + 1 && #[trigger] keys@[m].0 == l && s.node_label_index[l].len() > 0)) by {
                    assert forall|l: u32| out@.to_set().contains(l) == (exists|m: int| 0 <= m < j + 1 && #[trigger] keys@[m].0 == l && s.node_label_index[l].len() > 0) by {
                        if l == keys@[j as int].0 && s.node_label_index[l].len() > 0 {
                            assert(keys@[j as int].0 == l);
                        }
                        if exists|m: int| 0 <= m < j + 1 && #[trigger] keys@[m].0 == l && s.node_label_index[l].len() > 0 {
                            let m = choose|m: int| 0 <= m < j + 1 && #[trigger] keys@[m].0 == l && s.node_label_index[l].len() > 0;
                            if m < j {
                                assert(prev.contains(l));
                            }
                        }
                    }
                }
            }
            j = j + 1;
        }
        proof {
            assert forall|l: u32| #[trigger] out@.to_set().contains(l) == used_labels(s).contains(l) by {
                if out@.to_set().contains(l) {
                    let m = choose|m: int| 0 <= m < j && #[trigger] keys@[m].0 == l && s.node_label_index[l].len() > 0;
                    let k = s.node_label_index[l][0].0;
                    assert(s.nodes.contains_key(k) && s.nodes[k].label.0 == l);
                }
                if used_labels(s).contains(l) {
                    let k = choose|k: u64| #[trigger] s.nodes.contains_key(k) && s.nodes[k].label.0 == l;
                    assert(s.node_label_index.contains_key(l));
                    assert(s.node_label_index[l].contains(NodeId(k)));
                    let m = choose|m: int| 0 <= m < keys@.len() && #[trigger] keys@[m].0 == l;
                }
            }
            assert(out@.to_set() =~= used_labels(s));
        }
        out
    }
    /// The relations with a non-empty index entry, in increasing order.
    fn used_relation_ids(&self) -> (r: Vec<u32>)
        requires
            self.wf(),
        ensures
            increasing_u32(r@),
            r@.to_set() == used_relations(self@),
    {
        proof {
            self.lemma_view_fields();
        }
        let ghost s = self@;
        let keys = relation_index_keys(&self.edge_label_index);
        let mut out: Vec<u32> = Vec::new();
        let mut j: usize = 0;
        proof {
            assert(out@.to_set() =~= Set::empty());
        }
        while j < keys.len()
            invariant
                j <= keys@.len(),
                s == self@,
                crate::store::store_view_wf(s),
                crate::graph_maps::relation_index_entries(self.edge_label_index) == s.edge_label_index,
                forall|m: int| 0 <= m < keys@.len() ==> s.edge_label_index.contains_key(#[trigger] keys@[m].0),
                forall|k: u32| s.edge_label_index.contains_key(k) ==> exists|m: int| 0 <= m < keys@.len() && #[trigger] keys@[m].0 == k,
                increasing_u32(out@),
                out@.to_set() == Set::new(|l: u32| exists|m: int| 0 <= m < j && #[trigger] keys@[m].0 == l && s.edge_label_index[l].len() > 0),
            decreases keys@.len() - j,
        {
            let ghost prev = out@.to_set();
            match relation_index_get(&self.edge_label_index, &keys[j]) {
                Some(ids) => {
                    if ids.len() > 0 {
                        insert_sorted_u32(&mut out, keys[j].0);
                    }
                },
                None => {},
            }
            proof {
                assert(out@.to_set() =~= Set::new(|l: u32| exists|m: int| 0 <= m < j + 1 && #[trigger] keys@[m].0 == l && s.edge_label_index[l].len() > 0)) by {
                    assert forall|l: u32| out@.to_set().contains(l) == (exists|m: int| 0 <= m < j + 1 && #[trigger] keys@[m].0 == l && s.edge_label_index[l].len() > 0) by {
                        if l == keys@[j as int].0 && s.edge_label_index[l].len() > 0 {
                            assert(keys@[j as int].0 == l);
                        }
                        if exists|m: int| 0 <= m < j + 1 && #[trigger] keys@[m].0 == l && s.edge_label_index[l].len() > 0 {
                            let m = choose|m: int| 0 <= m < j + 1 && #[trigger] keys@[m].0 == l && s.edge_label_index[l].len() > 0;
                            if m < j {
                                assert(prev.contains(l));
                            }
                        }
                    }
                }
            }
            j = j + 1;
        }
        proof {
            assert forall|l: u32| #[trigger] out@.to_set().contains(l) == used_relations(s).contains(l) by {
                if out@.to_set().contains(l) {
                    let m = choose|m: int| 0 <= m < j && #[trigger] keys@[m].0 == l && s.edge_label_index[l].len() > 0;
                    let k = s.edge_label_index[l][0].0;
                    assert(s.edges.contains_key(k) && s.edges[k].label.0 == l);
                }
                if used_relations(s).contains(l) {
                    let k = choose|k: u64| #[trigger] s.edges.contains_key(k) && s.edges[k].label.0 == l;
                    assert(s.edge_label_index.contains_key(l));
                    assert(s.edge_label_index[l].contains(EdgeId(k)));
                    let m = choose|m: int| 0 <= m < keys@.len() && #[trigger] keys@[m].0 == l;
                }
            }
            assert(out@.to_set() =~= used_relations(s));
        }
        out
    }

    /// Every node of label `l`, cloned, in index order.
    fn label_block(&self, l: LabelId) -> (r: Vec<Node>)
        requires
            self.wf(),
            used_labels(self@).contains(l.0),
        ensures
            lists_label(self@, crate::block::nodes_view(r@), l),
    {
        proof {
            self.lemma_view_fields();
        }
        let ghost s = self@;
        let ids = match label_index_get(&self.node_label_index, &l) {
            Some(ids) => ids,
            None => {
                proof {
                    let k = choose|k: u64| #[trigger] s.nodes.contains_key(k) && s.nodes[k].label.0 == l.0;
                    assert(s.node_label_index.contains_key(s.nodes[k].label.0));
                }
                return Vec::new();
            },
        };
        let mut out: Vec<Node> = Vec::new();
        let mut j: usize = 0;
        while j < ids.len()
            invariant
                j <= ids@.len(),
                s == self@,
                crate::store::store_view_wf(s),
                crate::graph_maps::node_entries(self.nodes) == s.nodes,
                s.node_label_index.contains_key(l.0),
                ids@ == s.node_label_index[l.0],
                out@.len() == j,
                forall|m: int| 0 <= m < j ==> #[trigger] out@[m]@ == s.nodes[ids@[m].0],
            decreases ids@.len() - j,
        {
            match node_get(&self.nodes, &ids[j]) {
                Some(n) => {
                    out.push(n.clone());
                },
                None => {
                    proof {
                        assert(s.nodes.contains_key(ids@[j as int].0));
                    }
                    return Vec::new();
                },
            }
            j = j + 1;
        }
        proof {
            let nv = crate::block::nodes_view(out@);
            assert forall|i: int| 0 <= i < nv.len() implies s.nodes.contains_key(#[trigger] nv[i].id.0) && nv[i] == s.nodes[nv[i].id.0] && nv[i].label == l by {
                assert(nv[i] == s.nodes[ids@[i].0]);
                assert(s.nodes.contains_key(ids@[i].0));
            }
            assert forall|a: int, b: int| 0 <= a < nv.len() && 0 <= b < nv.len() && a != b implies nv[a].id != nv[b].id by {
                assert(nv[a] == s.nodes[ids@[a].0]);
                assert(nv[b] == s.nodes[ids@[b].0]);
                assert(ids@[a] != ids@[b]);
            }
            assert forall|k: u64| s.nodes.contains_key(k) && s.nodes[k].label == l implies exists|i: int| 0 <= i < nv.len() && #[trigger] nv[i].id.0 == k by {
                assert(s.node_label_index[l.0].contains(NodeId(k)));
                let i = choose|i: int| 0 <= i < ids@.len() && ids@[i] == NodeId(k);
                assert(nv[i] == s.nodes[k]);
            }
        }
        out
    }

    /// Every edge of relation `r`, cloned, in index order.
    fn relation_block(&self, r: RelationId) -> (out_r: Vec<Edge>)
        requires
            self.wf(),
            used_relations(self@).contains(r.0),
        ensures
            lists_relation(self@, crate::block::edges_view(out_r@), r),
    {
        proof {
            self.lemma_view_fields();
        }
        let ghost s = self@;
        let ids = match relation_index_get(&self.edge_label_index, &r) {
            Some(ids) => ids,
            None => {
                proof {
                    let k = choose|k: u64| #[trigger] s.edges.contains_key(k) && s.edges[k].label.0 == r.0;
                    assert(s.edge_label_index.contains_key(s.edges[k].label.0));
                }
                return Vec::new();
            },
        };
        let mut out: Vec<Edge> = Vec::new();
        let mut j: usize = 0;
        while j < ids.len()
            invariant
                j <= ids@.len(),
                s == self@,
                crate::store::store_view_wf(s),
                crate::graph_maps::edge_entries(self.edges) == s.edges,
                s.edge_label_index.contains_key(r.0),
                ids@ == s.edge_label_index[r.0],
                out@.len() == j,
                forall|m: int| 0 <= m < j ==> #[trigger] out@[m]@ == s.edges[ids@[m].0],
            decreases ids@.len() - j,
        {
            match edge_get(&self.edges, &ids[j]) {
                Some(e) => {
                    out.push(e.clone());
                },
                None => {
                    proof {
                        assert(s.edges.contains_key(ids@[j as int].0));
                    }
                    return Vec::new();
                },
            }
            j = j + 1;
        }
        proof {
            let ev = crate::block::edges_view(out@);
            assert forall|i: int| 0 <= i < ev.len() implies s.edges.contains_key(#[trigger] ev[i].id.0) && ev[i] == s.edges[ev[i].id.0] && ev[i].label == r by {
                assert(ev[i] == s.edges[ids@[i].0]);
                assert(s.edges.contains_key(ids@[i].0));
            }
            assert forall|a: int, b: int| 0 <= a < ev.len() && 0 <= b < ev.len() && a != b implies ev[a].id != ev[b].id by {
                assert(ev[a] == s.edges[ids@[a].0]);
                assert(ev[b] == s.edges[ids@[b].0]);
                assert(ids@[a] != ids@[b]);
            }
            assert forall|k: u64| s.edges.contains_key(k) && s.edges[k].label == r implies exists|i: int| 0 <= i < ev.len() && #[trigger] ev[i].id.0 == k by {
                assert(s.edge_label_index[r.0].contains(EdgeId(k)));
                let i = choose|i: int| 0 <= i < ids@.len() && ids@[i] == EdgeId(k);
                assert(ev[i] == s.edges[k]);
            }
        }
        out
    }

    /// The facts beyond the first about every subject, grouped by subject.
    fn extra_fact_entries(&self) -> (r: Vec<(FactSubject, Provenance)>)
        requires
            self.wf(),
        ensures
            lists_extra_facts(self@, crate::block::fact_entries_view(r@)),
    {
        proof {
            self.lemma_view_fields();
        }
        let ghost s = self@;
        let keys = fact_keys(&self.facts);
        let mut out: Vec<(FactSubject, Provenance)> = Vec::new();
        let mut j: usize = 0;
        proof {
            assert(crate::block::fact_entries_view(out@) =~= extra_facts_of(s, keys@.take(0)));
        }
        while j < keys.len()
            invariant
                j <= keys@.len(),
                s == self@,
                crate::graph_maps::fact_entries(self.facts) == s.facts,
                forall|m: int| 0 <= m < keys@.len() ==> s.facts.contains_key(#[trigger] keys@[m]),
                crate::block::fact_entries_view(out@) == extra_facts_of(s, keys@.take(j as int)),
            decreases keys@.len() - j,
        {
            let subject = keys[j];
            let ghost before = out@;
            proof {
                assert(keys@.take(j + 1).drop_last() =~= keys@.take(j as int));
                assert(keys@.take(j + 1).last() == subject);
            }
            match fact_get(&self.facts, &subject) {
                Some(list) => {
                    let ghost pv = provenances_view(list@);
                    if list.len() > 1 {
                        let mut k: usize = 1;
                        proof {
                            assert(crate::block::fact_entries_view(out@) =~= extra_facts_of(s, keys@.take(j as int)) + pv.skip(1).take(0).map_values(|p: ProvenanceView| (subject, p)));
                        }
                        while k < list.len()
                            invariant
                                1 <= k <= list@.len(),
                                pv == provenances_view(list@),
                                crate::block::fact_entries_view(out@) == extra_facts_of(s, keys@.take(j as int)) + pv.skip(1).take(k - 1).map_values(|p: ProvenanceView| (subject, p)),
                            decreases list@.len() - k,
                        {
                            let ghost old_out = out@;
                            let p = list[k].clone();
                            proof {
                                assert(p@ == pv[k as int]);
                            }
                            out.push((subject, p));
                            proof {
                                assert(crate::block::fact_entries_view(out@) =~= crate::block::fact_entries_view(old_out).push((subject, pv[k as int])));
                                assert(pv.skip(1).take(k as int) =~= pv.skip(1).take(k - 1).push(pv[k as int]));
                                assert(crate::block::fact_entries_view(out@) =~= extra_facts_of(s, keys@.take(j as int)) + pv.skip(1).take(k as int).map_values(|p: ProvenanceView| (subject, p)));
                            }
                            k = k + 1;
                        }
                        proof {
                            assert(pv.skip(1).take(k - 1) =~= pv.skip(1));
                        }
                    } else {
                        proof {
                            assert(crate::block::fact_entries_view(out@) =~= extra_facts_of(s, keys@.take(j as int)) + Seq::<(FactSubject, ProvenanceView)>::empty());
                        }
                    }
                },
                None => {
                    proof {
                        assert(false);
                    }
                },
            }
            j = j + 1;
        }
        proof {
            assert(keys@.take(j as int) =~= keys@);
            assert(keys@.no_duplicates());
            assert forall|x: FactSubject| #[trigger] keys@.to_set().contains(x) == s.facts.dom().contains(x) by {
                if s.facts.contains_key(x) {
                    let m = choose|m: int| 0 <= m < keys@.len() && #[trigger] keys@[m] == x;
                    assert(keys@.contains(x));
                }
            }
            assert(keys@.to_set() =~= s.facts.dom());
        }
        out
    }

    /// Lays out a valid store as the payloads of its blocks, in file order: one block per
    /// label in use, one per relation in use, then the extra facts. An invalid store is
    /// refused with a validation error.
    pub fn save_plan(&self) -> (r: Result<Vec<BlockPayload>, StoreError>)
        requires
            self.wf(),
        ensures
            match r {
                Ok(ps) => store_valid(self@) && save_layout(self@, payloads_view(ps@)),
                Err(e) => !store_valid(self@) && store_fault(self@, e),
            },
    {
        match validate_store(self) {
            Err(e) => {
                return Err(e);
            },
            Ok(()) => {},
        }
        let ghost s = self@;
        let labels = self.used_label_ids();
        let relations = self.used_relation_ids();
        let mut out: Vec<BlockPayload> = Vec::new();
        let mut i: usize = 0;
        while i < labels.len()
            invariant
                i <= labels@.len(),
                s == self@,
                self.wf(),
                increasing_u32(labels@),
                labels@.to_set() == used_labels(s),
                out@.len() == i,
                forall|m: int| 0 <= m < i ==> (#[trigger] payloads_view(out@)[m] matches BlockPayloadView::Nodes { label, nodes }
                    && label.0 == labels@[m] && lists_label(s, nodes, label) && used_labels(s).contains(label.0)),
            decreases labels@.len() - i,
        {
            let l = LabelId(labels[i]);
            proof {
                assert(labels@.to_set().contains(labels@[i as int]));
            }
            let nodes = self.label_block(l);
            let ghost before = out@;
            out.push(BlockPayload::Nodes { label: l, nodes });
            proof {
                assert forall|m: int| 0 <= m < i implies #[trigger] payloads_view(out@)[m] == payloads_view(before)[m] by {
                    assert(out@[m] == before[m]);
                }
                assert(payloads_view(out@)[i as int] == out@[i as int]@);
            }
            i = i + 1;
        }
        let nb = out.len();
        let mut i: usize = 0;
        while i < relations.len()
            invariant
                i <= relations@.len(),
                s == self@,
                self.wf(),
                nb == labels@.len(),
                increasing_u32(relations@),
                relations@.to_set() == used_relations(s),
                out@.len() == nb + i,
                forall|m: int| 0 <= m < nb ==> (#[trigger] payloads_view(out@)[m] matches BlockPayloadView::Nodes { label, nodes }
                    && label.0 == labels@[m] && lists_label(s, nodes, label) && used_labels(s).contains(label.0)),
                forall|m: int| nb <= m < nb + i ==> (#[trigger] payloads_view(out@)[m] matches BlockPayloadView::Edges { relation, edges }
                    && relation.0 == relations@[m - nb] && lists_relation(s, edges, relation) && used_relations(s).contains(relation.0)),
            decreases relations@.len() - i,
        {
            let r = RelationId(relations[i]);
            proof {
                assert(relations@.to_set().contains(relations@[i as int]));
            }
            let edges = self.relation_block(r);
            let ghost before = out@;
            out.push(BlockPayload::Edges { relation: r, edges });
            proof {
                assert forall|m: int| 0 <= m < nb + i implies #[trigger] payloads_view(out@)[m] == payloads_view(before)[m] by {
                    assert(out@[m] == before[m]);
                }
                assert(payloads_view(out@)[nb + i] == out@[nb + i]@);
            }
            i = i + 1;
        }
        let entries = self.extra_fact_entries();
        let ghost before = out@;
        out.push(BlockPayload::Facts { entries });
        proof {
            let ps = payloads_view(out@);
            let eb = relations@.len() as int;
            let nbi = nb as int;
            assert forall|m: int| 0 <= m < nbi + eb implies #[trigger] ps[m] == payloads_view(before)[m] by {
                assert(out@[m] == before[m]);
            }
            assert(ps[nbi + eb] == out@[nbi + eb]@);
            assert forall|l: u32| #[trigger] used_labels(s).contains(l) implies exists|m: int| 0 <= m < nbi && (#[trigger] ps[m])->label.0 == l by {
                assert(labels@.to_set().contains(l));
                let m = choose|m: int| 0 <= m < labels@.len() && labels@[m] == l;
                assert(ps[m]->label.0 == l);
            }
            assert forall|l: u32| #[trigger] used_relations(s).contains(l) implies exists|m: int| nbi <= m < nbi + eb && (#[trigger] ps[m])->relation.0 == l by {
                assert(relations@.to_set().contains(l));
                let m = choose|m: int| 0 <= m < relations@.len() && relations@[m] == l;
                assert(ps[nbi + m]->relation.0 == l);
            }
            assert forall|a: int, b: int| 0 <= a < b < nbi implies (#[trigger] ps[a])->label.0 < (#[trigger] ps[b])->label.0 by {
                assert(labels@[a] < labels@[b]);
            }
            assert forall|a: int, b: int| nbi <= a < b < nbi + eb implies (#[trigger] ps[a])->relation.0 < (#[trigger] ps[b])->relation.0 by {
                assert(relations@[a - nbi] < relations@[b - nbi]);
            }
            assert(ps[nbi] == ps[nbi]);
            assert(ps[nbi + eb] matches BlockPayloadView::Facts { entries } && lists_extra_facts(s, entries));
            assert forall|m: int| 0 <= m < nbi implies (#[trigger] ps[m] matches BlockPayloadView::Nodes { label, nodes }
                && lists_label(s, nodes, label) && used_labels(s).contains(label.0)) by {
                assert(ps[m] == payloads_view(before)[m]);
            }
            assert forall|m: int| nbi <= m < nbi + eb implies (#[trigger] ps[m] matches BlockPayloadView::Edges { relation, edges }
                && lists_relation(s, edges, relation) && used_relations(s).contains(relation.0)) by {
                assert(ps[m] == payloads_view(before)[m]);
            }
            assert(save_layout_with(s, ps, nbi, eb));
        }
        Ok(out)
    }
}

impl Store {
    /// Rebuilds a store from the decoded blocks of a file and its string table: checks
    /// the blocks, puts back every node and then every edge (refusing an edge with a
    /// missing end), records each record's own provenance as its first fact, appends the
    /// extra facts (refusing one about a missing subject), and validates the result.
    pub fn restore(string_table: StringTable, decoded: Vec<(BlockKind, BlockPayload)>) -> (r: Result<Store, StoreError>)
        requires
            string_table.wf(),
            forall|i: int| 0 <= i < flat_nodes(decoded_view(decoded@)).len() ==> #[trigger] flat_nodes(decoded_view(decoded@))[i].id.0 < u64::MAX,
            forall|i: int| 0 <= i < flat_edges(decoded_view(decoded@)).len() ==> #[trigger] flat_edges(decoded_view(decoded@))[i].id.0 < u64::MAX,
        ensures
            restore_outcome(string_table@, decoded_view(decoded@), match r {
                Ok(s) => Ok(s@),
                Err(e) => Err(e),
            }),
            r matches Ok(s) ==> s.wf(),
    {
        let ghost strings = string_table@;
        let ghost bv = decoded_view(decoded@);
        let ghost base = StoreView { strings, ..Store::new_view() };
        match validate_decoded_blocks(&decoded, &string_table) {
            Err(e) => {
                return Err(e);
            },
            Ok(()) => {},
        }
        let table_len = string_table.len();
        let mut store = Store::with_string_table(string_table);
        proof {
            assert(store@.nodes.dom() =~= Set::empty());
            assert(flat_nodes(bv.take(0)) =~= Seq::empty());
        }
        // First pass: nodes.
        let ghost mut edges_seen: Set<u64> = Set::empty();
        let mut i: usize = 0;
        while i < decoded.len()
            invariant
                i <= decoded@.len(),
                bv == decoded_view(decoded@),
                table_len == strings.len(),
                base == (StoreView { strings, ..Store::new_view() }),
                store.wf(),
                store@ == node_pass(base, flat_nodes(bv.take(i as int))),
                blocks_fault(strings.len(), bv, i as int, store@.nodes.dom(), edges_seen) is None,
                forall|k: int| 0 <= k < flat_nodes(bv).len() ==> #[trigger] flat_nodes(bv)[k].id.0 < u64::MAX,
            decreases decoded@.len() - i,
        {
            let block = &decoded[i];
            let ghost prefix = flat_nodes(bv.take(i as int));
            proof {
                assert(bv[i as int] == (block.0, block.1@));
                lemma_flat_by_push(bv, |p: BlockPayloadView| block_nodes(p), i as int);
                lemma_node_pass_add(base, prefix, block_nodes(block.1@));
            }
            match &block.1 {
                BlockPayload::Nodes { label, nodes } => {
                    proof {
                        lemma_flat_by_prefix(bv, |p: BlockPayloadView| block_nodes(p), i as int, 0);
                        let x = block_nodes(block.1@);
                        let rest = flat_nodes(bv.skip(i + 1));
                        assert(x.take(0) =~= Seq::<NodeView>::empty());
                        assert(x.skip(0) =~= x);
                        assert(flat_nodes(bv) =~= prefix + (x + rest));
                        assert forall|k: int| 0 <= k < nodes@.len() implies #[trigger] nodes@[k].id.0 < u64::MAX by {
                            assert(flat_nodes(bv)[prefix.len() + k] == x[k]);
                            assert(x[k] == nodes@[k]@);
                            assert(flat_nodes(bv)[prefix.len() + k].id.0 < u64::MAX);
                        }
                    }
                    restore_block_nodes(&mut store, *label, nodes, Ghost(strings.len()));
                },
                BlockPayload::Edges { relation, edges } => {
                    proof {
                        edges_seen = edge_run(strings.len(), *relation, block_edges(block.1@), 0, edges_seen)->Ok_0;
                        assert(block_nodes(block.1@) =~= Seq::empty());
                    }
                },
                BlockPayload::Facts { .. } => {
                    proof {
                        assert(block_nodes(block.1@) =~= Seq::empty());
                    }
                },
            }
            i = i + 1;
        }
        proof {
            assert(bv.take(i as int) =~= bv);
        }
        // Second pass: edges.
        let ghost s1 = store@;
        proof {
            lemma_node_pass_frame(base, flat_nodes(bv));
            assert(store@.edges.dom() =~= Set::<u64>::empty());
        }
        match restore_edges_pass(&mut store, &decoded, Ghost(strings.len())) {
            Err(e) => {
                return Err(e);
            },
            Ok(()) => {},
        }
        // Third pass: each record's own provenance.
        let ghost s2 = store@;
        proof {
            lemma_edge_pass_frame(s1, flat_edges(bv));
        }
        restore_canonical_facts(&mut store);
        // Fourth pass: the extra facts.
        let ghost s3 = store@;
        proof {
            assert forall|k: int| 0 <= k < flat_facts(bv).len() implies subject_missing(s3, #[trigger] flat_facts(bv)[k].0) == subject_missing(s2, flat_facts(bv)[k].0) by {}
        }
        match restore_extra_facts(&mut store, &decoded) {
            Err(e) => {
                return Err(e);
            },
            Ok(()) => {},
        }
        proof {
            assert(store@ =~= rebuilt_view(strings, bv));
        }
        match validate_store(&store) {
            Err(e) => Err(e),
            Ok(()) => Ok(store),
        }
    }
}

} // verus!
