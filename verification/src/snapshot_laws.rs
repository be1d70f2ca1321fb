//! What a saved store gives back when it is loaded again.

use crate::block::{payload_kind, BlockKind, BlockPayloadView};
use crate::edge::EdgeView;
use crate::fact::FactSubject;
use crate::id::{EdgeId, LabelId, NodeId, RelationId};
use crate::provenance::ProvenanceView;
use crate::storage::{store_valid, blocks_fault, edge_run, first_unknown_key, node_run, StoreError};
use crate::node::NodeView;
use crate::snapshot::{
    block_edges, block_facts, block_nodes, canonical_facts, edge_pass, fact_pass, first_dangling_edge, rebuilt_view,
    restore_outcome, flat_by, flat_edges, flat_facts, flat_nodes,
    extra_facts_of, lemma_flat_by_add, lemma_flat_by_push, lists_extra_facts, node_pass, save_layout, save_layout_with, lists_label,
    lists_relation, used_labels, used_relations,
};
use crate::store::{list_or_empty, push_under, restore_edge_step, restore_node_step, store_view_wf, Store, StoreView};
use vstd::prelude::*;

verus! {

/// Payloads paired with the kinds of their blocks, as a file holds them.
pub open spec fn with_kinds(ps: Seq<BlockPayloadView>) -> Seq<(BlockKind, BlockPayloadView)> {
    Seq::new(ps.len(), |i: int| (payload_kind(ps[i]), ps[i]))
}

/// Each id counter is one past the largest id in use, or zero when there is none: the
/// last id handed out is still taken.
pub open spec fn counters_tight(s: StoreView) -> bool {
    &&& s.next_node_id == 0 || s.nodes.contains_key((s.next_node_id - 1) as u64)
    &&& s.next_edge_id == 0 || s.edges.contains_key((s.next_edge_id - 1) as u64)
}

/// No block's records are taken by `f`.
proof fn lemma_flat_by_none<T>(bv: Seq<(BlockKind, BlockPayloadView)>, f: spec_fn(BlockPayloadView) -> Seq<T>)
    requires
        forall|i: int| 0 <= i < bv.len() ==> (#[trigger] f(bv[i].1)).len() == 0,
    ensures
        flat_by(bv, f).len() == 0,
    decreases bv.len(),
{
    if bv.len() > 0 {
        assert(f(bv[bv.len() - 1].1).len() == 0);
        lemma_flat_by_none(bv.drop_last(), f);
    }
}

/// Everything `f` takes from the blocks comes from the first `j` when the others give
/// it nothing.
proof fn lemma_flat_by_front<T>(bv: Seq<(BlockKind, BlockPayloadView)>, f: spec_fn(BlockPayloadView) -> Seq<T>, j: int)
    requires
        0 <= j <= bv.len(),
        forall|i: int| j <= i < bv.len() ==> (#[trigger] f(bv[i].1)).len() == 0,
    ensures
        flat_by(bv, f) == flat_by(bv.take(j), f),
{
    lemma_flat_by_add(bv.take(j), bv.skip(j), f);
    assert(bv.take(j) + bv.skip(j) =~= bv);
    assert forall|i: int| 0 <= i < bv.skip(j).len() implies (#[trigger] f(bv.skip(j)[i].1)).len() == 0 by {
        assert(bv.skip(j)[i] == bv[i + j]);
        assert(f(bv[i + j].1).len() == 0);
    }
    lemma_flat_by_none(bv.skip(j), f);
    assert(flat_by(bv.take(j), f) + flat_by(bv.skip(j), f) =~= flat_by(bv.take(j), f));
}

/// The nodes of the first `j` node blocks of a saved layout: each is the store's node
/// under its id, no id comes twice, and every node whose label is at most the `j`-th
/// block's label is among them.
#[verifier::spinoff_prover]
proof fn lemma_node_blocks(s: StoreView, ps: Seq<BlockPayloadView>, nb: int, eb: int, j: int)
    requires
        save_layout_with(s, ps, nb, eb),
        0 <= j <= nb,
    ensures
        ({
            let flat = flat_nodes(with_kinds(ps).take(j));
            &&& forall|i: int| 0 <= i < flat.len() ==> s.nodes.contains_key(#[trigger] flat[i].id.0) && flat[i]
                == s.nodes[flat[i].id.0] && j > 0 && flat[i].label.0 <= ps[j - 1]->label.0
            &&& forall|a: int, b: int| 0 <= a < b < flat.len() ==> (#[trigger] flat[a]).id != (#[trigger] flat[b]).id
            &&& forall|k: u64| #[trigger] s.nodes.contains_key(k) && j > 0 && s.nodes[k].label.0 <= ps[j - 1]->label.0
                ==> exists|i: int| 0 <= i < flat.len() && (#[trigger] flat[i]).id.0 == k
        }),
    decreases j,
{
    let bv = with_kinds(ps);
    let f = |p: BlockPayloadView| block_nodes(p);
    if j == 0 {
        assert(bv.take(0) =~= Seq::<(BlockKind, BlockPayloadView)>::empty());
    } else {
        lemma_node_blocks(s, ps, nb, eb, j - 1);
        let prev = flat_nodes(bv.take(j - 1));
        lemma_flat_by_push(bv, f, j - 1);
        assert(bv[j - 1].1 == ps[j - 1]);
        let block = ps[j - 1];
        assert(block matches BlockPayloadView::Nodes { label, nodes } && lists_label(s, nodes, label) && used_labels(
            s,
        ).contains(label.0));
        let l = block->label;
        let ns = block->nodes;
        assert(block_nodes(block) == ns);
        let flat = flat_nodes(bv.take(j));
        assert(flat == prev + ns);
        if j >= 2 {
            assert(ps[j - 2]->label.0 < ps[j - 1]->label.0);
        }
        assert forall|i: int| 0 <= i < flat.len() implies s.nodes.contains_key(#[trigger] flat[i].id.0) && flat[i]
            == s.nodes[flat[i].id.0] && j > 0 && flat[i].label.0 <= ps[j - 1]->label.0 by {
            if i < prev.len() {
                assert(flat[i] == prev[i]);
                assert(s.nodes.contains_key(prev[i].id.0));
                assert(prev[i] == s.nodes[prev[i].id.0]);
                assert(j - 1 > 0);
                assert(prev[i].label.0 <= ps[j - 2]->label.0);
                assert(ps[j - 2]->label.0 < ps[j - 1]->label.0);
            } else {
                assert(flat[i] == ns[i - prev.len()]);
                assert(s.nodes.contains_key(ns[i - prev.len()].id.0));
            }
        }
        assert forall|a: int, b: int| 0 <= a < b < flat.len() implies (#[trigger] flat[a]).id != (#[trigger] flat[b]).id by {
            if b < prev.len() {
                assert(flat[a] == prev[a] && flat[b] == prev[b]);
            } else if a >= prev.len() {
                assert(flat[a] == ns[a - prev.len()] && flat[b] == ns[b - prev.len()]);
            } else {
                assert(flat[a] == prev[a] && flat[b] == ns[b - prev.len()]);
                assert(s.nodes.contains_key(prev[a].id.0));
                assert(prev[a].label.0 <= ps[j - 2]->label.0);
                assert(s.nodes.contains_key(ns[b - prev.len()].id.0));
                assert(ns[b - prev.len()].label == l);
                if prev[a].id == ns[b - prev.len()].id {
                    assert(prev[a] == s.nodes[prev[a].id.0]);
                    assert(ns[b - prev.len()] == s.nodes[prev[a].id.0]);
                }
            }
        }
        assert forall|k: u64| #[trigger] s.nodes.contains_key(k) && j > 0 && s.nodes[k].label.0 <= ps[j - 1]->label.0
            implies exists|i: int| 0 <= i < flat.len() && (#[trigger] flat[i]).id.0 == k by {
            let lk = s.nodes[k].label;
            if lk == l {
                let i = choose|i: int| 0 <= i < ns.len() && #[trigger] ns[i].id.0 == k;
                assert(flat[prev.len() + i] == ns[i]);
            } else {
                assert(used_labels(s).contains(lk.0));
                let b = choose|b: int| 0 <= b < nb && (#[trigger] ps[b])->label.0 == lk.0;
                if b >= j - 1 {
                    if b > j - 1 {
                        assert(ps[j - 1]->label.0 < ps[b]->label.0);
                    }
                    assert(false);
                }
                assert(b <= j - 2);
                if b < j - 2 {
                    assert(ps[b]->label.0 < ps[j - 2]->label.0);
                }
                let i = choose|i: int| 0 <= i < prev.len() && (#[trigger] prev[i]).id.0 == k;
                assert(flat[i] == prev[i]);
            }
        }
    }
}

/// Putting back nodes with distinct ids into a store with none: the store then holds
/// exactly those nodes under their ids, the next id is one past the largest, each label
/// lists exactly its nodes, and each external identity of a node leads to a node with it.
#[verifier::spinoff_prover]
proof fn lemma_node_pass_contents(base: StoreView, ns: Seq<NodeView>)
    requires
        base.nodes == Map::<u64, NodeView>::empty(),
        base.node_label_index == Map::<u32, Seq<NodeId>>::empty(),
        base.node_external == Map::<(Seq<char>, Seq<char>), u64>::empty(),
        base.next_node_id == 0,
        forall|a: int, b: int| 0 <= a < b < ns.len() ==> (#[trigger] ns[a]).id != (#[trigger] ns[b]).id,
        forall|i: int| 0 <= i < ns.len() ==> (#[trigger] ns[i]).id.0 < u64::MAX,
    ensures
        ({
            let r = node_pass(base, ns);
            &&& forall|k: u64| #[trigger] r.nodes.contains_key(k) <==> exists|i: int| 0 <= i < ns.len() && (#[trigger] ns[i]).id.0 == k
            &&& forall|i: int| 0 <= i < ns.len() ==> r.nodes[(#[trigger] ns[i]).id.0] == ns[i] && ns[i].id.0 < r.next_node_id
            &&& r.next_node_id == 0 || exists|i: int| 0 <= i < ns.len() && (#[trigger] ns[i]).id.0 + 1 == r.next_node_id
            &&& forall|l: u32, id: NodeId| #[trigger] list_or_empty(r.node_label_index, l).contains(id) <==> exists|i: int|
                0 <= i < ns.len() && (#[trigger] ns[i]).id == id && ns[i].label.0 == l
            &&& forall|key: (Seq<char>, Seq<char>)| #[trigger] r.node_external.contains_key(key) ==> exists|i: int|
                0 <= i < ns.len() && (#[trigger] ns[i]).namespace == key.0 && ns[i].external_id == key.1 && r.node_external[key] == ns[i].id.0
            &&& forall|i: int| 0 <= i < ns.len() ==> r.node_external.contains_key(((#[trigger] ns[i]).namespace, ns[i].external_id))
        }),
    decreases ns.len(),
{
    if ns.len() > 0 {
        let front = ns.drop_last();
        let x = ns.last();
        assert forall|a: int, b: int| 0 <= a < b < front.len() implies (#[trigger] front[a]).id != (#[trigger] front[b]).id by {
            assert(front[a] == ns[a] && front[b] == ns[b]);
        }
        assert forall|i: int| 0 <= i < front.len() implies (#[trigger] front[i]).id.0 < u64::MAX by {
            assert(front[i] == ns[i]);
        }
        lemma_node_pass_contents(base, front);
        let p = node_pass(base, front);
        let r = node_pass(base, ns);
        assert(r == restore_node_step(p, x));
        let n = ns.len() - 1;
        assert(ns[n] == x);
        assert(x.id.0 < u64::MAX);
        assert(!p.nodes.contains_key(x.id.0)) by {
            if p.nodes.contains_key(x.id.0) {
                let i = choose|i: int| 0 <= i < front.len() && (#[trigger] front[i]).id.0 == x.id.0;
                assert(front[i] == ns[i]);
                assert(ns[i].id != ns[n].id);
            }
        }
        assert forall|k: u64| #[trigger] r.nodes.contains_key(k) <==> exists|i: int| 0 <= i < ns.len() && (#[trigger] ns[i]).id.0 == k by {
            if r.nodes.contains_key(k) {
                if k == x.id.0 {
                    assert(ns[n].id.0 == k);
                } else {
                    assert(p.nodes.contains_key(k));
                    let i = choose|i: int| 0 <= i < front.len() && (#[trigger] front[i]).id.0 == k;
                    assert(ns[i] == front[i]);
                }
            }
            if exists|i: int| 0 <= i < ns.len() && (#[trigger] ns[i]).id.0 == k {
                let i = choose|i: int| 0 <= i < ns.len() && (#[trigger] ns[i]).id.0 == k;
                if i < n {
                    assert(front[i] == ns[i]);
                    assert(p.nodes.contains_key(k));
                }
            }
        }
        assert forall|i: int| 0 <= i < ns.len() implies r.nodes[(#[trigger] ns[i]).id.0] == ns[i] && ns[i].id.0 < r.next_node_id by {
            if i < n {
                assert(front[i] == ns[i]);
                assert(p.nodes[front[i].id.0] == front[i]);
                assert(front[i].id.0 < p.next_node_id);
                assert(ns[i].id != ns[n].id);
                assert(r.nodes[ns[i].id.0] == p.nodes[ns[i].id.0]);
            } else {
                assert(i == n);
                assert(r.nodes[x.id.0] == x);
            }
            assert(p.next_node_id <= r.next_node_id);
        }
        if p.next_node_id <= x.id.0 {
            assert(ns[n].id.0 + 1 == r.next_node_id);
        } else if p.next_node_id != 0 {
            let i = choose|i: int| 0 <= i < front.len() && (#[trigger] front[i]).id.0 + 1 == p.next_node_id;
            assert(ns[i] == front[i]);
            assert(ns[i].id.0 + 1 == r.next_node_id);
        }
        assert forall|l: u32, id: NodeId| #[trigger] list_or_empty(r.node_label_index, l).contains(id) <==> exists|i: int|
            0 <= i < ns.len() && (#[trigger] ns[i]).id == id && ns[i].label.0 == l by {
            let old_list = list_or_empty(p.node_label_index, l);
            let new_list = list_or_empty(r.node_label_index, l);
            if l == x.label.0 {
                assert(new_list == old_list.push(x.id));
            } else {
                assert(new_list == old_list);
            }
            if new_list.contains(id) {
                if l == x.label.0 && id == x.id {
                    assert(ns[n].id == id && ns[n].label.0 == l);
                } else {
                    if l == x.label.0 {
                        let j = choose|j: int| 0 <= j < new_list.len() && new_list[j] == id;
                        assert(j < old_list.len());
                        assert(old_list[j] == id);
                    }
                    assert(old_list.contains(id));
                    let i = choose|i: int| 0 <= i < front.len() && (#[trigger] front[i]).id == id && front[i].label.0 == l;
                    assert(ns[i] == front[i]);
                }
            }
            if exists|i: int| 0 <= i < ns.len() && (#[trigger] ns[i]).id == id && ns[i].label.0 == l {
                let i = choose|i: int| 0 <= i < ns.len() && (#[trigger] ns[i]).id == id && ns[i].label.0 == l;
                if i == n {
                    assert(new_list[old_list.len() as int] == id);
                } else {
                    assert(front[i] == ns[i]);
                    assert(old_list.contains(id));
                    let j = choose|j: int| 0 <= j < old_list.len() && old_list[j] == id;
                    if l == x.label.0 {
                        assert(new_list[j] == id);
                    }
                }
            }
        }
        let xkey = (x.namespace, x.external_id);
        assert forall|key: (Seq<char>, Seq<char>)| #[trigger] r.node_external.contains_key(key) implies exists|i: int|
            0 <= i < ns.len() && (#[trigger] ns[i]).namespace == key.0 && ns[i].external_id == key.1 && r.node_external[key] == ns[i].id.0 by {
            if key == xkey {
                assert(ns[n].namespace == key.0 && ns[n].external_id == key.1);
            } else {
                assert(p.node_external.contains_key(key));
                let i = choose|i: int| 0 <= i < front.len() && (#[trigger] front[i]).namespace == key.0 && front[i].external_id == key.1
                    && p.node_external[key] == front[i].id.0;
                assert(ns[i] == front[i]);
            }
        }
        assert forall|i: int| 0 <= i < ns.len() implies r.node_external.contains_key(((#[trigger] ns[i]).namespace, ns[i].external_id)) by {
            if i < n {
                assert(front[i] == ns[i]);
                assert(p.node_external.contains_key((front[i].namespace, front[i].external_id)));
            }
        }
    }
}

/// The edges of the first `j` edge blocks of a saved layout: each is the store's edge
/// under its id, no id comes twice, and every edge whose relation is at most the `j`-th
/// edge block's relation is among them.
#[verifier::spinoff_prover]
proof fn lemma_edge_blocks(s: StoreView, ps: Seq<BlockPayloadView>, nb: int, eb: int, j: int)
    requires
        save_layout_with(s, ps, nb, eb),
        0 <= j <= eb,
    ensures
        ({
            let flat = flat_edges(with_kinds(ps).take(nb + j));
            &&& forall|i: int| 0 <= i < flat.len() ==> s.edges.contains_key(#[trigger] flat[i].id.0) && flat[i]
                == s.edges[flat[i].id.0] && j > 0 && flat[i].label.0 <= ps[nb + j - 1]->relation.0
            &&& forall|a: int, b: int| 0 <= a < b < flat.len() ==> (#[trigger] flat[a]).id != (#[trigger] flat[b]).id
            &&& forall|k: u64| #[trigger] s.edges.contains_key(k) && j > 0 && s.edges[k].label.0 <= ps[nb + j - 1]->relation.0
                ==> exists|i: int| 0 <= i < flat.len() && (#[trigger] flat[i]).id.0 == k
        }),
    decreases j,
{
    let bv = with_kinds(ps);
    let f = |p: BlockPayloadView| block_edges(p);
    if j == 0 {
        let front = bv.take(nb);
        assert forall|i: int| 0 <= i < front.len() implies (#[trigger] f(front[i].1)).len() == 0 by {
            assert(front[i].1 == ps[i]);
            assert(ps[i] is Nodes);
        }
        lemma_flat_by_none(front, f);
    } else {
        lemma_edge_blocks(s, ps, nb, eb, j - 1);
        let prev = flat_edges(bv.take(nb + j - 1));
        lemma_flat_by_push(bv, f, nb + j - 1);
        assert(bv[nb + j - 1].1 == ps[nb + j - 1]);
        let block = ps[nb + j - 1];
        assert(block matches BlockPayloadView::Edges { relation, edges } && lists_relation(s, edges, relation)
            && used_relations(s).contains(relation.0));
        let l = block->relation;
        let es = block->edges;
        assert(block_edges(block) == es);
        let flat = flat_edges(bv.take(nb + j));
        assert(flat == prev + es);
        if j >= 2 {
            assert(ps[nb + j - 2]->relation.0 < ps[nb + j - 1]->relation.0);
        }
        assert forall|i: int| 0 <= i < flat.len() implies s.edges.contains_key(#[trigger] flat[i].id.0) && flat[i]
            == s.edges[flat[i].id.0] && j > 0 && flat[i].label.0 <= ps[nb + j - 1]->relation.0 by {
            if i < prev.len() {
                assert(flat[i] == prev[i]);
                assert(s.edges.contains_key(prev[i].id.0));
                assert(prev[i] == s.edges[prev[i].id.0]);
                assert(j - 1 > 0);
                assert(prev[i].label.0 <= ps[nb + j - 2]->relation.0);
                assert(ps[nb + j - 2]->relation.0 < ps[nb + j - 1]->relation.0);
            } else {
                assert(flat[i] == es[i - prev.len()]);
                assert(s.edges.contains_key(es[i - prev.len()].id.0));
            }
        }
        assert forall|a: int, b: int| 0 <= a < b < flat.len() implies (#[trigger] flat[a]).id != (#[trigger] flat[b]).id by {
            if b < prev.len() {
                assert(flat[a] == prev[a] && flat[b] == prev[b]);
            } else if a >= prev.len() {
                assert(flat[a] == es[a - prev.len()] && flat[b] == es[b - prev.len()]);
            } else {
                assert(flat[a] == prev[a] && flat[b] == es[b - prev.len()]);
                assert(s.edges.contains_key(prev[a].id.0));
                assert(prev[a].label.0 <= ps[nb + j - 2]->relation.0);
                assert(s.edges.contains_key(es[b - prev.len()].id.0));
                assert(es[b - prev.len()].label == l);
                if prev[a].id == es[b - prev.len()].id {
                    assert(prev[a] == s.edges[prev[a].id.0]);
                    assert(es[b - prev.len()] == s.edges[prev[a].id.0]);
                }
            }
        }
        assert forall|k: u64| #[trigger] s.edges.contains_key(k) && j > 0 && s.edges[k].label.0 <= ps[nb + j - 1]->relation.0
            implies exists|i: int| 0 <= i < flat.len() && (#[trigger] flat[i]).id.0 == k by {
            let lk = s.edges[k].label;
            if lk == l {
                let i = choose|i: int| 0 <= i < es.len() && #[trigger] es[i].id.0 == k;
                assert(flat[prev.len() + i] == es[i]);
            } else {
                assert(used_relations(s).contains(lk.0));
                let b = choose|b: int| nb <= b < nb + eb && (#[trigger] ps[b])->relation.0 == lk.0;
                if b >= nb + j - 1 {
                    if b > nb + j - 1 {
                        assert(ps[nb + j - 1]->relation.0 < ps[b]->relation.0);
                    }
                    assert(false);
                }
                assert(b <= nb + j - 2);
                if b < nb + j - 2 {
                    assert(ps[b]->relation.0 < ps[nb + j - 2]->relation.0);
                }
                let i = choose|i: int| 0 <= i < prev.len() && (#[trigger] prev[i]).id.0 == k;
                assert(flat[i] == prev[i]);
            }
        }
    }
}

/// What a list of a map of lists holds after one more item is put under a key.
proof fn lemma_push_under_contains<K, T>(m: Map<K, Seq<T>>, k0: K, x: T, k: K, y: T)
    ensures
        list_or_empty(push_under(m, k0, x), k).contains(y) <==> (list_or_empty(m, k).contains(y) || (k == k0 && y == x)),
{
    let old_list = list_or_empty(m, k);
    let new_list = list_or_empty(push_under(m, k0, x), k);
    if k == k0 {
        assert(new_list == old_list.push(x));
        if new_list.contains(y) && y != x {
            let j = choose|j: int| 0 <= j < new_list.len() && new_list[j] == y;
            assert(j < old_list.len());
            assert(old_list[j] == y);
        }
        if old_list.contains(y) {
            let j = choose|j: int| 0 <= j < old_list.len() && old_list[j] == y;
            assert(new_list[j] == y);
        }
        if y == x {
            assert(new_list[old_list.len() as int] == x);
        }
    } else {
        assert(new_list == old_list);
    }
}

/// Putting back edges with distinct ids into a store with none: the store then holds
/// exactly those edges under their ids, the next id is one past the largest, each
/// relation, source and target lists exactly its edges, and each external identity of an
/// edge leads to an edge with it.
#[verifier::spinoff_prover]
proof fn lemma_edge_pass_contents(base: StoreView, es: Seq<EdgeView>)
    requires
        base.edges == Map::<u64, EdgeView>::empty(),
        base.edge_label_index == Map::<u32, Seq<EdgeId>>::empty(),
        base.outgoing == Map::<u64, Seq<EdgeId>>::empty(),
        base.incoming == Map::<u64, Seq<EdgeId>>::empty(),
        base.edge_external == Map::<(Seq<char>, Seq<char>), u64>::empty(),
        base.next_edge_id == 0,
        forall|a: int, b: int| 0 <= a < b < es.len() ==> (#[trigger] es[a]).id != (#[trigger] es[b]).id,
        forall|i: int| 0 <= i < es.len() ==> (#[trigger] es[i]).id.0 < u64::MAX,
    ensures
        ({
            let r = edge_pass(base, es);
            &&& forall|k: u64| #[trigger] r.edges.contains_key(k) <==> exists|i: int| 0 <= i < es.len() && (#[trigger] es[i]).id.0 == k
            &&& forall|i: int| 0 <= i < es.len() ==> r.edges[(#[trigger] es[i]).id.0] == es[i] && es[i].id.0 < r.next_edge_id
            &&& r.next_edge_id == 0 || exists|i: int| 0 <= i < es.len() && (#[trigger] es[i]).id.0 + 1 == r.next_edge_id
            &&& forall|l: u32, id: EdgeId| #[trigger] list_or_empty(r.edge_label_index, l).contains(id) <==> exists|i: int|
                0 <= i < es.len() && (#[trigger] es[i]).id == id && es[i].label.0 == l
            &&& forall|n: u64, id: EdgeId| #[trigger] list_or_empty(r.outgoing, n).contains(id) <==> exists|i: int|
                0 <= i < es.len() && (#[trigger] es[i]).id == id && es[i].src.0 == n
            &&& forall|n: u64, id: EdgeId| #[trigger] list_or_empty(r.incoming, n).contains(id) <==> exists|i: int|
                0 <= i < es.len() && (#[trigger] es[i]).id == id && es[i].dst.0 == n
            &&& forall|key: (Seq<char>, Seq<char>)| #[trigger] r.edge_external.contains_key(key) ==> exists|i: int|
                0 <= i < es.len() && (#[trigger] es[i]).namespace == key.0 && es[i].external_id == key.1 && r.edge_external[key] == es[i].id.0
            &&& forall|i: int| 0 <= i < es.len() ==> r.edge_external.contains_key(((#[trigger] es[i]).namespace, es[i].external_id))
        }),
    decreases es.len(),
{
    if es.len() > 0 {
        let front = es.drop_last();
        let x = es.last();
        assert forall|a: int, b: int| 0 <= a < b < front.len() implies (#[trigger] front[a]).id != (#[trigger] front[b]).id by {
            assert(front[a] == es[a] && front[b] == es[b]);
        }
        assert forall|i: int| 0 <= i < front.len() implies (#[trigger] front[i]).id.0 < u64::MAX by {
            assert(front[i] == es[i]);
        }
        lemma_edge_pass_contents(base, front);
        let p = edge_pass(base, front);
        let r = edge_pass(base, es);
        assert(r == restore_edge_step(p, x));
        let n = es.len() - 1;
        assert(es[n] == x);
        assert(x.id.0 < u64::MAX);
        assert(!p.edges.contains_key(x.id.0)) by {
            if p.edges.contains_key(x.id.0) {
                let i = choose|i: int| 0 <= i < front.len() && (#[trigger] front[i]).id.0 == x.id.0;
                assert(front[i] == es[i]);
                assert(es[i].id != es[n].id);
            }
        }
        assert forall|k: u64| #[trigger] r.edges.contains_key(k) <==> exists|i: int| 0 <= i < es.len() && (#[trigger] es[i]).id.0 == k by {
            if r.edges.contains_key(k) {
                if k == x.id.0 {
                    assert(es[n].id.0 == k);
                } else {
                    assert(p.edges.contains_key(k));
                    let i = choose|i: int| 0 <= i < front.len() && (#[trigger] front[i]).id.0 == k;
                    assert(es[i] == front[i]);
                }
            }
            if exists|i: int| 0 <= i < es.len() && (#[trigger] es[i]).id.0 == k {
                let i = choose|i: int| 0 <= i < es.len() && (#[trigger] es[i]).id.0 == k;
                if i < n {
                    assert(front[i] == es[i]);
                    assert(p.edges.contains_key(k));
                }
            }
        }
        assert(p.next_edge_id <= r.next_edge_id);
        assert forall|i: int| 0 <= i < es.len() implies r.edges[(#[trigger] es[i]).id.0] == es[i] && es[i].id.0 < r.next_edge_id by {
            if i < n {
                assert(front[i] == es[i]);
                assert(p.edges[front[i].id.0] == front[i]);
                assert(front[i].id.0 < p.next_edge_id);
                assert(es[i].id != es[n].id);
                assert(r.edges[es[i].id.0] == p.edges[es[i].id.0]);
            } else {
                assert(r.edges[x.id.0] == x);
            }
        }
        if p.next_edge_id <= x.id.0 {
            assert(es[n].id.0 + 1 == r.next_edge_id);
        } else if p.next_edge_id != 0 {
            let i = choose|i: int| 0 <= i < front.len() && (#[trigger] front[i]).id.0 + 1 == p.next_edge_id;
            assert(es[i] == front[i]);
            assert(es[i].id.0 + 1 == r.next_edge_id);
        }
        assert forall|l: u32, id: EdgeId| #[trigger] list_or_empty(r.edge_label_index, l).contains(id) <==> exists|i: int|
            0 <= i < es.len() && (#[trigger] es[i]).id == id && es[i].label.0 == l by {
            lemma_push_under_contains(p.edge_label_index, x.label.0, x.id, l, id);
            if list_or_empty(p.edge_label_index, l).contains(id) {
                let i = choose|i: int| 0 <= i < front.len() && (#[trigger] front[i]).id == id && front[i].label.0 == l;
                assert(es[i] == front[i]);
            }
            if exists|i: int| 0 <= i < es.len() && (#[trigger] es[i]).id == id && es[i].label.0 == l {
                let i = choose|i: int| 0 <= i < es.len() && (#[trigger] es[i]).id == id && es[i].label.0 == l;
                if i < n {
                    assert(front[i] == es[i]);
                }
            }
        }
        assert forall|m: u64, id: EdgeId| #[trigger] list_or_empty(r.outgoing, m).contains(id) <==> exists|i: int|
            0 <= i < es.len() && (#[trigger] es[i]).id == id && es[i].src.0 == m by {
            lemma_push_under_contains(p.outgoing, x.src.0, x.id, m, id);
            if list_or_empty(p.outgoing, m).contains(id) {
                let i = choose|i: int| 0 <= i < front.len() && (#[trigger] front[i]).id == id && front[i].src.0 == m;
                assert(es[i] == front[i]);
            }
            if exists|i: int| 0 <= i < es.len() && (#[trigger] es[i]).id == id && es[i].src.0 == m {
                let i = choose|i: int| 0 <= i < es.len() && (#[trigger] es[i]).id == id && es[i].src.0 == m;
                if i < n {
                    assert(front[i] == es[i]);
                }
            }
        }
        assert forall|m: u64, id: EdgeId| #[trigger] list_or_empty(r.incoming, m).contains(id) <==> exists|i: int|
            0 <= i < es.len() && (#[trigger] es[i]).id == id && es[i].dst.0 == m by {
            lemma_push_under_contains(p.incoming, x.dst.0, x.id, m, id);
            if list_or_empty(p.incoming, m).contains(id) {
                let i = choose|i: int| 0 <= i < front.len() && (#[trigger] front[i]).id == id && front[i].dst.0 == m;
                assert(es[i] == front[i]);
            }
            if exists|i: int| 0 <= i < es.len() && (#[trigger] es[i]).id == id && es[i].dst.0 == m {
                let i = choose|i: int| 0 <= i < es.len() && (#[trigger] es[i]).id == id && es[i].dst.0 == m;
                if i < n {
                    assert(front[i] == es[i]);
                }
            }
        }
        let xkey = (x.namespace, x.external_id);
        assert forall|key: (Seq<char>, Seq<char>)| #[trigger] r.edge_external.contains_key(key) implies exists|i: int|
            0 <= i < es.len() && (#[trigger] es[i]).namespace == key.0 && es[i].external_id == key.1 && r.edge_external[key] == es[i].id.0 by {
            if key == xkey {
                assert(es[n].namespace == key.0 && es[n].external_id == key.1);
            } else {
                assert(p.edge_external.contains_key(key));
                let i = choose|i: int| 0 <= i < front.len() && (#[trigger] front[i]).namespace == key.0 && front[i].external_id == key.1
                    && p.edge_external[key] == front[i].id.0;
                assert(es[i] == front[i]);
            }
        }
        assert forall|i: int| 0 <= i < es.len() implies r.edge_external.contains_key(((#[trigger] es[i]).namespace, es[i].external_id)) by {
            if i < n {
                assert(front[i] == es[i]);
                assert(p.edge_external.contains_key((front[i].namespace, front[i].external_id)));
            }
        }
    }
}

/// The ids of a list of nodes.
pub open spec fn node_ids(ns: Seq<NodeView>) -> Set<u64> {
    Set::new(|k: u64| exists|m: int| 0 <= m < ns.len() && (#[trigger] ns[m]).id.0 == k)
}

/// The ids of a list of edges.
pub open spec fn edge_ids(es: Seq<EdgeView>) -> Set<u64> {
    Set::new(|k: u64| exists|m: int| 0 <= m < es.len() && (#[trigger] es[m]).id.0 == k)
}

/// A run over nodes of one label that resolve, with fresh distinct ids, passes and adds
/// their ids to those seen.
proof fn lemma_node_run_ok(len: nat, label: LabelId, nodes: Seq<NodeView>, j: int, seen: Set<u64>)
    requires
        0 <= j <= nodes.len(),
        label.0 < len,
        forall|i: int| j <= i < nodes.len() ==> (#[trigger] nodes[i]).label == label && first_unknown_key(len, nodes[i].properties) is None
            && !seen.contains(nodes[i].id.0),
        forall|a: int, b: int| j <= a < b < nodes.len() ==> (#[trigger] nodes[a]).id != (#[trigger] nodes[b]).id,
    ensures
        node_run(len, label, nodes, j, seen) == Ok::<Set<u64>, StoreError>(seen + node_ids(nodes.skip(j))),
    decreases nodes.len() - j,
{
    if j == nodes.len() {
        assert(node_ids(nodes.skip(j)) =~= Set::<u64>::empty());
        assert(seen + node_ids(nodes.skip(j)) =~= seen);
    } else {
        let n = nodes[j];
        let seen2 = seen.insert(n.id.0);
        assert forall|i: int| j + 1 <= i < nodes.len() implies (#[trigger] nodes[i]).label == label && first_unknown_key(
            len,
            nodes[i].properties,
        ) is None && !seen2.contains(nodes[i].id.0) by {
            assert(nodes[j].id != nodes[i].id);
        }
        lemma_node_run_ok(len, label, nodes, j + 1, seen2);
        assert(seen2 + node_ids(nodes.skip(j + 1)) =~= seen + node_ids(nodes.skip(j))) by {
            assert forall|k: u64| (seen2 + node_ids(nodes.skip(j + 1))).contains(k) <==> (seen + node_ids(nodes.skip(j))).contains(k) by {
                if node_ids(nodes.skip(j + 1)).contains(k) {
                    let m = choose|m: int| 0 <= m < nodes.skip(j + 1).len() && (#[trigger] nodes.skip(j + 1)[m]).id.0 == k;
                    assert(nodes.skip(j)[m + 1] == nodes.skip(j + 1)[m]);
                }
                if node_ids(nodes.skip(j)).contains(k) {
                    let m = choose|m: int| 0 <= m < nodes.skip(j).len() && (#[trigger] nodes.skip(j)[m]).id.0 == k;
                    if m > 0 {
                        assert(nodes.skip(j + 1)[m - 1] == nodes.skip(j)[m]);
                    }
                }
                if k == n.id.0 {
                    assert(nodes.skip(j)[0] == n);
                }
            }
        }
    }
}

/// A run over edges of one relation that resolve, with fresh distinct ids, passes and
/// adds their ids to those seen.
proof fn lemma_edge_run_ok(len: nat, relation: RelationId, edges: Seq<EdgeView>, j: int, seen: Set<u64>)
    requires
        0 <= j <= edges.len(),
        relation.0 < len,
        forall|i: int| j <= i < edges.len() ==> (#[trigger] edges[i]).label == relation && first_unknown_key(len, edges[i].properties) is None
            && !seen.contains(edges[i].id.0),
        forall|a: int, b: int| j <= a < b < edges.len() ==> (#[trigger] edges[a]).id != (#[trigger] edges[b]).id,
    ensures
        edge_run(len, relation, edges, j, seen) == Ok::<Set<u64>, StoreError>(seen + edge_ids(edges.skip(j))),
    decreases edges.len() - j,
{
    if j == edges.len() {
        assert(edge_ids(edges.skip(j)) =~= Set::<u64>::empty());
        assert(seen + edge_ids(edges.skip(j)) =~= seen);
    } else {
        let e = edges[j];
        let seen2 = seen.insert(e.id.0);
        assert forall|i: int| j + 1 <= i < edges.len() implies (#[trigger] edges[i]).label == relation && first_unknown_key(
            len,
            edges[i].properties,
        ) is None && !seen2.contains(edges[i].id.0) by {
            assert(edges[j].id != edges[i].id);
        }
        lemma_edge_run_ok(len, relation, edges, j + 1, seen2);
        assert(seen2 + edge_ids(edges.skip(j + 1)) =~= seen + edge_ids(edges.skip(j))) by {
            assert forall|k: u64| (seen2 + edge_ids(edges.skip(j + 1))).contains(k) <==> (seen + edge_ids(edges.skip(j))).contains(k) by {
                if edge_ids(edges.skip(j + 1)).contains(k) {
                    let m = choose|m: int| 0 <= m < edges.skip(j + 1).len() && (#[trigger] edges.skip(j + 1)[m]).id.0 == k;
                    assert(edges.skip(j)[m + 1] == edges.skip(j + 1)[m]);
                }
                if edge_ids(edges.skip(j)).contains(k) {
                    let m = choose|m: int| 0 <= m < edges.skip(j).len() && (#[trigger] edges.skip(j)[m]).id.0 == k;
                    if m > 0 {
                        assert(edges.skip(j + 1)[m - 1] == edges.skip(j)[m]);
                    }
                }
                if k == e.id.0 {
                    assert(edges.skip(j)[0] == e);
                }
            }
        }
    }
}

proof fn lemma_node_ids_add(a: Seq<NodeView>, b: Seq<NodeView>)
    ensures
        node_ids(a + b) == node_ids(a) + node_ids(b),
{
    assert forall|k: u64| node_ids(a + b).contains(k) <==> (node_ids(a) + node_ids(b)).contains(k) by {
        if node_ids(a + b).contains(k) {
            let m = choose|m: int| 0 <= m < (a + b).len() && (#[trigger] (a + b)[m]).id.0 == k;
            if m < a.len() {
                assert((a + b)[m] == a[m]);
            } else {
                assert((a + b)[m] == b[m - a.len()]);
            }
        }
        if node_ids(a).contains(k) {
            let m = choose|m: int| 0 <= m < a.len() && (#[trigger] a[m]).id.0 == k;
            assert((a + b)[m] == a[m]);
        }
        if node_ids(b).contains(k) {
            let m = choose|m: int| 0 <= m < b.len() && (#[trigger] b[m]).id.0 == k;
            assert((a + b)[a.len() + m] == b[m]);
        }
    }
    assert(node_ids(a + b) =~= node_ids(a) + node_ids(b));
}

proof fn lemma_edge_ids_add(a: Seq<EdgeView>, b: Seq<EdgeView>)
    ensures
        edge_ids(a + b) == edge_ids(a) + edge_ids(b),
{
    assert forall|k: u64| edge_ids(a + b).contains(k) <==> (edge_ids(a) + edge_ids(b)).contains(k) by {
        if edge_ids(a + b).contains(k) {
            let m = choose|m: int| 0 <= m < (a + b).len() && (#[trigger] (a + b)[m]).id.0 == k;
            if m < a.len() {
                assert((a + b)[m] == a[m]);
            } else {
                assert((a + b)[m] == b[m - a.len()]);
            }
        }
        if edge_ids(a).contains(k) {
            let m = choose|m: int| 0 <= m < a.len() && (#[trigger] a[m]).id.0 == k;
            assert((a + b)[m] == a[m]);
        }
        if edge_ids(b).contains(k) {
            let m = choose|m: int| 0 <= m < b.len() && (#[trigger] b[m]).id.0 == k;
            assert((a + b)[a.len() + m] == b[m]);
        }
    }
    assert(edge_ids(a + b) =~= edge_ids(a) + edge_ids(b));
}

/// The blocks of a saved layout of a valid store pass the checks made on load, from
/// block `i` on, given the ids of the blocks before it.
#[verifier::spinoff_prover]
proof fn lemma_blocks_ok(s: StoreView, ps: Seq<BlockPayloadView>, nb: int, eb: int, i: int)
    requires
        save_layout_with(s, ps, nb, eb),
        store_valid(s),
        0 <= i <= ps.len(),
    ensures
        blocks_fault(
            s.strings.len(),
            with_kinds(ps),
            i,
            node_ids(flat_nodes(with_kinds(ps).take(i))),
            edge_ids(flat_edges(with_kinds(ps).take(i))),
        ) is None,
    decreases ps.len() - i,
{
    let bv = with_kinds(ps);
    let len = s.strings.len();
    if i < ps.len() {
        let fnodes = |p: BlockPayloadView| block_nodes(p);
        let fedges = |p: BlockPayloadView| block_edges(p);
        lemma_flat_by_push(bv, fnodes, i);
        lemma_flat_by_push(bv, fedges, i);
        assert(bv[i] == (payload_kind(ps[i]), ps[i]));
        let prev_n = flat_nodes(bv.take(i));
        let prev_e = flat_edges(bv.take(i));
        let nseen = node_ids(prev_n);
        let eseen = edge_ids(prev_e);
        if i < nb {
            let block = ps[i];
            assert(block matches BlockPayloadView::Nodes { label, nodes } && lists_label(s, nodes, label) && used_labels(s).contains(label.0));
            let l = block->label;
            let ns = block->nodes;
            let k0 = choose|k: u64| #[trigger] s.nodes.contains_key(k) && s.nodes[k].label.0 == l.0;
            assert(crate::storage::node_fault(len, s.nodes[k0]) is None);
            lemma_node_blocks(s, ps, nb, eb, i + 1);
            let flat = flat_nodes(bv.take(i + 1));
            assert(flat == prev_n + ns);
            assert forall|j: int| 0 <= j < ns.len() implies (#[trigger] ns[j]).label == l && first_unknown_key(len, ns[j].properties) is None
                && !nseen.contains(ns[j].id.0) by {
                assert(s.nodes.contains_key(ns[j].id.0));
                assert(crate::storage::node_fault(len, s.nodes[ns[j].id.0]) is None);
                if nseen.contains(ns[j].id.0) {
                    let m = choose|m: int| 0 <= m < prev_n.len() && (#[trigger] prev_n[m]).id.0 == ns[j].id.0;
                    assert(flat[m] == prev_n[m]);
                    assert(flat[prev_n.len() + j] == ns[j]);
                    assert(flat[m].id != flat[prev_n.len() + j].id);
                }
            }
            assert forall|a: int, b: int| 0 <= a < b < ns.len() implies (#[trigger] ns[a]).id != (#[trigger] ns[b]).id by {
                assert(flat[prev_n.len() + a] == ns[a]);
                assert(flat[prev_n.len() + b] == ns[b]);
            }
            lemma_node_run_ok(len, l, ns, 0, nseen);
            assert(ns.skip(0) =~= ns);
            lemma_node_ids_add(prev_n, ns);
            assert(block_edges(block) =~= Seq::<EdgeView>::empty());
            assert(flat_edges(bv.take(i + 1)) =~= prev_e);
            lemma_blocks_ok(s, ps, nb, eb, i + 1);
        } else if i < nb + eb {
            let block = ps[i];
            assert(block matches BlockPayloadView::Edges { relation, edges } && lists_relation(s, edges, relation)
                && used_relations(s).contains(relation.0));
            let l = block->relation;
            let es = block->edges;
            let k0 = choose|k: u64| #[trigger] s.edges.contains_key(k) && s.edges[k].label.0 == l.0;
            assert(crate::storage::edge_fault(s, s.edges[k0]) is None);
            lemma_edge_blocks(s, ps, nb, eb, i + 1 - nb);
            assert(nb + (i + 1 - nb) == i + 1);
            let flat = flat_edges(bv.take(i + 1));
            assert(flat == prev_e + es);
            assert forall|j: int| 0 <= j < es.len() implies (#[trigger] es[j]).label == l && first_unknown_key(len, es[j].properties) is None
                && !eseen.contains(es[j].id.0) by {
                assert(s.edges.contains_key(es[j].id.0));
                assert(crate::storage::edge_fault(s, s.edges[es[j].id.0]) is None);
                if eseen.contains(es[j].id.0) {
                    let m = choose|m: int| 0 <= m < prev_e.len() && (#[trigger] prev_e[m]).id.0 == es[j].id.0;
                    assert(flat[m] == prev_e[m]);
                    assert(flat[prev_e.len() + j] == es[j]);
                    assert(flat[m].id != flat[prev_e.len() + j].id);
                }
            }
            assert forall|a: int, b: int| 0 <= a < b < es.len() implies (#[trigger] es[a]).id != (#[trigger] es[b]).id by {
                assert(flat[prev_e.len() + a] == es[a]);
                assert(flat[prev_e.len() + b] == es[b]);
            }
            lemma_edge_run_ok(len, l, es, 0, eseen);
            assert(es.skip(0) =~= es);
            lemma_edge_ids_add(prev_e, es);
            assert(block_nodes(block) =~= Seq::<NodeView>::empty());
            assert(flat_nodes(bv.take(i + 1)) =~= prev_n);
            lemma_blocks_ok(s, ps, nb, eb, i + 1);
        } else {
            assert(i == nb + eb);
            assert(ps[i] is Facts);
            assert(block_nodes(ps[i]) =~= Seq::<NodeView>::empty());
            assert(block_edges(ps[i]) =~= Seq::<EdgeView>::empty());
            assert(flat_nodes(bv.take(i + 1)) =~= prev_n);
            assert(flat_edges(bv.take(i + 1)) =~= prev_e);
            lemma_blocks_ok(s, ps, nb, eb, i + 1);
        }
    }
}

/// Every node and every edge has facts, and the first is its own provenance.
pub open spec fn facts_led_by_provenance(s: StoreView) -> bool {
    &&& forall|k: u64| #[trigger] s.nodes.contains_key(k) ==> s.facts.contains_key(FactSubject::Node(NodeId(k)))
        && s.facts[FactSubject::Node(NodeId(k))].len() > 0 && s.facts[FactSubject::Node(NodeId(k))][0] == s.nodes[k].provenance
    &&& forall|k: u64| #[trigger] s.edges.contains_key(k) ==> s.facts.contains_key(FactSubject::Edge(EdgeId(k)))
        && s.facts[FactSubject::Edge(EdgeId(k))].len() > 0 && s.facts[FactSubject::Edge(EdgeId(k))][0] == s.edges[k].provenance
}

/// Appending facts all about one subject extends that subject's list by them.
proof fn lemma_fact_pass_one_subject(f: Map<FactSubject, Seq<ProvenanceView>>, k: FactSubject, list: Seq<ProvenanceView>)
    requires
        list.len() > 0,
    ensures
        fact_pass(f, list.map_values(|p: ProvenanceView| (k, p))) == f.insert(k, list_or_empty(f, k) + list),
    decreases list.len(),
{
    let entries = list.map_values(|p: ProvenanceView| (k, p));
    let front = list.drop_last();
    assert(entries.drop_last() =~= front.map_values(|p: ProvenanceView| (k, p)));
    assert(entries.last() == (k, list.last()));
    let m = if front.len() > 0 {
        lemma_fact_pass_one_subject(f, k, front);
        f.insert(k, list_or_empty(f, k) + front)
    } else {
        assert(front.map_values(|p: ProvenanceView| (k, p)).len() == 0);
        assert(list_or_empty(f, k) + front =~= list_or_empty(f, k));
        f
    };
    assert(fact_pass(f, entries.drop_last()) == m);
    assert(list_or_empty(m, k) == list_or_empty(f, k) + front);
    assert(list_or_empty(f, k) + front.push(list.last()) =~= list_or_empty(f, k) + list);
    assert(push_under(m, k, list.last()) =~= f.insert(k, list_or_empty(f, k) + list));
}

/// The facts after the extra facts of the listed subjects are appended, subject after
/// subject: each listed subject with more than one fact gets the rest of its facts after
/// its own.
pub open spec fn facts_with_extras(
    c: Map<FactSubject, Seq<ProvenanceView>>,
    s: StoreView,
    subjects: Seq<FactSubject>,
) -> Map<FactSubject, Seq<ProvenanceView>> {
    Map::new(
        |k: FactSubject| c.contains_key(k),
        |k: FactSubject|
            if subjects.contains(k) && s.facts[k].len() > 1 {
                c[k] + s.facts[k].skip(1)
            } else {
                c[k]
            },
    )
}

#[verifier::spinoff_prover]
proof fn lemma_fact_pass_extras(c: Map<FactSubject, Seq<ProvenanceView>>, s: StoreView, subjects: Seq<FactSubject>)
    requires
        subjects.no_duplicates(),
        forall|i: int| 0 <= i < subjects.len() ==> c.contains_key(#[trigger] subjects[i]),
    ensures
        fact_pass(c, extra_facts_of(s, subjects)) == facts_with_extras(c, s, subjects),
    decreases subjects.len(),
{
    if subjects.len() == 0 {
        assert(extra_facts_of(s, subjects) == Seq::<(FactSubject, ProvenanceView)>::empty());
        assert(facts_with_extras(c, s, subjects) =~= c);
    } else {
        let front = subjects.drop_last();
        let k = subjects.last();
        assert forall|i: int| 0 <= i < front.len() implies c.contains_key(#[trigger] front[i]) by {
            assert(front[i] == subjects[i]);
        }
        assert(front.no_duplicates()) by {
            assert forall|a: int, b: int| 0 <= a < front.len() && 0 <= b < front.len() && a != b implies front[a] != front[b] by {
                assert(front[a] == subjects[a] && front[b] == subjects[b]);
            }
        }
        lemma_fact_pass_extras(c, s, front);
        let m = facts_with_extras(c, s, front);
        assert(!front.contains(k)) by {
            if front.contains(k) {
                let j = choose|j: int| 0 <= j < front.len() && front[j] == k;
                assert(subjects[j] == subjects[subjects.len() - 1]);
            }
        }
        assert(c.contains_key(subjects[subjects.len() - 1]));
        let list = s.facts[k];
        let tail = if list.len() > 1 {
            list.skip(1).map_values(|p: ProvenanceView| (k, p))
        } else {
            Seq::empty()
        };
        assert(extra_facts_of(s, subjects) == extra_facts_of(s, front) + tail);
        crate::snapshot::lemma_fact_pass_add(c, extra_facts_of(s, front), tail);
        if list.len() > 1 {
            lemma_fact_pass_one_subject(m, k, list.skip(1));
            assert(list_or_empty(m, k) == c[k]);
            assert forall|x: FactSubject| #[trigger] subjects.contains(x) <==> front.contains(x) || x == k by {
                if subjects.contains(x) {
                    let j = choose|j: int| 0 <= j < subjects.len() && subjects[j] == x;
                    if j < front.len() {
                        assert(front[j] == x);
                    }
                }
                if front.contains(x) {
                    let j = choose|j: int| 0 <= j < front.len() && front[j] == x;
                    assert(subjects[j] == x);
                }
                if x == k {
                    assert(subjects[subjects.len() - 1] == k);
                }
            }
            assert(m.insert(k, list_or_empty(m, k) + list.skip(1)) =~= facts_with_extras(c, s, subjects));
        } else {
            assert(fact_pass(m, tail) == m);
            assert forall|x: FactSubject| #[trigger] subjects.contains(x) <==> front.contains(x) || x == k by {
                if subjects.contains(x) {
                    let j = choose|j: int| 0 <= j < subjects.len() && subjects[j] == x;
                    if j < front.len() {
                        assert(front[j] == x);
                    }
                }
                if front.contains(x) {
                    let j = choose|j: int| 0 <= j < front.len() && front[j] == x;
                    assert(subjects[j] == x);
                }
                if x == k {
                    assert(subjects[subjects.len() - 1] == k);
                }
            }
            assert(m =~= facts_with_extras(c, s, subjects));
        }
    }
}

/// Each fact entry of the listed subjects is about one of them.
proof fn lemma_extra_facts_subjects(s: StoreView, subjects: Seq<FactSubject>)
    ensures
        forall|i: int| 0 <= i < extra_facts_of(s, subjects).len() ==> subjects.contains(#[trigger] extra_facts_of(s, subjects)[i].0),
    decreases subjects.len(),
{
    if subjects.len() > 0 {
        let front = subjects.drop_last();
        let k = subjects.last();
        lemma_extra_facts_subjects(s, front);
        let a = extra_facts_of(s, front);
        let list = s.facts[k];
        let tail = if list.len() > 1 {
            list.skip(1).map_values(|p: ProvenanceView| (k, p))
        } else {
            Seq::empty()
        };
        assert(extra_facts_of(s, subjects) == a + tail);
        assert forall|i: int| 0 <= i < extra_facts_of(s, subjects).len() implies subjects.contains(
            #[trigger] extra_facts_of(s, subjects)[i].0,
        ) by {
            if i < a.len() {
                assert(extra_facts_of(s, subjects)[i] == a[i]);
                let j = choose|j: int| 0 <= j < front.len() && front[j] == a[i].0;
                assert(subjects[j] == front[j]);
            } else {
                assert(extra_facts_of(s, subjects)[i] == tail[i - a.len()]);
                assert(tail[i - a.len()].0 == k);
                assert(subjects[subjects.len() - 1] == k);
            }
        }
    }
}

/// No edge of a list is dangling when each has both ends among the nodes.
proof fn lemma_no_dangling(nodes: Map<u64, NodeView>, es: Seq<EdgeView>)
    requires
        forall|i: int| 0 <= i < es.len() ==> nodes.contains_key((#[trigger] es[i]).src.0) && nodes.contains_key(es[i].dst.0),
    ensures
        first_dangling_edge(nodes, es) is None,
    decreases es.len(),
{
    if es.len() > 0 {
        let front = es.drop_last();
        assert forall|i: int| 0 <= i < front.len() implies nodes.contains_key((#[trigger] front[i]).src.0) && nodes.contains_key(
            front[i].dst.0,
        ) by {
            assert(front[i] == es[i]);
        }
        lemma_no_dangling(nodes, front);
        assert(es.last() == es[es.len() - 1]);
    }
}

/// Every record with an external id is found by it.
pub open spec fn external_ids_indexed(s: StoreView) -> bool {
    &&& forall|k: u64| #[trigger] s.nodes.contains_key(k) && s.nodes[k].external_id.len() > 0 ==> s.node_external.contains_key(
        (s.nodes[k].namespace, s.nodes[k].external_id),
    ) && s.node_external[(s.nodes[k].namespace, s.nodes[k].external_id)] == k
    &&& forall|k: u64| #[trigger] s.edges.contains_key(k) && s.edges[k].external_id.len() > 0 ==> s.edge_external.contains_key(
        (s.edges[k].namespace, s.edges[k].external_id),
    ) && s.edge_external[(s.edges[k].namespace, s.edges[k].external_id)] == k
}

/// Two stores hold the same records, facts and string table, hand out the same next
/// ids, find the same records by every non-empty external identity, and list the same
/// ids under every key of every index.
pub open spec fn same_contents(a: StoreView, b: StoreView) -> bool {
    &&& a.strings == b.strings
    &&& a.nodes == b.nodes
    &&& a.edges == b.edges
    &&& a.facts == b.facts
    &&& a.next_node_id == b.next_node_id
    &&& a.next_edge_id == b.next_edge_id
    &&& forall|l: u32, id: NodeId| #[trigger] list_or_empty(a.node_label_index, l).contains(id) == list_or_empty(b.node_label_index, l).contains(id)
    &&& forall|l: u32, id: EdgeId| #[trigger] list_or_empty(a.edge_label_index, l).contains(id) == list_or_empty(b.edge_label_index, l).contains(id)
    &&& forall|n: u64, id: EdgeId| #[trigger] list_or_empty(a.outgoing, n).contains(id) == list_or_empty(b.outgoing, n).contains(id)
    &&& forall|n: u64, id: EdgeId| #[trigger] list_or_empty(a.incoming, n).contains(id) == list_or_empty(b.incoming, n).contains(id)
    &&& forall|key: (Seq<char>, Seq<char>)| key.1.len() > 0 ==> (#[trigger] a.node_external.contains_key(key) == b.node_external.contains_key(key))
        && (a.node_external.contains_key(key) ==> a.node_external[key] == b.node_external[key])
    &&& forall|key: (Seq<char>, Seq<char>)| key.1.len() > 0 ==> (#[trigger] a.edge_external.contains_key(key) == b.edge_external.contains_key(key))
        && (a.edge_external.contains_key(key) ==> a.edge_external[key] == b.edge_external[key])
}

/// The empty store with the given string table, that a load starts from.
pub open spec fn load_base(strings: Seq<Seq<char>>) -> StoreView {
    StoreView { strings, ..Store::new_view() }
}

/// Putting back the nodes of a saved layout gives back the store's nodes, next node id,
/// label index contents and external node identities.
#[verifier::spinoff_prover]
proof fn lemma_nodes_restored(s: StoreView, ps: Seq<BlockPayloadView>, nb: int, eb: int)
    requires
        save_layout_with(s, ps, nb, eb),
        store_view_wf(s),
        counters_tight(s),
        external_ids_indexed(s),
    ensures
        ({
            let fnodes = flat_nodes(with_kinds(ps));
            let s1 = node_pass(load_base(s.strings), fnodes);
            &&& forall|i: int| 0 <= i < fnodes.len() ==> (#[trigger] fnodes[i]).id.0 < u64::MAX
            &&& s1.nodes == s.nodes
            &&& s1.next_node_id == s.next_node_id
            &&& forall|l: u32, id: NodeId| #[trigger] list_or_empty(s1.node_label_index, l).contains(id) == list_or_empty(s.node_label_index, l).contains(id)
            &&& forall|key: (Seq<char>, Seq<char>)| key.1.len() > 0 ==> (#[trigger] s1.node_external.contains_key(key) == s.node_external.contains_key(key))
                && (s1.node_external.contains_key(key) ==> s1.node_external[key] == s.node_external[key])
        }),
{
    let bv = with_kinds(ps);
    let f = |p: BlockPayloadView| block_nodes(p);
    assert forall|i: int| nb <= i < bv.len() implies (#[trigger] f(bv[i].1)).len() == 0 by {
        assert(bv[i].1 == ps[i]);
        if i < nb + eb {
            assert(ps[i] is Edges);
        } else {
            assert(ps[i] is Facts);
        }
    }
    lemma_flat_by_front(bv, f, nb);
    let fnodes = flat_nodes(bv);
    assert(fnodes == flat_nodes(bv.take(nb)));
    lemma_node_blocks(s, ps, nb, eb, nb);
    assert forall|i: int| 0 <= i < fnodes.len() implies (#[trigger] fnodes[i]).id.0 < u64::MAX by {
        assert(s.nodes.contains_key(fnodes[i].id.0));
    }
    let base = load_base(s.strings);
    lemma_node_pass_contents(base, fnodes);
    let s1 = node_pass(base, fnodes);
    // every node of the store is among the restored ones
    assert forall|k: u64| #[trigger] s.nodes.contains_key(k) implies exists|i: int| 0 <= i < fnodes.len() && (#[trigger] fnodes[i]).id.0 == k by {
        let lk = s.nodes[k].label.0;
        assert(used_labels(s).contains(lk));
        let b = choose|b: int| 0 <= b < nb && (#[trigger] ps[b])->label.0 == lk;
        if b < nb - 1 {
            assert(ps[b]->label.0 < ps[nb - 1]->label.0);
        }
    }
    assert forall|k: u64| #[trigger] s1.nodes.contains_key(k) <==> s.nodes.contains_key(k) by {
        if s1.nodes.contains_key(k) {
            let i = choose|i: int| 0 <= i < fnodes.len() && (#[trigger] fnodes[i]).id.0 == k;
            assert(s.nodes.contains_key(fnodes[i].id.0));
        }
    }
    assert forall|k: u64| #[trigger] s1.nodes.contains_key(k) implies s1.nodes[k] == s.nodes[k] by {
        let i = choose|i: int| 0 <= i < fnodes.len() && (#[trigger] fnodes[i]).id.0 == k;
        assert(s1.nodes[fnodes[i].id.0] == fnodes[i]);
        assert(s.nodes.contains_key(fnodes[i].id.0));
    }
    assert(s1.nodes =~= s.nodes);
    // next node id
    if s.next_node_id > 0 {
        let top = (s.next_node_id - 1) as u64;
        assert(s.nodes.contains_key(top));
        let i = choose|i: int| 0 <= i < fnodes.len() && (#[trigger] fnodes[i]).id.0 == top;
        assert(top < s1.next_node_id);
        if s1.next_node_id != 0 {
            let j = choose|j: int| 0 <= j < fnodes.len() && (#[trigger] fnodes[j]).id.0 + 1 == s1.next_node_id;
            assert(s.nodes.contains_key(fnodes[j].id.0));
        }
    } else {
        if fnodes.len() > 0 {
            assert(s.nodes.contains_key(fnodes[0].id.0));
        }
        if s1.next_node_id != 0 {
            let j = choose|j: int| 0 <= j < fnodes.len() && (#[trigger] fnodes[j]).id.0 + 1 == s1.next_node_id;
            assert(s.nodes.contains_key(fnodes[j].id.0));
        }
    }
    // label index
    assert forall|l: u32, id: NodeId| #[trigger] list_or_empty(s1.node_label_index, l).contains(id) == list_or_empty(
        s.node_label_index,
        l,
    ).contains(id) by {
        let ls = list_or_empty(s.node_label_index, l);
        if list_or_empty(s1.node_label_index, l).contains(id) {
            let i = choose|i: int| 0 <= i < fnodes.len() && (#[trigger] fnodes[i]).id == id && fnodes[i].label.0 == l;
            assert(s.nodes.contains_key(fnodes[i].id.0));
            assert(s.nodes[id.0].label.0 == l);
            assert(s.node_label_index.contains_key(s.nodes[id.0].label.0));
            assert(s.node_label_index[l].contains(NodeId(id.0)));
        }
        if ls.contains(id) {
            assert(s.node_label_index.contains_key(l));
            let j = choose|j: int| 0 <= j < ls.len() && ls[j] == id;
            assert(s.nodes.contains_key(s.node_label_index[l][j].0));
            let i = choose|i: int| 0 <= i < fnodes.len() && (#[trigger] fnodes[i]).id.0 == id.0;
            assert(fnodes[i] == s.nodes[id.0]);
        }
    }
    // external identities
    assert forall|key: (Seq<char>, Seq<char>)| key.1.len() > 0 implies (#[trigger] s1.node_external.contains_key(key)
        == s.node_external.contains_key(key)) && (s1.node_external.contains_key(key) ==> s1.node_external[key]
        == s.node_external[key]) by {
        if s1.node_external.contains_key(key) {
            let i = choose|i: int| 0 <= i < fnodes.len() && (#[trigger] fnodes[i]).namespace == key.0 && fnodes[i].external_id == key.1
                && s1.node_external[key] == fnodes[i].id.0;
            let k = fnodes[i].id.0;
            assert(s.nodes.contains_key(k));
            assert(s.nodes[k] == fnodes[i]);
            assert(s.node_external.contains_key((s.nodes[k].namespace, s.nodes[k].external_id)));
        }
        if s.node_external.contains_key(key) {
            let k = s.node_external[key];
            assert(s.nodes.contains_key(k));
            let i = choose|i: int| 0 <= i < fnodes.len() && (#[trigger] fnodes[i]).id.0 == k;
            assert(fnodes[i] == s.nodes[k]);
            assert(s1.node_external.contains_key((fnodes[i].namespace, fnodes[i].external_id)));
        }
    }
}

/// Putting back the edges of a saved layout, after its nodes, finds no dangling edge and
/// gives back the store's edges, next edge id, relation and adjacency index contents and
/// external edge identities.
#[verifier::spinoff_prover]
proof fn lemma_edges_restored(s: StoreView, ps: Seq<BlockPayloadView>, nb: int, eb: int)
    requires
        save_layout_with(s, ps, nb, eb),
        store_view_wf(s),
        store_valid(s),
        counters_tight(s),
        external_ids_indexed(s),
    ensures
        ({
            let fedges = flat_edges(with_kinds(ps));
            let s1 = node_pass(load_base(s.strings), flat_nodes(with_kinds(ps)));
            let s2 = edge_pass(s1, fedges);
            &&& forall|i: int| 0 <= i < fedges.len() ==> (#[trigger] fedges[i]).id.0 < u64::MAX
            &&& first_dangling_edge(s1.nodes, fedges) is None
            &&& s2.edges == s.edges
            &&& s2.next_edge_id == s.next_edge_id
            &&& forall|l: u32, id: EdgeId| #[trigger] list_or_empty(s2.edge_label_index, l).contains(id) == list_or_empty(s.edge_label_index, l).contains(id)
            &&& forall|n: u64, id: EdgeId| #[trigger] list_or_empty(s2.outgoing, n).contains(id) == list_or_empty(s.outgoing, n).contains(id)
            &&& forall|n: u64, id: EdgeId| #[trigger] list_or_empty(s2.incoming, n).contains(id) == list_or_empty(s.incoming, n).contains(id)
            &&& forall|key: (Seq<char>, Seq<char>)| key.1.len() > 0 ==> (#[trigger] s2.edge_external.contains_key(key) == s.edge_external.contains_key(key))
                && (s2.edge_external.contains_key(key) ==> s2.edge_external[key] == s.edge_external[key])
        }),
{
    let bv = with_kinds(ps);
    let f = |p: BlockPayloadView| block_edges(p);
    assert forall|i: int| nb + eb <= i < bv.len() implies (#[trigger] f(bv[i].1)).len() == 0 by {
        assert(bv[i].1 == ps[i]);
        assert(ps[i] is Facts);
    }
    lemma_flat_by_front(bv, f, nb + eb);
    let fedges = flat_edges(bv);
    assert(fedges == flat_edges(bv.take(nb + eb)));
    lemma_edge_blocks(s, ps, nb, eb, eb);
    assert forall|i: int| 0 <= i < fedges.len() implies (#[trigger] fedges[i]).id.0 < u64::MAX by {
        assert(s.edges.contains_key(fedges[i].id.0));
    }
    lemma_nodes_restored(s, ps, nb, eb);
    let base = load_base(s.strings);
    let s1 = node_pass(base, flat_nodes(bv));
    crate::snapshot::lemma_node_pass_frame(base, flat_nodes(bv));
    assert forall|i: int| 0 <= i < fedges.len() implies s1.nodes.contains_key((#[trigger] fedges[i]).src.0) && s1.nodes.contains_key(
        fedges[i].dst.0,
    ) by {
        assert(s.edges.contains_key(fedges[i].id.0));
        assert(crate::storage::edge_fault(s, s.edges[fedges[i].id.0]) is None);
    }
    lemma_no_dangling(s1.nodes, fedges);
    lemma_edge_pass_contents(s1, fedges);
    let s2 = edge_pass(s1, fedges);
    assert forall|k: u64| #[trigger] s.edges.contains_key(k) implies exists|i: int| 0 <= i < fedges.len() && (#[trigger] fedges[i]).id.0 == k by {
        let lk = s.edges[k].label.0;
        assert(used_relations(s).contains(lk));
        let b = choose|b: int| nb <= b < nb + eb && (#[trigger] ps[b])->relation.0 == lk;
        if b < nb + eb - 1 {
            assert(ps[b]->relation.0 < ps[nb + eb - 1]->relation.0);
        }
    }
    assert forall|k: u64| #[trigger] s2.edges.contains_key(k) <==> s.edges.contains_key(k) by {
        if s2.edges.contains_key(k) {
            let i = choose|i: int| 0 <= i < fedges.len() && (#[trigger] fedges[i]).id.0 == k;
            assert(s.edges.contains_key(fedges[i].id.0));
        }
    }
    assert forall|k: u64| #[trigger] s2.edges.contains_key(k) implies s2.edges[k] == s.edges[k] by {
        let i = choose|i: int| 0 <= i < fedges.len() && (#[trigger] fedges[i]).id.0 == k;
        assert(s2.edges[fedges[i].id.0] == fedges[i]);
        assert(s.edges.contains_key(fedges[i].id.0));
    }
    assert(s2.edges =~= s.edges);
    if s.next_edge_id > 0 {
        let top = (s.next_edge_id - 1) as u64;
        assert(s.edges.contains_key(top));
        let i = choose|i: int| 0 <= i < fedges.len() && (#[trigger] fedges[i]).id.0 == top;
        assert(top < s2.next_edge_id);
        if s2.next_edge_id != 0 {
            let j = choose|j: int| 0 <= j < fedges.len() && (#[trigger] fedges[j]).id.0 + 1 == s2.next_edge_id;
            assert(s.edges.contains_key(fedges[j].id.0));
        }
    } else {
        if fedges.len() > 0 {
            assert(s.edges.contains_key(fedges[0].id.0));
        }
        if s2.next_edge_id != 0 {
            let j = choose|j: int| 0 <= j < fedges.len() && (#[trigger] fedges[j]).id.0 + 1 == s2.next_edge_id;
            assert(s.edges.contains_key(fedges[j].id.0));
        }
    }
    assert forall|l: u32, id: EdgeId| #[trigger] list_or_empty(s2.edge_label_index, l).contains(id) == list_or_empty(
        s.edge_label_index,
        l,
    ).contains(id) by {
        let ls = list_or_empty(s.edge_label_index, l);
        if list_or_empty(s2.edge_label_index, l).contains(id) {
            let i = choose|i: int| 0 <= i < fedges.len() && (#[trigger] fedges[i]).id == id && fedges[i].label.0 == l;
            assert(s.edges.contains_key(fedges[i].id.0));
            assert(s.edge_label_index.contains_key(s.edges[id.0].label.0));
            assert(s.edge_label_index[l].contains(EdgeId(id.0)));
        }
        if ls.contains(id) {
            let j = choose|j: int| 0 <= j < ls.len() && ls[j] == id;
            assert(s.edges.contains_key(s.edge_label_index[l][j].0));
            let i = choose|i: int| 0 <= i < fedges.len() && (#[trigger] fedges[i]).id.0 == id.0;
            assert(fedges[i] == s.edges[id.0]);
        }
    }
    assert forall|n: u64, id: EdgeId| #[trigger] list_or_empty(s2.outgoing, n).contains(id) == list_or_empty(s.outgoing, n).contains(id) by {
        let ls = list_or_empty(s.outgoing, n);
        if list_or_empty(s2.outgoing, n).contains(id) {
            let i = choose|i: int| 0 <= i < fedges.len() && (#[trigger] fedges[i]).id == id && fedges[i].src.0 == n;
            assert(s.edges.contains_key(fedges[i].id.0));
            assert(s.outgoing.contains_key(s.edges[id.0].src.0));
            assert(s.outgoing[n].contains(EdgeId(id.0)));
        }
        if ls.contains(id) {
            let j = choose|j: int| 0 <= j < ls.len() && ls[j] == id;
            assert(s.edges.contains_key(s.outgoing[n][j].0));
            let i = choose|i: int| 0 <= i < fedges.len() && (#[trigger] fedges[i]).id.0 == id.0;
            assert(fedges[i] == s.edges[id.0]);
        }
    }
    assert forall|n: u64, id: EdgeId| #[trigger] list_or_empty(s2.incoming, n).contains(id) == list_or_empty(s.incoming, n).contains(id) by {
        let ls = list_or_empty(s.incoming, n);
        if list_or_empty(s2.incoming, n).contains(id) {
            let i = choose|i: int| 0 <= i < fedges.len() && (#[trigger] fedges[i]).id == id && fedges[i].dst.0 == n;
            assert(s.edges.contains_key(fedges[i].id.0));
            assert(s.incoming.contains_key(s.edges[id.0].dst.0));
            assert(s.incoming[n].contains(EdgeId(id.0)));
        }
        if ls.contains(id) {
            let j = choose|j: int| 0 <= j < ls.len() && ls[j] == id;
            assert(s.edges.contains_key(s.incoming[n][j].0));
            let i = choose|i: int| 0 <= i < fedges.len() && (#[trigger] fedges[i]).id.0 == id.0;
            assert(fedges[i] == s.edges[id.0]);
        }
    }
    assert forall|key: (Seq<char>, Seq<char>)| key.1.len() > 0 implies (#[trigger] s2.edge_external.contains_key(key)
        == s.edge_external.contains_key(key)) && (s2.edge_external.contains_key(key) ==> s2.edge_external[key]
        == s.edge_external[key]) by {
        if s2.edge_external.contains_key(key) {
            let i = choose|i: int| 0 <= i < fedges.len() && (#[trigger] fedges[i]).namespace == key.0 && fedges[i].external_id == key.1
                && s2.edge_external[key] == fedges[i].id.0;
            let k = fedges[i].id.0;
            assert(s.edges.contains_key(k));
            assert(s.edges[k] == fedges[i]);
            assert(s.edge_external.contains_key((s.edges[k].namespace, s.edges[k].external_id)));
        }
        if s.edge_external.contains_key(key) {
            let k = s.edge_external[key];
            assert(s.edges.contains_key(k));
            let i = choose|i: int| 0 <= i < fedges.len() && (#[trigger] fedges[i]).id.0 == k;
            assert(fedges[i] == s.edges[k]);
            assert(s2.edge_external.contains_key((fedges[i].namespace, fedges[i].external_id)));
        }
    }
}

/// The record a fact is about is held by the store.
pub open spec fn subject_held(s: StoreView, k: FactSubject) -> bool {
    match k {
        FactSubject::Node(n) => s.nodes.contains_key(n.0),
        FactSubject::Edge(e) => s.edges.contains_key(e.0),
    }
}

/// Every fact is about a record the store holds.
pub open spec fn facts_about_records(s: StoreView) -> bool {
    forall|k: FactSubject| #[trigger] s.facts.contains_key(k) ==> subject_held(s, k)
}

/// The shape of every store built by adding nodes and edges, and facts about records it
/// holds: tight id counters, records leading their facts with their own provenance,
/// records found by their external ids, and no fact about a missing record.
pub open spec fn built_by_adding(s: StoreView) -> bool {
    &&& counters_tight(s)
    &&& facts_led_by_provenance(s)
    &&& external_ids_indexed(s)
    &&& facts_about_records(s)
}

/// The empty store is built by adding (nothing).
pub proof fn empty_store_is_built_by_adding()
    ensures
        built_by_adding(Store::new_view()),
{
}

/// Changing only the string table keeps the shape.
pub proof fn interning_keeps_built_by_adding(s: StoreView, strings: Seq<Seq<char>>)
    requires
        built_by_adding(s),
    ensures
        built_by_adding(StoreView { strings, ..s }),
{
}

/// Adding a node under the next id, with its provenance as its first fact and, when it
/// has an external id not yet taken, found by it, keeps the shape.
pub proof fn adding_a_node_keeps_built_by_adding(s: StoreView, t: StoreView, n: NodeView)
    requires
        store_view_wf(s),
        built_by_adding(s),
        n.id.0 == s.next_node_id,
        s.next_node_id < u64::MAX,
        t.nodes == s.nodes.insert(n.id.0, n),
        t.edges == s.edges,
        t.facts == push_under(s.facts, FactSubject::Node(n.id), n.provenance),
        t.next_node_id == s.next_node_id + 1,
        t.next_edge_id == s.next_edge_id,
        t.edge_external == s.edge_external,
        (n.external_id.len() == 0 && t.node_external == s.node_external) || (!s.node_external.contains_key(
            (n.namespace, n.external_id),
        ) && t.node_external == s.node_external.insert((n.namespace, n.external_id), n.id.0)),
    ensures
        built_by_adding(t),
{
    let id = n.id.0;
    assert(!s.nodes.contains_key(id));
    assert(!s.facts.contains_key(FactSubject::Node(n.id))) by {
        if s.facts.contains_key(FactSubject::Node(n.id)) {
            assert(subject_held(s, FactSubject::Node(n.id)));
        }
    }
    assert(list_or_empty(s.facts, FactSubject::Node(n.id)) =~= Seq::<ProvenanceView>::empty());
    assert forall|k: u64| #[trigger] t.nodes.contains_key(k) implies t.facts.contains_key(FactSubject::Node(NodeId(k)))
        && t.facts[FactSubject::Node(NodeId(k))].len() > 0 && t.facts[FactSubject::Node(NodeId(k))][0] == t.nodes[k].provenance by {
        if k != id {
            assert(s.nodes.contains_key(k));
            assert(FactSubject::Node(NodeId(k)) != FactSubject::Node(n.id));
        } else {
            assert(NodeId(k) == n.id);
        }
    }
    assert forall|k: u64| #[trigger] t.edges.contains_key(k) implies t.facts.contains_key(FactSubject::Edge(EdgeId(k)))
        && t.facts[FactSubject::Edge(EdgeId(k))].len() > 0 && t.facts[FactSubject::Edge(EdgeId(k))][0] == t.edges[k].provenance by {
        assert(s.edges.contains_key(k));
        assert(FactSubject::Edge(EdgeId(k)) != FactSubject::Node(n.id));
    }
    assert forall|k: FactSubject| #[trigger] t.facts.contains_key(k) implies subject_held(t, k) by {
        if k != FactSubject::Node(n.id) {
            assert(s.facts.contains_key(k));
            assert(subject_held(s, k));
        }
    }
    assert forall|k: u64| #[trigger] t.nodes.contains_key(k) && t.nodes[k].external_id.len() > 0 implies t.node_external.contains_key(
        (t.nodes[k].namespace, t.nodes[k].external_id),
    ) && t.node_external[(t.nodes[k].namespace, t.nodes[k].external_id)] == k by {
        if k != id {
            assert(s.nodes.contains_key(k));
            assert(s.node_external.contains_key((s.nodes[k].namespace, s.nodes[k].external_id)));
        }
    }
    assert(t.nodes.contains_key((t.next_node_id - 1) as u64));
}

/// Adding an edge under the next id, with its provenance as its first fact and, when it
/// has an external id not yet taken, found by it, keeps the shape.
pub proof fn adding_an_edge_keeps_built_by_adding(s: StoreView, t: StoreView, e: EdgeView)
    requires
        store_view_wf(s),
        built_by_adding(s),
        e.id.0 == s.next_edge_id,
        s.next_edge_id < u64::MAX,
        t.edges == s.edges.insert(e.id.0, e),
        t.nodes == s.nodes,
        t.facts == push_under(s.facts, FactSubject::Edge(e.id), e.provenance),
        t.next_edge_id == s.next_edge_id + 1,
        t.next_node_id == s.next_node_id,
        t.node_external == s.node_external,
        (e.external_id.len() == 0 && t.edge_external == s.edge_external) || (!s.edge_external.contains_key(
            (e.namespace, e.external_id),
        ) && t.edge_external == s.edge_external.insert((e.namespace, e.external_id), e.id.0)),
    ensures
        built_by_adding(t),
{
    let id = e.id.0;
    assert(!s.edges.contains_key(id));
    assert(!s.facts.contains_key(FactSubject::Edge(e.id))) by {
        if s.facts.contains_key(FactSubject::Edge(e.id)) {
            assert(subject_held(s, FactSubject::Edge(e.id)));
        }
    }
    assert(list_or_empty(s.facts, FactSubject::Edge(e.id)) =~= Seq::<ProvenanceView>::empty());
    assert forall|k: u64| #[trigger] t.edges.contains_key(k) implies t.facts.contains_key(FactSubject::Edge(EdgeId(k)))
        && t.facts[FactSubject::Edge(EdgeId(k))].len() > 0 && t.facts[FactSubject::Edge(EdgeId(k))][0] == t.edges[k].provenance by {
        if k != id {
            assert(s.edges.contains_key(k));
            assert(FactSubject::Edge(EdgeId(k)) != FactSubject::Edge(e.id));
        } else {
            assert(EdgeId(k) == e.id);
        }
    }
    assert forall|k: u64| #[trigger] t.nodes.contains_key(k) implies t.facts.contains_key(FactSubject::Node(NodeId(k)))
        && t.facts[FactSubject::Node(NodeId(k))].len() > 0 && t.facts[FactSubject::Node(NodeId(k))][0] == t.nodes[k].provenance by {
        assert(s.nodes.contains_key(k));
        assert(FactSubject::Node(NodeId(k)) != FactSubject::Edge(e.id));
    }
    assert forall|k: FactSubject| #[trigger] t.facts.contains_key(k) implies subject_held(t, k) by {
        if k != FactSubject::Edge(e.id) {
            assert(s.facts.contains_key(k));
            assert(subject_held(s, k));
        }
    }
    assert forall|k: u64| #[trigger] t.edges.contains_key(k) && t.edges[k].external_id.len() > 0 implies t.edge_external.contains_key(
        (t.edges[k].namespace, t.edges[k].external_id),
    ) && t.edge_external[(t.edges[k].namespace, t.edges[k].external_id)] == k by {
        if k != id {
            assert(s.edges.contains_key(k));
            assert(s.edge_external.contains_key((s.edges[k].namespace, s.edges[k].external_id)));
        }
    }
    assert(t.edges.contains_key((t.next_edge_id - 1) as u64));
}

/// Adding a fact about a record the store holds keeps the shape: the record's own
/// provenance stays its first fact.
pub proof fn adding_a_fact_keeps_built_by_adding(s: StoreView, subject: FactSubject, p: ProvenanceView)
    requires
        built_by_adding(s),
        subject_held(s, subject),
    ensures
        built_by_adding(StoreView { facts: push_under(s.facts, subject, p), ..s }),
{
    let t = StoreView { facts: push_under(s.facts, subject, p), ..s };
    assert(s.facts.contains_key(subject)) by {
        match subject {
            FactSubject::Node(n) => {
                assert(s.nodes.contains_key(n.0));
                assert(NodeId(n.0) == n);
            },
            FactSubject::Edge(e) => {
                assert(s.edges.contains_key(e.0));
                assert(EdgeId(e.0) == e);
            },
        }
    }
    assert forall|k: u64| #[trigger] t.nodes.contains_key(k) implies t.facts.contains_key(FactSubject::Node(NodeId(k)))
        && t.facts[FactSubject::Node(NodeId(k))].len() > 0 && t.facts[FactSubject::Node(NodeId(k))][0] == t.nodes[k].provenance by {
        assert(s.nodes.contains_key(k));
    }
    assert forall|k: u64| #[trigger] t.edges.contains_key(k) implies t.facts.contains_key(FactSubject::Edge(EdgeId(k)))
        && t.facts[FactSubject::Edge(EdgeId(k))].len() > 0 && t.facts[FactSubject::Edge(EdgeId(k))][0] == t.edges[k].provenance by {
        assert(s.edges.contains_key(k));
    }
    assert forall|k: FactSubject| #[trigger] t.facts.contains_key(k) implies subject_held(t, k) by {
        if k != subject {
            assert(s.facts.contains_key(k));
        }
    }
}

/// What is saved is what comes back. For a valid store whose id counters stand one past
/// the largest ids in use, whose records each lead their facts with their own provenance
/// and are found by their external ids, the blocks of any layout that `save_plan` may give, each paired with
/// its kind, pass every check made on load and rebuild into a store with the same string
/// table, nodes, edges, facts and next ids, the same records under every index key, and
/// the same records found by every non-empty external identity. (`Store::restore`
/// returns exactly the rebuilt store on such blocks.)
#[verifier::spinoff_prover]
pub proof fn saved_store_loads_back(s: StoreView, ps: Seq<BlockPayloadView>)
    requires
        store_view_wf(s),
        store_valid(s),
        counters_tight(s),
        facts_led_by_provenance(s),
        external_ids_indexed(s),
        save_layout(s, ps),
    ensures
        forall|i: int| 0 <= i < flat_nodes(with_kinds(ps)).len() ==> #[trigger] flat_nodes(with_kinds(ps))[i].id.0 < u64::MAX,
        forall|i: int| 0 <= i < flat_edges(with_kinds(ps)).len() ==> #[trigger] flat_edges(with_kinds(ps))[i].id.0 < u64::MAX,
        restore_outcome(s.strings, with_kinds(ps), Ok(rebuilt_view(s.strings, with_kinds(ps)))),
        same_contents(rebuilt_view(s.strings, with_kinds(ps)), s),
{
    let (nb, eb) = choose|nb: int, eb: int| #[trigger] save_layout_with(s, ps, nb, eb);
    let bv = with_kinds(ps);
    // the blocks pass
    lemma_blocks_ok(s, ps, nb, eb, 0);
    assert(bv.take(0) =~= Seq::<(BlockKind, BlockPayloadView)>::empty());
    assert(node_ids(flat_nodes(bv.take(0))) =~= Set::<u64>::empty());
    assert(edge_ids(flat_edges(bv.take(0))) =~= Set::<u64>::empty());
    // nodes and edges
    lemma_nodes_restored(s, ps, nb, eb);
    lemma_edges_restored(s, ps, nb, eb);
    let base = load_base(s.strings);
    let s1 = node_pass(base, flat_nodes(bv));
    let s2 = edge_pass(s1, flat_edges(bv));
    crate::snapshot::lemma_node_pass_frame(base, flat_nodes(bv));
    crate::snapshot::lemma_edge_pass_frame(s1, flat_edges(bv));
    assert(s2.nodes == s.nodes);
    assert(s2.strings == s.strings);
    // the facts: the extra facts block is the only one with facts
    let ff = |p: BlockPayloadView| block_facts(p);
    let last = nb + eb;
    assert forall|i: int| 0 <= i < bv.take(last).len() implies (#[trigger] ff(bv.take(last)[i].1)).len() == 0 by {
        assert(bv.take(last)[i].1 == ps[i]);
        if i < nb {
            assert(ps[i] is Nodes);
        } else {
            assert(ps[i] is Edges);
        }
    }
    lemma_flat_by_none(bv.take(last), ff);
    lemma_flat_by_push(bv, ff, last);
    assert(bv.take(last + 1) =~= bv);
    assert(bv[last].1 == ps[last]);
    let entries = ps[last]->entries;
    assert(flat_facts(bv) =~= entries);
    let subjects = choose|subjects: Seq<FactSubject>| subjects.no_duplicates() && subjects.to_set() == s.facts.dom()
        && entries == #[trigger] extra_facts_of(s, subjects);
    let c = canonical_facts(s2);
    assert forall|k: FactSubject| #[trigger] s.facts.contains_key(k) implies c.contains_key(k) && c[k] == seq![s.facts[k][0]] by {
        assert(crate::storage::fact_fault(s, k, s.facts[k]) is None);
        match k {
            FactSubject::Node(id) => {
                assert(s.nodes.contains_key(id.0));
                assert(NodeId(id.0) == id);
            },
            FactSubject::Edge(id) => {
                assert(s.edges.contains_key(id.0));
                assert(EdgeId(id.0) == id);
            },
        }
    }
    assert forall|k: FactSubject| #[trigger] c.contains_key(k) implies s.facts.contains_key(k) by {
        match k {
            FactSubject::Node(id) => {
                assert(s.nodes.contains_key(id.0));
                assert(NodeId(id.0) == id);
            },
            FactSubject::Edge(id) => {
                assert(s.edges.contains_key(id.0));
                assert(EdgeId(id.0) == id);
            },
        }
    }
    assert forall|i: int| 0 <= i < subjects.len() implies c.contains_key(#[trigger] subjects[i]) by {
        assert(subjects.to_set().contains(subjects[i]));
    }
    lemma_fact_pass_extras(c, s, subjects);
    let facts = fact_pass(c, extra_facts_of(s, subjects));
    assert forall|k: FactSubject| #[trigger] facts.contains_key(k) <==> s.facts.contains_key(k) by {}
    assert forall|k: FactSubject| #[trigger] s.facts.contains_key(k) implies facts[k] == s.facts[k] by {
        let list = s.facts[k];
        assert(subjects.to_set().contains(k));
        if list.len() > 1 {
            assert(seq![list[0]] + list.skip(1) =~= list);
        } else {
            assert(seq![list[0]] =~= list);
        }
    }
    assert(facts =~= s.facts);
    // no fact about a missing subject
    lemma_extra_facts_subjects(s, subjects);
    assert forall|i: int| 0 <= i < flat_facts(bv).len() implies !crate::snapshot::subject_missing(s2, #[trigger] flat_facts(bv)[i].0) by {
        let k = flat_facts(bv)[i].0;
        assert(subjects.contains(k));
        assert(subjects.to_set().contains(k));
        assert(c.contains_key(k));
    }
    // the rebuilt store
    let v = rebuilt_view(s.strings, bv);
    assert(v.facts == s.facts);
    assert(v.nodes == s.nodes);
    assert(v.edges == s.edges);
    assert(v.strings == s.strings);
    assert(store_valid(v));
}

/// Every store built by adding nodes, edges, and facts about records it holds, that is
/// valid, loads back with the same contents from any layout `save_plan` may give: its
/// blocks pass every check made on load and rebuild into a store with the same string
/// table, nodes, edges, facts and next ids, the same records under every index key, and
/// the same records found by every non-empty external identity.
pub proof fn built_store_loads_back(s: StoreView, ps: Seq<BlockPayloadView>)
    requires
        store_view_wf(s),
        store_valid(s),
        built_by_adding(s),
        save_layout(s, ps),
    ensures
        restore_outcome(s.strings, with_kinds(ps), Ok(rebuilt_view(s.strings, with_kinds(ps)))),
        same_contents(rebuilt_view(s.strings, with_kinds(ps)), s),
{
    saved_store_loads_back(s, ps);
}

} // verus!
