//! Breadth-first traversal over the graph store.

use crate::edge::EdgeView;
use crate::graph_maps::node_get;
use crate::id_sets::{node_set_insert, node_set_members, node_set_new};
use crate::id::{NodeId, RelationId};
use crate::query::{adjacent_edges, edge_refs_view, edges_of, relation_admits, QueryEngine};
use crate::store::{list_or_empty, store_view_wf, Store, StoreView};
use crate::value::{f32_bits_less, f32_bits_lt};
use vstd::prelude::*;

verus! {

/// An edge passes a confidence floor when there is none or its confidence is not below
/// it (an incomparable NaN is not below anything).
pub open spec fn confidence_admits(min_confidence: Option<u32>, e: EdgeView) -> bool {
    match min_confidence {
        Some(m) => !f32_bits_lt(e.provenance.confidence, m),
        None => true,
    }
}

/// An edge that passes the confidence floor and leads to `b`.
pub open spec fn leads_to(e: EdgeView, b: u64, min_confidence: Option<u32>) -> bool {
    confidence_admits(min_confidence, e) && e.dst.0 == b
}

/// One traversal step: some edge leaving `a` passes both filters and leads to `b`.
pub open spec fn bfs_step(s: StoreView, a: u64, b: u64, relation: Option<RelationId>, min_confidence: Option<u32>) -> bool {
    let out = adjacent_edges(s, s.outgoing, NodeId(a), relation);
    exists|j: int| 0 <= j < out.len() && #[trigger] leads_to(out[j], b, min_confidence)
}

/// The raw node ids of a traversal result.
pub open spec fn bfs_nodes(r: Seq<(NodeId, usize)>) -> Seq<u64> {
    r.map_values(|p: (NodeId, usize)| p.0.0)
}

/// Whether a traversal result lists node `b` at depth at most `d`.
pub open spec fn lists_within(r: Seq<(NodeId, usize)>, b: u64, d: int) -> bool {
    exists|j: int| 0 <= j < r.len() && #[trigger] r[j].0.0 == b && r[j].1 <= d
}

/// Depths never decrease along a traversal result.
pub open spec fn bfs_monotone(r: Seq<(NodeId, usize)>) -> bool {
    forall|i: int, j: int| 0 <= i < j < r.len() ==> r[i].1 <= r[j].1
}

/// No depth in a traversal result exceeds `max_depth`.
pub open spec fn bfs_bounded(r: Seq<(NodeId, usize)>, max_depth: usize) -> bool {
    forall|i: int| 0 <= i < r.len() ==> #[trigger] r[i].1 <= max_depth
}

/// Entry `j` is one step from entry `i` and one level below it.
pub open spec fn bfs_parent(s: StoreView, relation: Option<RelationId>, min_confidence: Option<u32>, r: Seq<(NodeId, usize)>, i: int, j: int) -> bool {
    r[j].1 == r[i].1 + 1 && bfs_step(s, r[i].0.0, r[j].0.0, relation, min_confidence)
}

/// Entry `j` is one step from some earlier entry a level above it.
pub open spec fn bfs_has_parent(s: StoreView, relation: Option<RelationId>, min_confidence: Option<u32>, r: Seq<(NodeId, usize)>, j: int) -> bool {
    exists|i: int| 0 <= i < j && #[trigger] bfs_parent(s, relation, min_confidence, r, i, j)
}

/// Each entry after the first is one step from an earlier entry a level above it.
pub open spec fn bfs_sound(s: StoreView, relation: Option<RelationId>, min_confidence: Option<u32>, r: Seq<(NodeId, usize)>) -> bool {
    forall|j: int| 0 < j < r.len() ==> #[trigger] bfs_has_parent(s, relation, min_confidence, r, j)
}

/// Every step out of one of the first `done` entries, when that entry lies above
/// `max_depth`, reaches a listed node at most one level below it.
pub open spec fn bfs_closed(
    s: StoreView,
    max_depth: usize,
    relation: Option<RelationId>,
    min_confidence: Option<u32>,
    r: Seq<(NodeId, usize)>,
    done: int,
) -> bool {
    forall|i: int, b: u64| 0 <= i < done && i < r.len() && r[i].1 < max_depth && #[trigger] bfs_step(s, r[i].0.0, b, relation, min_confidence)
        ==> lists_within(r, b, r[i].1 + 1)
}

/// What a traversal has built once the first `done` entries have been expanded: the
/// start at depth 0 first, each node once, depths never decreasing and at most
/// `max_depth`, each later node one step from an earlier one a level above it, and every
/// step out of an expanded node above `max_depth` reaching a listed node at most one
/// level down.
pub open spec fn bfs_partial(
    s: StoreView,
    start: NodeId,
    max_depth: usize,
    relation: Option<RelationId>,
    min_confidence: Option<u32>,
    r: Seq<(NodeId, usize)>,
    done: int,
) -> bool {
    &&& r.len() > 0
    &&& r[0] == (start, 0usize)
    &&& bfs_nodes(r).no_duplicates()
    &&& bfs_monotone(r)
    &&& bfs_bounded(r, max_depth)
    &&& bfs_sound(s, relation, min_confidence, r)
    &&& bfs_closed(s, max_depth, relation, min_confidence, r, done)
}

/// What a breadth-first traversal returns: nothing without the start node; otherwise a
/// result with every entry expanded.
pub open spec fn bfs_result(
    s: StoreView,
    start: NodeId,
    max_depth: usize,
    relation: Option<RelationId>,
    min_confidence: Option<u32>,
    r: Seq<(NodeId, usize)>,
) -> bool {
    if !s.nodes.contains_key(start.0) {
        r.len() == 0
    } else {
        bfs_partial(s, start, max_depth, relation, min_confidence, r, r.len() as int)
    }
}

/// Every node a traversal can list: the start and the targets of the store's edges.
pub open spec fn bfs_universe(s: StoreView, start: NodeId) -> Set<u64> {
    s.edges.dom().map(|k: u64| s.edges[k].dst.0).insert(start.0)
}

proof fn lemma_adjacent_target_in_universe(s: StoreView, start: NodeId, n: NodeId, relation: Option<RelationId>, k: int)
    requires
        store_view_wf(s),
        0 <= k < adjacent_edges(s, s.outgoing, n, relation).len(),
    ensures
        bfs_universe(s, start).contains(adjacent_edges(s, s.outgoing, n, relation)[k].dst.0),
{
    let list = list_or_empty(s.outgoing, n.0);
    let all = edges_of(s, list);
    let pred = |e: EdgeView| relation_admits(relation, e);
    let e = all.filter(pred)[k];
    assert(all.filter(pred).contains(e));
    all.lemma_filter_contains_rev(pred, e);
    let m = choose|m: int| 0 <= m < all.len() && all[m] == e;
    assert(s.outgoing.contains_key(n.0));
    assert(s.edges.contains_key(list[m].0));
    assert(s.edges.dom().map(|k: u64| s.edges[k].dst.0).contains(e.dst.0)) by {
        assert(s.edges[list[m].0] == e);
    }
}

proof fn lemma_bfs_nodes_push(r: Seq<(NodeId, usize)>, x: (NodeId, usize))
    ensures
        bfs_nodes(r.push(x)) == bfs_nodes(r).push(x.0.0),
        bfs_nodes(r.push(x)).to_set() == bfs_nodes(r).to_set().insert(x.0.0),
{
    broadcast use vstd::seq_lib::group_seq_properties;
    assert(bfs_nodes(r.push(x)) =~= bfs_nodes(r).push(x.0.0));
}

/// Listing a new node one level below an entry it is one step from keeps what the
/// traversal has built.
proof fn lemma_partial_push(
    s: StoreView,
    start: NodeId,
    max_depth: usize,
    relation: Option<RelationId>,
    min_confidence: Option<u32>,
    r: Seq<(NodeId, usize)>,
    done: int,
    h: int,
    x: (NodeId, usize),
    r2: Seq<(NodeId, usize)>,
)
    requires
        r2 == r.push(x),
        bfs_partial(s, start, max_depth, relation, min_confidence, r, done),
        0 <= h < r.len(),
        done <= r.len(),
        !bfs_nodes(r).to_set().contains(x.0.0),
        x.1 == r[h].1 + 1,
        x.1 <= max_depth,
        r.last().1 <= x.1,
        bfs_step(s, r[h].0.0, x.0.0, relation, min_confidence),
    ensures
        bfs_partial(s, start, max_depth, relation, min_confidence, r2, done),
{
    lemma_bfs_nodes_push(r, x);
    assert(bfs_nodes(r2).no_duplicates()) by {
        assert forall|a: int, b: int| 0 <= a < b < r2.len() implies bfs_nodes(r2)[a] != bfs_nodes(r2)[b] by {
            if b == r2.len() - 1 {
                assert(bfs_nodes(r).contains(bfs_nodes(r)[a]));
            } else {
                assert(bfs_nodes(r)[a] != bfs_nodes(r)[b]);
            }
        }
    }
    assert(bfs_monotone(r2)) by {
        assert forall|i: int, j: int| 0 <= i < j < r2.len() implies r2[i].1 <= r2[j].1 by {
            if j == r2.len() - 1 && i < r.len() - 1 {
                assert(r[i].1 <= r[r.len() - 1].1);
            }
        }
    }
    assert(bfs_bounded(r2, max_depth));
    assert(bfs_sound(s, relation, min_confidence, r2)) by {
        assert forall|j: int| 0 < j < r2.len() implies #[trigger] bfs_has_parent(s, relation, min_confidence, r2, j) by {
            if j == r2.len() - 1 {
                assert(r2[h] == r[h]);
                assert(bfs_parent(s, relation, min_confidence, r2, h, j));
            } else {
                assert(r2[j] == r[j]);
                assert(bfs_has_parent(s, relation, min_confidence, r, j));
                let i = choose|i: int| 0 <= i < j && #[trigger] bfs_parent(s, relation, min_confidence, r, i, j);
                assert(r2[i] == r[i]);
                assert(r2[j] == r[j]);
                assert(bfs_parent(s, relation, min_confidence, r2, i, j));
            }
        }
    }
    assert(bfs_closed(s, max_depth, relation, min_confidence, r2, done)) by {
    assert forall|i: int, b: u64| 0 <= i < done && i < r2.len() && r2[i].1 < max_depth && #[trigger] bfs_step(s, r2[i].0.0, b, relation, min_confidence)
        implies lists_within(r2, b, r2[i].1 + 1) by {
        assert(r2[i] == r[i]);
        assert(lists_within(r, b, r[i].1 + 1));
        let k = choose|k: int| 0 <= k < r.len() && #[trigger] r[k].0.0 == b && r[k].1 <= r[i].1 + 1;
        assert(r2[k] == r[k]);
    }
    }
}

/// Once every edge out of entry `h` has been followed, entry `h` counts as expanded.
proof fn lemma_partial_expand(
    s: StoreView,
    start: NodeId,
    max_depth: usize,
    relation: Option<RelationId>,
    min_confidence: Option<u32>,
    r: Seq<(NodeId, usize)>,
    h: int,
)
    requires
        bfs_partial(s, start, max_depth, relation, min_confidence, r, h),
        0 <= h < r.len(),
        r[h].1 < max_depth ==> {
            let out = adjacent_edges(s, s.outgoing, r[h].0, relation);
            forall|m: int| 0 <= m < out.len() && #[trigger] leads_to(out[m], out[m].dst.0, min_confidence)
                ==> lists_within(r, out[m].dst.0, r[h].1 + 1)
        },
    ensures
        bfs_partial(s, start, max_depth, relation, min_confidence, r, h + 1),
{
    assert(bfs_closed(s, max_depth, relation, min_confidence, r, h + 1)) by {
        assert forall|i: int, b: u64| 0 <= i < h + 1 && i < r.len() && r[i].1 < max_depth && #[trigger] bfs_step(s, r[i].0.0, b, relation, min_confidence)
            implies lists_within(r, b, r[i].1 + 1) by {
            if i == h {
                let out = adjacent_edges(s, s.outgoing, r[h].0, relation);
                assert(NodeId(r[h].0.0) == r[h].0);
                let m = choose|m: int| 0 <= m < out.len() && #[trigger] leads_to(out[m], b, min_confidence);
                assert(leads_to(out[m], out[m].dst.0, min_confidence));
            }
        }
    }
}

/// A result without repeats, inside a finite set, is no longer than that set.
proof fn lemma_len_within_universe(r: Seq<(NodeId, usize)>, universe: Set<u64>)
    requires
        bfs_nodes(r).no_duplicates(),
        bfs_nodes(r).to_set().subset_of(universe),
        universe.finite(),
    ensures
        r.len() <= universe.len(),
{
    bfs_nodes(r).unique_seq_to_set();
    vstd::set_lib::lemma_len_subset(bfs_nodes(r).to_set(), universe);
}

impl<'a> QueryEngine<'a> {
    /// Follows the edges out of one listed entry at `depth` (below `max_depth`), listing
    /// each target not yet visited one level down.
    fn expand_entry(
        &self,
        visited: &mut ahash::AHashSet<NodeId>,
        result: &mut Vec<(NodeId, usize)>,
        h: usize,
        max_depth: usize,
        relation_filter: Option<RelationId>,
        min_confidence: Option<u32>,
        Ghost(start): Ghost<NodeId>,
        Ghost(universe): Ghost<Set<u64>>,
    )
        requires
            self.wf(),
            store_view_wf(self@),
            universe == bfs_universe(self@, start),
            universe.finite(),
            bfs_partial(self@, start, max_depth, relation_filter, min_confidence, old(result)@, h as int),
            h < old(result)@.len(),
            old(result)@[h as int].1 < max_depth,
            old(result)@.last().1 <= old(result)@[h as int].1 + 1,
            node_set_members(*old(visited)) == bfs_nodes(old(result)@).to_set(),
            bfs_nodes(old(result)@).to_set().subset_of(universe),
        ensures
            bfs_partial(self@, start, max_depth, relation_filter, min_confidence, final(result)@, h + 1),
            old(result)@.len() <= final(result)@.len(),
            forall|k: int| 0 <= k < old(result)@.len() ==> #[trigger] final(result)@[k] == old(result)@[k],
            final(result)@.last().1 <= old(result)@[h as int].1 + 1,
            node_set_members(*final(visited)) == bfs_nodes(final(result)@).to_set(),
            bfs_nodes(final(result)@).to_set().subset_of(universe),
    {
        let ghost sv = self@;
        let current = result[h].0;
        let depth = result[h].1;
        let edges = self.outgoing(current, relation_filter);
        let ghost out = adjacent_edges(sv, sv.outgoing, current, relation_filter);
        let ghost before = result@;
        let mut j: usize = 0;
        while j < edges.len()
            invariant
                sv == self@,
                store_view_wf(sv),
                universe == bfs_universe(sv, start),
                universe.finite(),
                edge_refs_view(edges@) == out,
                out == adjacent_edges(sv, sv.outgoing, current, relation_filter),
                j <= edges@.len(),
                h < before.len(),
                before[h as int] == (current, depth),
                depth < max_depth,
                before.len() <= result@.len(),
                forall|k: int| 0 <= k < before.len() ==> #[trigger] result@[k] == before[k],
                bfs_partial(sv, start, max_depth, relation_filter, min_confidence, result@, h as int),
                result@.last().1 <= depth + 1,
                node_set_members(*visited) == bfs_nodes(result@).to_set(),
                bfs_nodes(result@).to_set().subset_of(universe),
                forall|m: int| 0 <= m < j && #[trigger] leads_to(out[m], out[m].dst.0, min_confidence)
                    ==> lists_within(result@, out[m].dst.0, depth + 1),
            decreases edges@.len() - j,
        {
            let edge = edges[j];
            proof {
                assert(edge@ == out[j as int]);
            }
            let skip = match min_confidence {
                Some(m) => f32_bits_less(edge.provenance.confidence, m),
                None => false,
            };
            let ghost prev = result@;
            if !skip {
                let next = edge.dst;
                let fresh = node_set_insert(visited, next);
                if fresh {
                    proof {
                        assert(leads_to(out[j as int], next.0, min_confidence));
                        assert(bfs_step(sv, prev[h as int].0.0, next.0, relation_filter, min_confidence));
                        lemma_partial_push(sv, start, max_depth, relation_filter, min_confidence, prev, h as int, h as int, (next, (depth + 1) as usize), prev.push((next, (depth + 1) as usize)));
                        lemma_bfs_nodes_push(prev, (next, (depth + 1) as usize));
                        lemma_adjacent_target_in_universe(sv, start, current, relation_filter, j as int);
                    }
                    result.push((next, depth + 1));
                    proof {
                        let last = result@.len() - 1;
                        assert(result@[last].0.0 == next.0);
                        assert forall|m: int| 0 <= m < j + 1 && #[trigger] leads_to(out[m], out[m].dst.0, min_confidence)
                            implies lists_within(result@, out[m].dst.0, depth + 1) by {
                            if m == j {
                                assert(result@[last].0.0 == out[m].dst.0);
                            } else {
                                let k = choose|k: int| 0 <= k < prev.len() && #[trigger] prev[k].0.0 == out[m].dst.0 && prev[k].1 <= depth + 1;
                                assert(result@[k] == prev[k]);
                            }
                        }
                    }
                } else {
                    proof {
                        assert(bfs_nodes(prev).to_set().contains(next.0));
                        let k = choose|k: int| 0 <= k < bfs_nodes(prev).len() && bfs_nodes(prev)[k] == next.0;
                        assert(prev[k].0.0 == next.0);
                        assert(prev[k].1 <= prev[prev.len() - 1].1);
                        assert(node_set_members(*visited) =~= bfs_nodes(result@).to_set());
                        assert forall|m: int| 0 <= m < j + 1 && #[trigger] leads_to(out[m], out[m].dst.0, min_confidence)
                            implies lists_within(result@, out[m].dst.0, depth + 1) by {
                            if m == j {
                                assert(result@[k].0.0 == out[m].dst.0);
                            }
                        }
                    }
                }
            } else {
                proof {
                    assert(!leads_to(out[j as int], out[j as int].dst.0, min_confidence));
                }
            }
            j = j + 1;
        }
        proof {
            assert(result@[h as int] == before[h as int]);
            lemma_partial_expand(sv, start, max_depth, relation_filter, min_confidence, result@, h as int);
        }
    }

    /// Breadth-first traversal from `start` along outgoing edges that pass the relation
    /// filter and the confidence floor (an `f32` given by its bits), down to `max_depth`
    /// levels, listing each node reached with its depth.
    pub fn bfs(&self, start: NodeId, max_depth: usize, relation_filter: Option<RelationId>, min_confidence: Option<u32>) -> (r: Vec<(NodeId, usize)>)
        requires
            self.wf(),
        ensures
            bfs_result(self@, start, max_depth, relation_filter, min_confidence, r@),
    {
        let store: &'a Store = self.store;
        proof {
            self.lemma_engine_fields();
            store.lemma_view_fields();
        }
        let ghost sv = self@;
        if node_get(&store.nodes, &start).is_none() {
            return Vec::new();
        }
        let ghost universe = bfs_universe(sv, start);
        proof {
            sv.edges.dom().lemma_map_finite(|k: u64| sv.edges[k].dst.0);
        }
        let mut visited = node_set_new();
        node_set_insert(&mut visited, start);
        let mut result: Vec<(NodeId, usize)> = Vec::new();
        result.push((start, 0));
        proof {
            lemma_bfs_nodes_push(Seq::empty(), (start, 0usize));
            assert(bfs_nodes(Seq::<(NodeId, usize)>::empty()) =~= Seq::empty());
            assert(node_set_members(visited) =~= bfs_nodes(result@).to_set());
            assert(bfs_nodes(result@).no_duplicates());
            assert(bfs_nodes(result@).to_set().subset_of(universe));
            lemma_len_within_universe(result@, universe);
        }
        let mut head: usize = 0;
        while head < result.len()
            invariant
                sv == self@,
                sv == store@,
                self.wf(),
                store.wf(),
                store_view_wf(sv),
                sv.nodes.contains_key(start.0),
                universe == bfs_universe(sv, start),
                universe.finite(),
                head <= result@.len(),
                result@.len() <= universe.len(),
                bfs_partial(sv, start, max_depth, relation_filter, min_confidence, result@, head as int),
                head < result@.len() ==> result@.last().1 <= result@[head as int].1 + 1,
                node_set_members(visited) == bfs_nodes(result@).to_set(),
                bfs_nodes(result@).to_set().subset_of(universe),
            decreases universe.len() - head,
        {
            let depth = result[head].1;
            let ghost before = result@;
            if depth < max_depth {
                self.expand_entry(&mut visited, &mut result, head, max_depth, relation_filter, min_confidence, Ghost(start), Ghost(universe));
            } else {
                proof {
                    lemma_partial_expand(sv, start, max_depth, relation_filter, min_confidence, result@, head as int);
                }
            }
            proof {
                lemma_len_within_universe(result@, universe);
                if head + 1 < result@.len() {
                    assert(result@[head as int] == before[head as int]);
                    assert(result@[head as int].1 <= result@[head + 1].1);
                }
            }
            head = head + 1;
        }
        result
    }
}



/// Consecutive nodes of `p` are joined by traversal steps.
pub open spec fn is_step_path(s: StoreView, p: Seq<u64>, relation: Option<RelationId>, min_confidence: Option<u32>) -> bool {
    forall|t: int| 0 <= t < p.len() - 1 ==> #[trigger] bfs_step(s, p[t], p[t + 1], relation, min_confidence)
}

/// Node `b` can be reached from `a` in at most `k` traversal steps.
pub open spec fn reachable_within(
    s: StoreView,
    a: u64,
    b: u64,
    k: nat,
    relation: Option<RelationId>,
    min_confidence: Option<u32>,
) -> bool {
    exists|p: Seq<u64>|
        #![trigger is_step_path(s, p, relation, min_confidence)]
        1 <= p.len() <= k + 1 && p[0] == a && p.last() == b && is_step_path(s, p, relation, min_confidence)
}

/// Each listed entry is reached by a path as long as its depth.
proof fn lemma_listed_path(
    s: StoreView,
    start: NodeId,
    max_depth: usize,
    relation: Option<RelationId>,
    min_confidence: Option<u32>,
    r: Seq<(NodeId, usize)>,
    j: int,
) -> (p: Seq<u64>)
    requires
        bfs_partial(s, start, max_depth, relation, min_confidence, r, r.len() as int),
        0 <= j < r.len(),
    ensures
        p.len() == r[j].1 + 1,
        p[0] == start.0,
        p.last() == r[j].0.0,
        is_step_path(s, p, relation, min_confidence),
    decreases j,
{
    if j == 0 {
        seq![start.0]
    } else {
        assert(bfs_has_parent(s, relation, min_confidence, r, j));
        let i = choose|i: int| 0 <= i < j && #[trigger] bfs_parent(s, relation, min_confidence, r, i, j);
        let q = lemma_listed_path(s, start, max_depth, relation, min_confidence, r, i);
        let p = q.push(r[j].0.0);
        assert forall|t: int| 0 <= t < p.len() - 1 implies #[trigger] bfs_step(s, p[t], p[t + 1], relation, min_confidence) by {
            if t < q.len() - 1 {
                assert(bfs_step(s, q[t], q[t + 1], relation, min_confidence));
            }
        }
        p
    }
}

/// Along a path from the start, the node at position `t` (below `max_depth`) is listed
/// at depth at most `t`.
proof fn lemma_path_listed(
    s: StoreView,
    start: NodeId,
    max_depth: usize,
    relation: Option<RelationId>,
    min_confidence: Option<u32>,
    r: Seq<(NodeId, usize)>,
    p: Seq<u64>,
    t: int,
)
    requires
        bfs_partial(s, start, max_depth, relation, min_confidence, r, r.len() as int),
        1 <= p.len(),
        p[0] == start.0,
        is_step_path(s, p, relation, min_confidence),
        0 <= t < p.len(),
        t <= max_depth,
    ensures
        lists_within(r, p[t], t),
    decreases t,
{
    if t == 0 {
        assert(r[0].0.0 == p[0]);
    } else {
        lemma_path_listed(s, start, max_depth, relation, min_confidence, r, p, t - 1);
        let i = choose|i: int| 0 <= i < r.len() && #[trigger] r[i].0.0 == p[t - 1] && r[i].1 <= t - 1;
        let u = t - 1;
        assert(bfs_step(s, p[u], p[u + 1], relation, min_confidence));
        assert(u + 1 == t);
        assert(bfs_step(s, r[i].0.0, p[t], relation, min_confidence));
        let j = choose|j: int| 0 <= j < r.len() && #[trigger] r[j].0.0 == p[t] && r[j].1 <= r[i].1 + 1;
        assert(r[j].0.0 == p[t] && r[j].1 <= t);
    }
}

/// A breadth-first traversal lists exactly the nodes reachable from the start within
/// `max_depth` steps, each at its distance: an entry at depth `d` is reachable in `d`
/// steps and in no fewer, and every node reachable in `k <= max_depth` steps is listed
/// at a depth of at most `k`.
pub proof fn bfs_depths_are_distances(
    s: StoreView,
    start: NodeId,
    max_depth: usize,
    relation: Option<RelationId>,
    min_confidence: Option<u32>,
    r: Seq<(NodeId, usize)>,
)
    requires
        bfs_result(s, start, max_depth, relation, min_confidence, r),
        s.nodes.contains_key(start.0),
    ensures
        forall|j: int| 0 <= j < r.len() ==> #[trigger] reachable_within(s, start.0, r[j].0.0, r[j].1 as nat, relation, min_confidence),
        forall|j: int, k: nat| 0 <= j < r.len() && k < r[j].1 ==> !#[trigger] reachable_within(s, start.0, r[j].0.0, k, relation, min_confidence),
        forall|b: u64, k: nat| k <= max_depth && #[trigger] reachable_within(s, start.0, b, k, relation, min_confidence) ==> lists_within(r, b, k as int),
{
    assert forall|j: int| 0 <= j < r.len() implies #[trigger] reachable_within(s, start.0, r[j].0.0, r[j].1 as nat, relation, min_confidence) by {
        let p = lemma_listed_path(s, start, max_depth, relation, min_confidence, r, j);
        assert(is_step_path(s, p, relation, min_confidence));
    }
    assert forall|b: u64, k: nat| k <= max_depth && #[trigger] reachable_within(s, start.0, b, k, relation, min_confidence) implies lists_within(r, b, k as int) by {
        let p = choose|p: Seq<u64>| #![trigger is_step_path(s, p, relation, min_confidence)]
            1 <= p.len() <= k + 1 && p[0] == start.0 && p.last() == b && is_step_path(s, p, relation, min_confidence);
        lemma_path_listed(s, start, max_depth, relation, min_confidence, r, p, p.len() - 1);
        let j = choose|j: int| 0 <= j < r.len() && #[trigger] r[j].0.0 == b && r[j].1 <= p.len() - 1;
        assert(r[j].0.0 == b && r[j].1 <= k);
    }
    assert forall|j: int, k: nat| 0 <= j < r.len() && k < r[j].1 implies !#[trigger] reachable_within(s, start.0, r[j].0.0, k, relation, min_confidence) by {
        if reachable_within(s, start.0, r[j].0.0, k, relation, min_confidence) {
            assert(r[j].1 <= max_depth);
            assert(lists_within(r, r[j].0.0, k as int));
            let i = choose|i: int| 0 <= i < r.len() && #[trigger] r[i].0.0 == r[j].0.0 && r[i].1 <= k;
            assert(bfs_nodes(r)[i] == bfs_nodes(r)[j]);
        }
    }
}

} // verus!
