//! Queries over the graph store: exact lookups, paging, traversal, and facts.

use crate::edge::{Edge, EdgeView};
use crate::fact::FactSubject;
use crate::graph_maps::{
    adjacency_entries, adjacency_get, edge_entries, edge_get, fact_entries, fact_get,
    label_index_entries, label_index_get, node_entries, node_get, node_keys, provenances_view,
    relation_index_entries, relation_index_get,
};
use crate::id::{EdgeId, KeyId, LabelId, NodeId, RelationId};
use crate::identity::{append_hex16, hex16, NamespaceId};
use crate::node::{Node, NodeView};
use crate::provenance::{Provenance, ProvenanceView};
use crate::value::{
    f32_bits_less, f32_bits_lt, f32_bits_nan, f64_bits_finite, f64_bits_is_finite, props_view, Scalar, ScalarView,
};
use crate::store::{list_or_empty, store_view_wf, Store, StoreView};
use vstd::prelude::*;
use vstd::string::*;

verus! {

/// Largest number of nodes a single page holds.
pub const MAX_PAGE: usize = 10_000;

/// A request for one page of nodes.
#[derive(Debug)]
pub struct NodeQuery {
    pub namespace: Option<NamespaceId>,
    pub label: Option<LabelId>,
    pub created_after: Option<u64>,
    pub created_before: Option<u64>,
    pub limit: usize,
    pub cursor: Option<String>,
}

impl Default for NodeQuery {
    fn default() -> (q: Self)
        ensures
            q.namespace is None,
            q.label is None,
            q.created_after is None,
            q.created_before is None,
            q.limit == 0,
            q.cursor is None,
    {
        NodeQuery { namespace: None, label: None, created_after: None, created_before: None, limit: 0, cursor: None }
    }
}

/// One page of nodes, and the cursor of the next page when there is one.
pub struct NodePage<'a> {
    pub entries: Vec<&'a Node>,
    pub next_cursor: Option<String>,
}

/// The cursor text of a position: both numbers in 16-digit lowercase hexadecimal.
pub open spec fn cursor_text(created_at: u64, id: u64) -> Seq<char> {
    hex16(created_at) + hex16(id)
}

/// Renders the cursor of a position.
pub fn format_cursor(created_at: u64, id: u64) -> (r: String)
    ensures
        r@ == cursor_text(created_at, id),
{
    let mut out = String::new();
    append_hex16(&mut out, created_at);
    append_hex16(&mut out, id);
    proof {
        assert(out@ =~= cursor_text(created_at, id));
    }
    out
}

/// The value of a hexadecimal digit byte, or -1.
pub open spec fn hex_digit_value(b: u8) -> int {
    if 48 <= b <= 57 {
        b - 48
    } else if 97 <= b <= 102 {
        b - 87
    } else if 65 <= b <= 70 {
        b - 55
    } else {
        -1
    }
}

/// Every byte of `s` is a hexadecimal digit.
pub open spec fn all_hex(s: Seq<u8>) -> bool {
    forall|i: int| 0 <= i < s.len() ==> hex_digit_value(#[trigger] s[i]) >= 0
}

/// The number the hexadecimal digits of `s` denote.
pub open spec fn hex_number(s: Seq<u8>) -> nat
    decreases s.len(),
{
    if s.len() == 0 {
        0
    } else {
        hex_number(s.drop_last()) * 16 + hex_digit_value(s.last()) as nat
    }
}

/// `16` to the power `n`.
pub open spec fn pow16(n: nat) -> nat
    decreases n,
{
    if n == 0 {
        1
    } else {
        16 * pow16((n - 1) as nat)
    }
}

/// How `u64::from_str_radix(_, 16)` reads `s`: an optional `+`, then at least one
/// hexadecimal digit; `None` otherwise. (At most 16 digits are ever given here, so the
/// value always fits.)
pub open spec fn parse_hex(s: Seq<u8>) -> Option<u64> {
    let digits = if s.len() > 0 && s[0] == 43 { s.drop_first() } else { s };
    if digits.len() > 0 && all_hex(digits) {
        Some(hex_number(digits) as u64)
    } else {
        None
    }
}

/// The position a cursor names, read from its 32 bytes as two 16-byte hexadecimal
/// numbers; `None` for any other length or unreadable halves.
pub open spec fn parse_cursor_spec(bytes: Seq<u8>) -> Option<(u64, u64)> {
    if bytes.len() != 32 {
        None
    } else {
        match (parse_hex(bytes.subrange(0, 16)), parse_hex(bytes.subrange(16, 32))) {
            (Some(a), Some(b)) => Some((a, b)),
            _ => None,
        }
    }
}

/// The number the leading `k` hexadecimal digits of `x` (of 16) denote.
pub open spec fn top_nibbles(x: u64, k: nat) -> nat {
    if k == 0 {
        0
    } else {
        (x >> ((64 - 4 * k) as u64)) as nat
    }
}

proof fn lemma_top_nibbles_step(x: u64, k: nat)
    requires
        k < 16,
    ensures
        top_nibbles(x, k + 1) == top_nibbles(x, k) * 16 + ((x >> ((60 - 4 * k) as u64)) & 15u64),
{
    let s: u64 = (60 - 4 * k) as u64;
    let y = x >> s;
    if k == 0 {
        assert(s == 60);
        assert(y & 15u64 == y) by (bit_vector)
            requires
                y == x >> 60u64,
        ;
    } else {
        assert(s + 4 == (64 - 4 * k) as u64);
        assert(y == (y >> 4u64) * 16 + (y & 15u64)) by (bit_vector);
        assert((x >> s) >> 4u64 == x >> ((s + 4) as u64)) by (bit_vector)
            requires
                s <= 56,
        ;
    }
}

/// The byte of a digit of `hex16` reads back as that digit.
proof fn lemma_hex_char_value(d: u64)
    requires
        d < 16,
    ensures
        hex_digit_value(crate::identity::hex_char(d) as u8) == d,
{
}

/// The leading `k` bytes of `hex16(x)` read back as its leading `k` digits.
proof fn lemma_hex_prefix(x: u64, bytes: Seq<u8>, k: nat)
    requires
        bytes.len() == 16,
        k <= 16,
        forall|i: int| 0 <= i < 16 ==> hex_digit_value(#[trigger] bytes[i]) == (x >> ((60 - 4 * i) as u64)) & 15u64,
    ensures
        hex_number(bytes.take(k as int)) == top_nibbles(x, k),
    decreases k,
{
    if k > 0 {
        let j = (k - 1) as nat;
        lemma_hex_prefix(x, bytes, j);
        assert(bytes.take(k as int).drop_last() =~= bytes.take(j as int));
        assert(bytes.take(k as int).last() == bytes[j as int]);
        lemma_top_nibbles_step(x, j);
    } else {
        assert(bytes.take(0) =~= Seq::<u8>::empty());
    }
}

/// The bytes of `hex16(x)` read back as `x`.
proof fn lemma_hex16_reads_back(x: u64, bytes: Seq<u8>)
    requires
        bytes.len() == 16,
        forall|i: int| 0 <= i < 16 ==> bytes[i] == #[trigger] hex16(x)[i] as u8,
    ensures
        all_hex(bytes),
        hex_number(bytes) == x,
        bytes[0] != 43,
{
    assert forall|i: int| 0 <= i < 16 implies hex_digit_value(#[trigger] bytes[i]) == (x >> ((60 - 4 * i) as u64)) & 15u64 by {
        let sh: u64 = (60 - 4 * i) as u64;
        let d = (x >> sh) & 15u64;
        assert(d < 16) by (bit_vector)
            requires
                d == (x >> sh) & 15u64,
        ;
        assert(hex16(x)[i] == crate::identity::hex_char(d));
        lemma_hex_char_value(d);
    }
    lemma_hex_prefix(x, bytes, 16);
    assert(bytes.take(16) =~= bytes);
    assert(top_nibbles(x, 16) == x) by {
        assert(x >> 0u64 == x) by (bit_vector);
    }
    assert(hex_digit_value(bytes[0]) >= 0);
}

/// A cursor reads back as the position it was made from: parsing the text of
/// `format_cursor(created_at, id)` gives `(created_at, id)`, and such a text can be split
/// where the reader splits it.
pub proof fn cursor_reads_back(created_at: u64, id: u64)
    ensures
        parse_cursor_spec(vstd::utf8::encode_utf8(cursor_text(created_at, id))) == Some((created_at, id)),
        cursor_splittable(cursor_text(created_at, id)),
{
    let chars = cursor_text(created_at, id);
    assert forall|i: int| 0 <= i < chars.len() implies '\0' <= #[trigger] chars[i] <= '\u{7f}' by {
        let x = if i < 16 { created_at } else { id };
        let j = if i < 16 { i } else { i - 16 };
        assert(chars[i] == hex16(x)[j]);
        let sh: u64 = (60 - 4 * j) as u64;
        let d = (x >> sh) & 15u64;
        assert(d < 16) by (bit_vector)
            requires
                d == (x >> sh) & 15u64,
        ;
        assert(hex16(x)[j] == crate::identity::hex_char(d));
    }
    assert(vstd::utf8::is_ascii_chars(chars));
    vstd::utf8::is_ascii_chars_encode_utf8(chars);
    let bytes = vstd::utf8::encode_utf8(chars);
    assert(bytes.len() == 32);
    let first = bytes.subrange(0, 16);
    let second = bytes.subrange(16, 32);
    assert forall|i: int| 0 <= i < 16 implies first[i] == #[trigger] hex16(created_at)[i] as u8 by {
        assert(first[i] == bytes[i]);
        assert(chars[i] == hex16(created_at)[i]);
    }
    assert forall|i: int| 0 <= i < 16 implies second[i] == #[trigger] hex16(id)[i] as u8 by {
        assert(second[i] == bytes[i + 16]);
        assert(chars[i + 16] == hex16(id)[i]);
    }
    lemma_hex16_reads_back(created_at, first);
    lemma_hex16_reads_back(id, second);
    assert(parse_hex(first) == Some(created_at));
    assert(parse_hex(second) == Some(id));
    assert(vstd::utf8::is_char_boundary(bytes, 16)) by {
        vstd::utf8::encode_utf8_valid_utf8(chars);
        vstd::utf8::is_char_boundary_iff_not_is_continuation_byte(bytes, 16);
        assert(chars[16] as u8 == bytes[16]);
        assert((chars[16] as nat) < 128);
        let b = bytes[16];
        assert(b < 128);
        assert(!vstd::utf8::is_continuation_byte(b)) by (bit_vector)
            requires
                b < 128,
        ;
    }
}

/// A cursor the reader can split at byte 16 without cutting a character in two.
pub open spec fn cursor_splittable(s: Seq<char>) -> bool {
    vstd::utf8::encode_utf8(s).len() != 32 || vstd::utf8::is_char_boundary(vstd::utf8::encode_utf8(s), 16)
}

proof fn lemma_hex_number_bound(s: Seq<u8>)
    requires
        all_hex(s),
    ensures
        hex_number(s) < pow16(s.len()),
    decreases s.len(),
{
    if s.len() > 0 {
        lemma_hex_number_bound(s.drop_last());
        let a = hex_number(s.drop_last());
        let p = pow16((s.len() - 1) as nat);
        let d = hex_digit_value(s.last());
        assert(0 <= d < 16);
        assert(a * 16 + d < p * 16) by (nonlinear_arith)
            requires a < p, 0 <= d < 16;
    }
}

fn hex_digit_of(b: u8) -> (r: Option<u64>)
    ensures
        match r {
            Some(v) => hex_digit_value(b) >= 0 && v == hex_digit_value(b),
            None => hex_digit_value(b) < 0,
        },
{
    if 48 <= b && b <= 57 {
        Some((b - 48) as u64)
    } else if 97 <= b && b <= 102 {
        Some((b - 87) as u64)
    } else if 65 <= b && b <= 70 {
        Some((b - 55) as u64)
    } else {
        None
    }
}

/// Reads the 16 bytes of `bytes` from `start` as `u64::from_str_radix(_, 16)` does.
fn parse_hex_field(bytes: &[u8], start: usize) -> (r: Option<u64>)
    requires
        start + 16 <= bytes@.len(),
    ensures
        r == parse_hex(bytes@.subrange(start as int, start + 16)),
{
    let ghost field = bytes@.subrange(start as int, start + 16);
    let mut i: usize = start;
    if bytes[start] == 43 {
        i = start + 1;
    }
    let ghost digits = if field[0] == 43 { field.drop_first() } else { field };
    proof {
        assert(digits =~= bytes@.subrange(i as int, start + 16));
        lemma_pow16_sixteen();
    }
    if i == start + 16 {
        return None;
    }
    let mut value: u64 = 0;
    let first = i;
    while i < start + 16
        invariant
            start + 16 <= bytes.len(),
            field == bytes@.subrange(start as int, start + 16),
            digits == (if field[0] == 43 { field.drop_first() } else { field }),
            first <= i <= start + 16,
            first >= start,
            digits =~= bytes@.subrange(first as int, start + 16),
            digits.len() <= 16,
            all_hex(bytes@.subrange(first as int, i as int)),
            value == hex_number(bytes@.subrange(first as int, i as int)),
            pow16(16) == 18446744073709551616,
        decreases start + 16 - i,
    {
        let d = match hex_digit_of(bytes[i]) {
            Some(d) => d,
            None => {
                proof {
                    assert(digits[i - first] == bytes@[i as int]);
                    assert(!all_hex(digits));
                }
                return None;
            },
        };
        let ghost prefix = bytes@.subrange(first as int, i as int);
        let ghost next = bytes@.subrange(first as int, i + 1);
        proof {
            assert(next.drop_last() =~= prefix);
            assert(next.last() == bytes@[i as int]);
            assert(all_hex(next));
            lemma_hex_number_bound(next);
            lemma_pow16_monotone(next.len(), 16);
            assert(hex_number(next) == value * 16 + d);
        }
        value = value * 16 + d;
        i = i + 1;
    }
    proof {
        assert(bytes@.subrange(first as int, i as int) =~= digits);
    }
    Some(value)
}

proof fn lemma_pow16_sixteen()
    ensures
        pow16(16) == 18446744073709551616,
{
    reveal_with_fuel(pow16, 17);
}

proof fn lemma_pow16_monotone(a: nat, b: nat)
    requires
        a <= b,
    ensures
        pow16(a) <= pow16(b),
    decreases b - a,
{
    if a < b {
        lemma_pow16_monotone(a, (b - 1) as nat);
        assert(pow16(b) == 16 * pow16((b - 1) as nat));
    }
}

/// Reads a cursor back into the position it names.
pub fn parse_cursor(cursor: &str) -> (r: Option<(u64, u64)>)
    requires
        cursor_splittable(cursor@),
    ensures
        r == parse_cursor_spec(cursor.spec_bytes()),
{
    let bytes = cursor.as_bytes();
    if bytes.len() != 32 {
        return None;
    }
    let a = parse_hex_field(bytes, 0);
    let b = parse_hex_field(bytes, 16);
    match (a, b) {
        (Some(x), Some(y)) => Some((x, y)),
        _ => None,
    }
}


/// The abstract values of a list of node references.
pub open spec fn node_refs_view(v: Seq<&Node>) -> Seq<NodeView> {
    v.map_values(|n: &Node| n@)
}

/// The abstract values of a list of edge references.
pub open spec fn edge_refs_view(v: Seq<&Edge>) -> Seq<EdgeView> {
    v.map_values(|e: &Edge| e@)
}

/// The abstract values of a list of provenance references.
pub open spec fn provenance_refs_view(v: Seq<&Provenance>) -> Seq<ProvenanceView> {
    v.map_values(|p: &Provenance| p@)
}

/// The nodes a list of ids names, in list order.
pub open spec fn nodes_of(s: StoreView, ids: Seq<NodeId>) -> Seq<NodeView> {
    ids.map_values(|id: NodeId| s.nodes[id.0])
}

/// The edges a list of ids names, in list order.
pub open spec fn edges_of(s: StoreView, ids: Seq<EdgeId>) -> Seq<EdgeView> {
    ids.map_values(|id: EdgeId| s.edges[id.0])
}

/// An edge passes a relation filter when there is none or its label is the one asked for.
pub open spec fn relation_admits(relation: Option<RelationId>, e: EdgeView) -> bool {
    match relation {
        Some(r) => e.label == r,
        None => true,
    }
}

/// The edges in an adjacency list that pass a relation filter, in list order.
pub open spec fn adjacent_edges(s: StoreView, idx: Map<u64, Seq<EdgeId>>, node: NodeId, relation: Option<RelationId>) -> Seq<EdgeView> {
    edges_of(s, list_or_empty(idx, node.0)).filter(|e: EdgeView| relation_admits(relation, e))
}

/// Read-only queries over one store.
pub struct QueryEngine<'a> {
    pub(crate) store: &'a Store,
}

impl<'a> QueryEngine<'a> {
    /// The abstract state of the store queried.
    pub closed spec fn view(&self) -> StoreView {
        self.store@
    }

    /// The store queried keeps its invariant.
    pub closed spec fn wf(&self) -> bool {
        self.store.wf()
    }

    /// The engine's view and invariant are those of its store.
    pub(crate) proof fn lemma_engine_fields(&self)
        ensures
            self@ == self.store@,
            self.wf() == self.store.wf(),
    {
    }

    /// A query engine over `store`.
    pub fn new(store: &'a Store) -> (r: Self)
        ensures
            r@ == store@,
            r.wf() == store.wf(),
    {
        QueryEngine { store }
    }

    /// The node with this namespace and external id, if any.
    pub fn exact_node(&self, namespace: &NamespaceId, external_id: &str) -> (r: Option<&'a Node>)
        requires
            self.wf(),
        ensures
            match r {
                Some(n) => self@.node_external.contains_key((namespace@, external_id@))
                    && n@ == self@.nodes[self@.node_external[(namespace@, external_id@)]],
                None => !self@.node_external.contains_key((namespace@, external_id@)),
            },
    {
        let store: &'a Store = self.store;
        proof {
            store.lemma_view_fields();
        }
        match store.node_by_external_id(namespace, external_id) {
            Some(id) => node_get(&store.nodes, &id),
            None => None,
        }
    }

    /// The nodes an id list names, in list order, skipping ids without a node.
    fn collect_nodes(&self, ids: &Vec<NodeId>) -> (r: Vec<&'a Node>)
        requires
            self.wf(),
            forall|i: int| 0 <= i < ids@.len() ==> self@.nodes.contains_key(#[trigger] ids@[i].0),
        ensures
            node_refs_view(r@) == nodes_of(self@, ids@),
    {
        let store: &'a Store = self.store;
        proof {
            store.lemma_view_fields();
        }
        let mut out: Vec<&'a Node> = Vec::new();
        let mut i: usize = 0;
        while i < ids.len()
            invariant
                i <= ids@.len(),
                self@ == store@,
                node_entries(store.nodes) == self@.nodes,
                forall|j: int| 0 <= j < ids@.len() ==> self@.nodes.contains_key(#[trigger] ids@[j].0),
                node_refs_view(out@) == nodes_of(self@, ids@.subrange(0, i as int)),
            decreases ids@.len() - i,
        {
            let ghost before = out@;
            match node_get(&store.nodes, &ids[i]) {
                Some(n) => {
                    out.push(n);
                },
                None => {},
            }
            proof {
                assert(ids@.subrange(0, i + 1) =~= ids@.subrange(0, i as int).push(ids@[i as int]));
                assert(node_refs_view(out@) =~= node_refs_view(before).push(self@.nodes[ids@[i as int].0]));
            }
            i = i + 1;
        }
        proof {
            assert(ids@.subrange(0, i as int) =~= ids@);
        }
        out
    }

    /// The edges an id list names that pass a relation filter, in list order, skipping
    /// ids without an edge.
    fn collect_edges(&self, ids: &Vec<EdgeId>, relation: Option<RelationId>) -> (r: Vec<&'a Edge>)
        requires
            self.wf(),
            forall|i: int| 0 <= i < ids@.len() ==> self@.edges.contains_key(#[trigger] ids@[i].0),
        ensures
            edge_refs_view(r@) == edges_of(self@, ids@).filter(|e: EdgeView| relation_admits(relation, e)),
    {
        let store: &'a Store = self.store;
        proof {
            store.lemma_view_fields();
        }
        let ghost pred = |e: EdgeView| relation_admits(relation, e);
        let mut out: Vec<&'a Edge> = Vec::new();
        let mut i: usize = 0;
        while i < ids.len()
            invariant
                i <= ids@.len(),
                self@ == store@,
                edge_entries(store.edges) == self@.edges,
                pred == (|e: EdgeView| relation_admits(relation, e)),
                forall|j: int| 0 <= j < ids@.len() ==> self@.edges.contains_key(#[trigger] ids@[j].0),
                edge_refs_view(out@) == edges_of(self@, ids@.subrange(0, i as int)).filter(pred),
            decreases ids@.len() - i,
        {
            let ghost before = out@;
            let ghost prefix = edges_of(self@, ids@.subrange(0, i as int));
            let ghost e_view = self@.edges[ids@[i as int].0];
            proof {
                assert(edges_of(self@, ids@.subrange(0, i + 1)) =~= prefix.push(e_view));
                prefix.lemma_filter_push(e_view, pred);
            }
            match edge_get(&store.edges, &ids[i]) {
                Some(e) => {
                    let keep = match relation {
                        Some(r) => e.label == r,
                        None => true,
                    };
                    if keep {
                        out.push(e);
                        proof {
                            assert(edge_refs_view(out@) =~= edge_refs_view(before).push(e_view));
                        }
                    } else {
                        proof {
                            assert(edge_refs_view(out@) =~= edge_refs_view(before));
                        }
                    }
                },
                None => {},
            }
            i = i + 1;
        }
        proof {
            assert(ids@.subrange(0, i as int) =~= ids@);
        }
        out
    }

    /// The nodes with this label, in the order they were added.
    pub fn by_label(&self, label: LabelId) -> (r: Vec<&'a Node>)
        requires
            self.wf(),
        ensures
            node_refs_view(r@) == nodes_of(self@, list_or_empty(self@.node_label_index, label.0)),
    {
        let store: &'a Store = self.store;
        proof {
            store.lemma_view_fields();
        }
        match label_index_get(&store.node_label_index, &label) {
            Some(ids) => self.collect_nodes(ids),
            None => {
                let out: Vec<&'a Node> = Vec::new();
                proof {
                    assert(node_refs_view(out@) =~= nodes_of(self@, list_or_empty(self@.node_label_index, label.0)));
                }
                out
            },
        }
    }

    /// The edges with this relation, in the order they were added.
    pub fn by_relation(&self, relation: RelationId) -> (r: Vec<&'a Edge>)
        requires
            self.wf(),
        ensures
            edge_refs_view(r@) == edges_of(self@, list_or_empty(self@.edge_label_index, relation.0)),
    {
        let store: &'a Store = self.store;
        proof {
            store.lemma_view_fields();
        }
        match relation_index_get(&store.edge_label_index, &relation) {
            Some(ids) => {
                let out = self.collect_edges(ids, None);
                proof {
                    let all = edges_of(self@, ids@);
                    assert(all.filter(|e: EdgeView| relation_admits(None, e)) =~= all) by {
                        lemma_filter_all(all, |e: EdgeView| relation_admits(None, e));
                    }
                }
                out
            },
            None => {
                let out: Vec<&'a Edge> = Vec::new();
                proof {
                    assert(edge_refs_view(out@) =~= edges_of(self@, list_or_empty(self@.edge_label_index, relation.0)));
                }
                out
            },
        }
    }

    /// The edges leaving `node` that pass the relation filter, in the order they were added.
    pub fn outgoing(&self, node: NodeId, relation: Option<RelationId>) -> (r: Vec<&'a Edge>)
        requires
            self.wf(),
        ensures
            edge_refs_view(r@) == adjacent_edges(self@, self@.outgoing, node, relation),
    {
        let store: &'a Store = self.store;
        proof {
            store.lemma_view_fields();
        }
        match adjacency_get(&store.outgoing, &node) {
            Some(ids) => self.collect_edges(ids, relation),
            None => {
                let out: Vec<&'a Edge> = Vec::new();
                proof {
                    let e = edges_of(self@, list_or_empty(self@.outgoing, node.0));
                    assert(e =~= Seq::<EdgeView>::empty());
                    assert(e.filter(|x: EdgeView| relation_admits(relation, x)) =~= Seq::<EdgeView>::empty()) by {
                        reveal(Seq::filter);
                    }
                    assert(edge_refs_view(out@) =~= Seq::<EdgeView>::empty());
                }
                out
            },
        }
    }

    /// The edges entering `node` that pass the relation filter, in the order they were added.
    pub fn incoming(&self, node: NodeId, relation: Option<RelationId>) -> (r: Vec<&'a Edge>)
        requires
            self.wf(),
        ensures
            edge_refs_view(r@) == adjacent_edges(self@, self@.incoming, node, relation),
    {
        let store: &'a Store = self.store;
        proof {
            store.lemma_view_fields();
        }
        match adjacency_get(&store.incoming, &node) {
            Some(ids) => self.collect_edges(ids, relation),
            None => {
                let out: Vec<&'a Edge> = Vec::new();
                proof {
                    let e = edges_of(self@, list_or_empty(self@.incoming, node.0));
                    assert(e =~= Seq::<EdgeView>::empty());
                    assert(e.filter(|x: EdgeView| relation_admits(relation, x)) =~= Seq::<EdgeView>::empty()) by {
                        reveal(Seq::filter);
                    }
                    assert(edge_refs_view(out@) =~= Seq::<EdgeView>::empty());
                }
                out
            },
        }
    }

    /// Every provenance recorded about `subject`, in the order recorded.
    pub fn facts_about(&self, subject: FactSubject) -> (r: Vec<&'a Provenance>)
        requires
            self.wf(),
        ensures
            provenance_refs_view(r@) == list_or_empty(self@.facts, subject),
    {
        let store: &'a Store = self.store;
        proof {
            store.lemma_view_fields();
        }
        let mut out: Vec<&'a Provenance> = Vec::new();
        match fact_get(&store.facts, &subject) {
            Some(list) => {
                let mut i: usize = 0;
                while i < list.len()
                    invariant
                        i <= list@.len(),
                        provenance_refs_view(out@) == provenances_view(list@.subrange(0, i as int)),
                    decreases list@.len() - i,
                {
                    out.push(&list[i]);
                    proof {
                        assert(provenances_view(list@.subrange(0, i + 1)) =~= provenances_view(list@.subrange(0, i as int)).push(list@[i as int]@));
                        assert(provenance_refs_view(out@) =~= provenance_refs_view(out@.drop_last()).push(list@[i as int]@));
                    }
                    i = i + 1;
                }
                proof {
                    assert(list@.subrange(0, i as int) =~= list@);
                }
            },
            None => {
                proof {
                    assert(provenance_refs_view(out@) =~= list_or_empty(self@.facts, subject));
                }
            },
        }
        out
    }
}

/// Filtering by a predicate every element meets keeps the sequence.
proof fn lemma_filter_all<A>(s: Seq<A>, p: spec_fn(A) -> bool)
    requires
        forall|i: int| 0 <= i < s.len() ==> p(#[trigger] s[i]),
    ensures
        s.filter(p) == s,
    decreases s.len(),
{
    reveal(Seq::filter);
    if s.len() > 0 {
        lemma_filter_all(s.drop_last(), p);
        assert(s.drop_last().push(s.last()) =~= s);
    } else {
        assert(s.filter(p) =~= s);
    }
}


/// The namespace an optional namespace reference names, viewed.
pub open spec fn namespace_filter_view(namespace: Option<&NamespaceId>) -> Option<Seq<char>> {
    match namespace {
        Some(ns) => Some(ns@),
        None => None,
    }
}

/// A node passes a namespace filter when there is none or the node lives in it.
pub open spec fn namespace_admits(namespace: Option<Seq<char>>, n: NodeView) -> bool {
    match namespace {
        Some(ns) => n.namespace == ns,
        None => true,
    }
}

/// Whether a label filter goes through the label index: a label is given and the index
/// has an entry for it. (A label the index has never seen filters nothing.)
pub open spec fn label_scoped(s: StoreView, label: Option<LabelId>) -> bool {
    match label {
        Some(l) => s.node_label_index.contains_key(l.0),
        None => false,
    }
}

/// The ids of the nodes `count_nodes` counts.
pub open spec fn counted_nodes(s: StoreView, namespace: Option<Seq<char>>, label: Option<LabelId>) -> Set<u64> {
    s.nodes.dom().filter(
        |k: u64|
            (label_scoped(s, label) ==> Some(s.nodes[k].label) == label) && namespace_admits(namespace, s.nodes[k]),
    )
}

/// The raw ids of a list of node ids.
pub open spec fn node_id_values(ids: Seq<NodeId>) -> Seq<u64> {
    ids.map_values(|id: NodeId| id.0)
}

/// In a sequence without repeats, the elements a filter keeps are as many as the
/// members of its set that the filter keeps.
proof fn lemma_distinct_filter_len<A>(s: Seq<A>, p: spec_fn(A) -> bool)
    requires
        s.no_duplicates(),
    ensures
        s.filter(p).len() == s.to_set().filter(p).len(),
        s.to_set().filter(p).finite(),
    decreases s.len(),
{
    broadcast use vstd::seq_lib::group_seq_properties;
    if s.len() == 0 {
        assert(s.filter(p) =~= Seq::<A>::empty()) by {
            reveal(Seq::filter);
        }
        assert(s.to_set().filter(p) =~= Set::<A>::empty());
    } else {
        let t = s.drop_last();
        let x = s.last();
        assert(t.push(x) =~= s);
        assert(t.no_duplicates());
        lemma_distinct_filter_len(t, p);
        t.lemma_filter_push(x, p);
        assert(!t.contains(x)) by {
            if t.contains(x) {
                let j = choose|j: int| 0 <= j < t.len() && t[j] == x;
                assert(s[j] == s[s.len() - 1]);
            }
        }
        assert(s.to_set() =~= t.to_set().insert(x));
        if p(x) {
            assert(s.to_set().filter(p) =~= t.to_set().filter(p).insert(x));
        } else {
            assert(s.to_set().filter(p) =~= t.to_set().filter(p));
        }
    }
}

impl<'a> QueryEngine<'a> {
    /// Counts the nodes of an id list (without repeats, all present) that pass a
    /// namespace filter.
    fn count_admitted(&self, ids: &Vec<NodeId>, namespace: Option<&NamespaceId>) -> (r: usize)
        requires
            self.wf(),
            node_id_values(ids@).no_duplicates(),
            forall|i: int| 0 <= i < ids@.len() ==> self@.nodes.contains_key(#[trigger] ids@[i].0),
        ensures
            r == node_id_values(ids@).to_set().filter(
                |k: u64| namespace_admits(namespace_filter_view(namespace), self@.nodes[k]),
            ).len(),
    {
        let store: &'a Store = self.store;
        proof {
            store.lemma_view_fields();
        }
        let ghost p = |k: u64| namespace_admits(namespace_filter_view(namespace), self@.nodes[k]);
        let ghost ks = node_id_values(ids@);
        let mut count: usize = 0;
        let mut i: usize = 0;
        while i < ids.len()
            invariant
                i <= ids@.len(),
                self@ == store@,
                node_entries(store.nodes) == self@.nodes,
                ks == node_id_values(ids@),
                p == (|k: u64| namespace_admits(namespace_filter_view(namespace), self@.nodes[k])),
                forall|j: int| 0 <= j < ids@.len() ==> self@.nodes.contains_key(#[trigger] ids@[j].0),
                count == ks.subrange(0, i as int).filter(p).len(),
                count <= i,
            decreases ids@.len() - i,
        {
            proof {
                assert(ks.subrange(0, i + 1) =~= ks.subrange(0, i as int).push(ks[i as int]));
                ks.subrange(0, i as int).lemma_filter_push(ks[i as int], p);
            }
            match node_get(&store.nodes, &ids[i]) {
                Some(n) => {
                    let admitted = match namespace {
                        Some(ns) => n.namespace == *ns,
                        None => true,
                    };
                    if admitted {
                        count = count + 1;
                    }
                },
                None => {},
            }
            i = i + 1;
        }
        proof {
            assert(ks.subrange(0, i as int) =~= ks);
            lemma_distinct_filter_len(ks, p);
        }
        count
    }

    /// How many nodes pass the namespace and label filters. A label the index has never
    /// seen does not narrow the count.
    pub fn count_nodes(&self, namespace: Option<&NamespaceId>, label: Option<LabelId>) -> (r: usize)
        requires
            self.wf(),
        ensures
            r == counted_nodes(self@, namespace_filter_view(namespace), label).len(),
    {
        let store: &'a Store = self.store;
        proof {
            store.lemma_view_fields();
        }
        let ghost s = self@;
        let ghost nsv = namespace_filter_view(namespace);
        let ghost p = |k: u64| namespace_admits(nsv, s.nodes[k]);
        let indexed = match label {
            Some(l) => label_index_get(&store.node_label_index, &l),
            None => None,
        };
        match indexed {
            Some(ids) => {
                let l = label.unwrap();
                proof {
                    let ks = node_id_values(ids@);
                    assert(ids@ == s.node_label_index[l.0]);
                    assert(ks.no_duplicates()) by {
                        assert forall|i: int, j: int| 0 <= i < ks.len() && 0 <= j < ks.len() && i != j implies ks[i] != ks[j] by {
                            assert(ids@[i] != ids@[j]);
                        }
                    }
                    assert forall|i: int| 0 <= i < ids@.len() implies s.nodes.contains_key(#[trigger] ids@[i].0) by {
                        assert(s.node_label_index.contains_key(l.0));
                    }
                }
                let r = self.count_admitted(ids, namespace);
                proof {
                    let ks = node_id_values(ids@);
                    assert forall|k: u64| #[trigger] ks.to_set().filter(p).contains(k) == counted_nodes(s, nsv, label).contains(k) by {
                        if counted_nodes(s, nsv, label).contains(k) {
                            assert(s.node_label_index[l.0].contains(NodeId(k)));
                            let j = choose|j: int| 0 <= j < ids@.len() && ids@[j] == NodeId(k);
                            assert(ks[j] == k);
                        }
                        if ks.to_set().contains(k) {
                            let j = choose|j: int| 0 <= j < ks.len() && ks[j] == k;
                            assert(ids@[j].0 == k);
                        }
                    }
                    assert(ks.to_set().filter(p) =~= counted_nodes(s, nsv, label));
                }
                r
            },
            None => {
                let keys = node_keys(&store.nodes);
                proof {
                    let ks = node_id_values(keys@);
                    assert(ks.no_duplicates());
                    assert forall|k: u64| #[trigger] ks.to_set().filter(p).contains(k) == counted_nodes(s, nsv, label).contains(k) by {
                        if s.nodes.contains_key(k) {
                            let j = choose|j: int| 0 <= j < keys@.len() && #[trigger] keys@[j].0 == k;
                            assert(ks[j] == k);
                        }
                        if ks.to_set().contains(k) {
                            let j = choose|j: int| 0 <= j < ks.len() && ks[j] == k;
                            assert(keys@[j].0 == k);
                        }
                    }
                    assert(ks.to_set().filter(p) =~= counted_nodes(s, nsv, label));
                }
                self.count_admitted(&keys, namespace)
            },
        }
    }
}


/// The node an edge leads to (`to_dst`) or comes from.
pub open spec fn edge_end(s: StoreView, id: EdgeId, to_dst: bool) -> u64 {
    if to_dst {
        s.edges[id.0].dst.0
    } else {
        s.edges[id.0].src.0
    }
}

/// The nodes the edges of an id list lead to, or come from (`to_dst` false).
pub open spec fn edge_ends(s: StoreView, ids: Seq<EdgeId>, to_dst: bool) -> Set<u64> {
    Set::new(|x: u64| exists|i: int| 0 <= i < ids.len() && #[trigger] edge_end(s, ids[i], to_dst) == x)
}

/// The neighbours of a node: the targets of its outgoing edges and the sources of its
/// incoming edges.
pub open spec fn neighbor_ids(s: StoreView, node: NodeId) -> Set<u64> {
    edge_ends(s, list_or_empty(s.outgoing, node.0), true).union(
        edge_ends(s, list_or_empty(s.incoming, node.0), false),
    )
}

/// Ids in strictly increasing order.
pub open spec fn strictly_increasing(ids: Seq<NodeId>) -> bool {
    forall|i: int, j: int| 0 <= i < j < ids.len() ==> ids[i].0 < ids[j].0
}

/// The index `Iterator::max_by` lands on when comparing confidences with `partial_cmp`
/// (an incomparable pair counting as equal): a later element replaces the best so far
/// unless it is strictly smaller, so the last of several maxima wins.
pub open spec fn max_by_confidence(ps: Seq<ProvenanceView>) -> int
    decreases ps.len(),
{
    if ps.len() <= 1 {
        0
    } else {
        let best = max_by_confidence(ps.drop_last());
        if f32_bits_lt(ps.last().confidence, ps[best].confidence) {
            best
        } else {
            ps.len() - 1
        }
    }
}

proof fn lemma_max_by_confidence_range(ps: Seq<ProvenanceView>)
    requires
        ps.len() > 0,
    ensures
        0 <= max_by_confidence(ps) < ps.len(),
    decreases ps.len(),
{
    if ps.len() > 1 {
        lemma_max_by_confidence_range(ps.drop_last());
    }
}

/// The highest-confidence pick is not beaten: when no confidence is NaN, no fact in
/// the list has a confidence strictly above the picked one's. (With a NaN among them
/// the pick follows `max_by`, which compares a NaN as equal to anything.)
pub proof fn highest_confidence_is_not_beaten(ps: Seq<ProvenanceView>)
    requires
        ps.len() > 0,
        forall|i: int| 0 <= i < ps.len() ==> !f32_bits_nan(#[trigger] ps[i].confidence),
    ensures
        0 <= max_by_confidence(ps) < ps.len(),
        forall|i: int| 0 <= i < ps.len() ==> !f32_bits_lt(ps[max_by_confidence(ps)].confidence, #[trigger] ps[i].confidence),
    decreases ps.len(),
{
    lemma_max_by_confidence_range(ps);
    if ps.len() > 1 {
        let front = ps.drop_last();
        highest_confidence_is_not_beaten(front);
        let best = max_by_confidence(front);
        assert(ps[best] == front[best]);
        assert forall|i: int| 0 <= i < ps.len() implies !f32_bits_lt(ps[max_by_confidence(ps)].confidence, #[trigger] ps[i].confidence) by {
            if i < ps.len() - 1 {
                assert(ps[i] == front[i]);
                assert(!f32_bits_lt(front[best].confidence, front[i].confidence));
            }
        }
    }
}

/// Puts `x` into a list kept in strictly increasing order, unless it is there already.
fn insert_sorted_unique(v: &mut Vec<NodeId>, x: NodeId)
    requires
        strictly_increasing(old(v)@),
    ensures
        strictly_increasing(final(v)@),
        node_id_values(final(v)@).to_set() == node_id_values(old(v)@).to_set().insert(x.0),
{
    let ghost before = v@;
    let mut pos: usize = 0;
    while pos < v.len() && v[pos].0 < x.0
        invariant
            v@ == before,
            pos <= v@.len(),
            strictly_increasing(v@),
            forall|i: int| 0 <= i < pos ==> v@[i].0 < x.0,
        decreases v@.len() - pos,
    {
        pos = pos + 1;
    }
    if pos < v.len() && v[pos].0 == x.0 {
        proof {
            assert(node_id_values(before).to_set().insert(x.0) =~= node_id_values(before).to_set()) by {
                assert(node_id_values(before)[pos as int] == x.0);
            }
        }
        return;
    }
    v.insert(pos, x);
    proof {
        assert(v@ == before.insert(pos as int, x));
        assert forall|k: u64| #[trigger] node_id_values(v@).to_set().contains(k) == node_id_values(before).to_set().insert(x.0).contains(k) by {
            if node_id_values(v@).to_set().contains(k) {
                let j = choose|j: int| 0 <= j < v@.len() && node_id_values(v@)[j] == k;
                if j < pos {
                    assert(node_id_values(before)[j] == k);
                } else if j > pos {
                    assert(node_id_values(before)[j - 1] == k);
                }
            }
            if node_id_values(before).to_set().contains(k) {
                let j = choose|j: int| 0 <= j < before.len() && node_id_values(before)[j] == k;
                if j < pos {
                    assert(node_id_values(v@)[j] == k);
                } else {
                    assert(node_id_values(v@)[j + 1] == k);
                }
            }
            if k == x.0 {
                assert(node_id_values(v@)[pos as int] == k);
            }
        }
        assert(node_id_values(v@).to_set() =~= node_id_values(before).to_set().insert(x.0));
    }
}

impl<'a> QueryEngine<'a> {
    /// Adds to `nbrs` the targets (`to_dst`) or sources of the edges an id list names.
    fn add_edge_ends(&self, nbrs: &mut Vec<NodeId>, ids: &Vec<EdgeId>, to_dst: bool)
        requires
            self.wf(),
            strictly_increasing(old(nbrs)@),
            forall|i: int| 0 <= i < ids@.len() ==> self@.edges.contains_key(#[trigger] ids@[i].0),
        ensures
            strictly_increasing(final(nbrs)@),
            node_id_values(final(nbrs)@).to_set() == node_id_values(old(nbrs)@).to_set().union(
                edge_ends(self@, ids@, to_dst),
            ),
    {
        let store: &'a Store = self.store;
        proof {
            store.lemma_view_fields();
        }
        let ghost start = node_id_values(nbrs@).to_set();
        let mut i: usize = 0;
        while i < ids.len()
            invariant
                i <= ids@.len(),
                self@ == store@,
                edge_entries(store.edges) == self@.edges,
                forall|j: int| 0 <= j < ids@.len() ==> self@.edges.contains_key(#[trigger] ids@[j].0),
                strictly_increasing(nbrs@),
                node_id_values(nbrs@).to_set() == start.union(edge_ends(self@, ids@.subrange(0, i as int), to_dst)),
            decreases ids@.len() - i,
        {
            let ghost prev = nbrs@;
            match edge_get(&store.edges, &ids[i]) {
                Some(e) => {
                    let end = if to_dst { e.dst } else { e.src };
                    insert_sorted_unique(nbrs, end);
                    proof {
                        let a = edge_ends(self@, ids@.subrange(0, i as int), to_dst);
                        let b = edge_ends(self@, ids@.subrange(0, i + 1), to_dst);
                        assert forall|k: u64| #[trigger] b.contains(k) == a.insert(end.0).contains(k) by {
                            if b.contains(k) {
                                let j = choose|j: int| 0 <= j < i + 1 && #[trigger] edge_end(self@, ids@.subrange(0, i + 1)[j], to_dst) == k;
                                if j < i {
                                    assert(ids@.subrange(0, i as int)[j] == ids@.subrange(0, i + 1)[j]);
                                    assert(edge_end(self@, ids@.subrange(0, i as int)[j], to_dst) == k);
                                } else {
                                    assert(ids@.subrange(0, i + 1)[j] == ids@[i as int]);
                                    assert(k == end.0);
                                }
                            }
                            if a.contains(k) {
                                let j = choose|j: int| 0 <= j < i && #[trigger] edge_end(self@, ids@.subrange(0, i as int)[j], to_dst) == k;
                                assert(ids@.subrange(0, i as int)[j] == ids@.subrange(0, i + 1)[j]);
                                assert(edge_end(self@, ids@.subrange(0, i + 1)[j], to_dst) == k);
                            }
                            if k == end.0 {
                                assert(ids@.subrange(0, i + 1)[i as int] == ids@[i as int]);
                                assert(edge_end(self@, ids@.subrange(0, i + 1)[i as int], to_dst) == k);
                            }
                        }
                        assert(b =~= a.insert(end.0));
                        assert(node_id_values(nbrs@).to_set() =~= start.union(b));
                    }
                },
                None => {},
            }
            i = i + 1;
        }
        proof {
            assert(ids@.subrange(0, i as int) =~= ids@);
        }
    }

    /// The neighbours of `node` along edges in either direction, each once, in increasing
    /// id order.
    pub fn neighbors(&self, node: NodeId) -> (r: Vec<NodeId>)
        requires
            self.wf(),
        ensures
            strictly_increasing(r@),
            node_id_values(r@).to_set() == neighbor_ids(self@, node),
    {
        let store: &'a Store = self.store;
        proof {
            store.lemma_view_fields();
        }
        let ghost s = self@;
        let mut nbrs: Vec<NodeId> = Vec::new();
        proof {
            assert(node_id_values(nbrs@).to_set() =~= Set::empty());
        }
        match adjacency_get(&store.outgoing, &node) {
            Some(ids) => {
                self.add_edge_ends(&mut nbrs, ids, true);
            },
            None => {
                proof {
                    assert(edge_ends(s, list_or_empty(s.outgoing, node.0), true) =~= Set::empty());
                }
            },
        }
        let ghost after_out = node_id_values(nbrs@).to_set();
        match adjacency_get(&store.incoming, &node) {
            Some(ids) => {
                self.add_edge_ends(&mut nbrs, ids, false);
            },
            None => {
                proof {
                    assert(edge_ends(s, list_or_empty(s.incoming, node.0), false) =~= Set::empty());
                }
            },
        }
        proof {
            assert(node_id_values(nbrs@).to_set() =~= neighbor_ids(s, node));
        }
        nbrs
    }

    /// The provenance of highest confidence recorded about `subject`, as
    /// `Iterator::max_by` with `partial_cmp` picks it; `None` when there is none.
    pub fn highest_confidence_fact(&self, subject: FactSubject) -> (r: Option<&'a Provenance>)
        requires
            self.wf(),
        ensures
            match r {
                Some(p) => list_or_empty(self@.facts, subject).len() > 0
                    && p@ == list_or_empty(self@.facts, subject)[max_by_confidence(list_or_empty(self@.facts, subject))],
                None => list_or_empty(self@.facts, subject).len() == 0,
            },
            r matches Some(p) ==> (forall|i: int| 0 <= i < list_or_empty(self@.facts, subject).len()
                ==> !f32_bits_nan(#[trigger] list_or_empty(self@.facts, subject)[i].confidence)) ==> forall|i: int|
                0 <= i < list_or_empty(self@.facts, subject).len() ==> !f32_bits_lt(
                p.confidence,
                #[trigger] list_or_empty(self@.facts, subject)[i].confidence,
            ),
    {
        let store: &'a Store = self.store;
        proof {
            store.lemma_view_fields();
            let ps = list_or_empty(self@.facts, subject);
            if ps.len() > 0 && forall|i: int| 0 <= i < ps.len() ==> !f32_bits_nan(#[trigger] ps[i].confidence) {
                highest_confidence_is_not_beaten(ps);
            }
        }
        match fact_get(&store.facts, &subject) {
            Some(list) => {
                let ghost ps = provenances_view(list@);
                if list.len() == 0 {
                    return None;
                }
                let mut best: usize = 0;
                let mut i: usize = 1;
                while i < list.len()
                    invariant
                        1 <= i <= list@.len(),
                        ps == provenances_view(list@),
                        best < i,
                        best == max_by_confidence(ps.subrange(0, i as int)),
                    decreases list@.len() - i,
                {
                    proof {
                        let pre = ps.subrange(0, i + 1);
                        assert(pre.drop_last() =~= ps.subrange(0, i as int));
                        assert(pre.last() == list@[i as int]@);
                        assert(pre[best as int] == list@[best as int]@);
                    }
                    if !f32_bits_less(list[i].confidence, list[best].confidence) {
                        best = i;
                    }
                    i = i + 1;
                }
                proof {
                    assert(ps.subrange(0, i as int) =~= ps);
                }
                Some(&list[best])
            },
            None => None,
        }
    }
}


/// The position of a node in page order: creation time, then id.
pub open spec fn page_key(n: NodeView) -> (u64, u64) {
    (n.created_at, n.id.0)
}

/// Strictly before, in page order.
pub open spec fn key_lt(a: (u64, u64), b: (u64, u64)) -> bool {
    a.0 < b.0 || (a.0 == b.0 && a.1 < b.1)
}

/// Not after, in page order (the order `std` gives tuples of integers).
pub open spec fn key_le(a: (u64, u64), b: (u64, u64)) -> bool {
    a.0 < b.0 || (a.0 == b.0 && a.1 <= b.1)
}

/// The position a query's cursor names, if it has one that reads.
pub open spec fn page_cursor(q: NodeQuery) -> Option<(u64, u64)> {
    match q.cursor {
        Some(c) => parse_cursor_spec(vstd::utf8::encode_utf8(c@)),
        None => None,
    }
}

/// A node passes a page query's namespace, time-window and cursor filters.
pub open spec fn page_admits(q: NodeQuery, n: NodeView) -> bool {
    &&& (q.namespace matches Some(ns) ==> n.namespace == ns@)
    &&& (q.created_after matches Some(at) ==> n.created_at > at)
    &&& (q.created_before matches Some(at) ==> n.created_at < at)
    &&& (page_cursor(q) matches Some(key) ==> key_lt(key, page_key(n)))
}

/// The ids of every node a page query matches, on any page.
pub open spec fn page_matches(s: StoreView, q: NodeQuery) -> Set<u64> {
    s.nodes.dom().filter(
        |k: u64| (label_scoped(s, q.label) ==> Some(s.nodes[k].label) == q.label) && page_admits(q, s.nodes[k]),
    )
}

/// What `nodes_page` gives for query `q`: at most the page limit of matching nodes, as
/// stored, in strictly increasing page order, leaving out only matches after the last
/// of a full page; `more` (a next cursor) exactly when some match is left out.
pub open spec fn is_page_of(s: StoreView, q: NodeQuery, es: Seq<NodeView>, more: bool) -> bool {
    &&& es.len() <= page_limit(q)
    &&& forall|i: int| 0 <= i < es.len() ==> page_matches(s, q).contains((#[trigger] es[i]).id.0) && es[i] == s.nodes[es[i].id.0]
    &&& forall|i: int, j: int| 0 <= i < j < es.len() ==> key_lt(page_key(#[trigger] es[i]), page_key(#[trigger] es[j]))
    &&& forall|k: u64| #[trigger] page_matches(s, q).contains(k) ==> holds_node(es, k) || (es.len() == page_limit(q)
        && key_lt(page_key(es.last()), page_key(s.nodes[k])))
    &&& more ==> es.len() == page_limit(q) && exists|k: u64| #[trigger] page_matches(s, q).contains(k) && !holds_node(es, k)
    &&& !more ==> forall|k: u64| #[trigger] page_matches(s, q).contains(k) ==> holds_node(es, k)
}

/// A page is the first matches in page order: it holds as many as the limit allows
/// (all of them when fewer), no match before one of its nodes is left out, and a next
/// cursor comes exactly when more nodes match than the limit.
pub proof fn page_is_the_first_matches(s: StoreView, q: NodeQuery, es: Seq<NodeView>, more: bool)
    requires
        store_view_wf(s),
        is_page_of(s, q, es, more),
    ensures
        es.len() == (if page_matches(s, q).len() < page_limit(q) { page_matches(s, q).len() } else { page_limit(q) as nat }),
        forall|i: int, k: u64| 0 <= i < es.len() && #[trigger] page_matches(s, q).contains(k) && key_lt(
            page_key(s.nodes[k]),
            page_key(#[trigger] es[i]),
        ) ==> exists|j: int| 0 <= j < i && es[j].id.0 == k,
        more <==> page_matches(s, q).len() > page_limit(q),
{
    let m = page_matches(s, q);
    let ids = es.map_values(|n: NodeView| n.id.0);
    assert(m.finite()) by {
        assert(m.subset_of(s.nodes.dom()));
        vstd::set_lib::lemma_len_subset(m, s.nodes.dom());
    }
    assert(ids.no_duplicates()) by {
        assert forall|i: int, j: int| 0 <= i < ids.len() && 0 <= j < ids.len() && i != j implies ids[i] != ids[j] by {
            if ids[i] == ids[j] {
                assert(es[i] == s.nodes[es[i].id.0]);
                assert(es[j] == s.nodes[es[j].id.0]);
                if i < j {
                    assert(key_lt(page_key(es[i]), page_key(es[j])));
                } else {
                    assert(key_lt(page_key(es[j]), page_key(es[i])));
                }
            }
        }
    }
    ids.unique_seq_to_set();
    let held = ids.to_set();
    assert forall|k: u64| held.contains(k) <==> holds_node(es, k) by {
        if held.contains(k) {
            let i = choose|i: int| 0 <= i < ids.len() && ids[i] == k;
            assert(es[i].id.0 == k);
        }
        if holds_node(es, k) {
            let i = choose|i: int| 0 <= i < es.len() && #[trigger] es[i].id.0 == k;
            assert(ids[i] == k);
        }
    }
    assert(held.subset_of(m)) by {
        assert forall|k: u64| held.contains(k) implies m.contains(k) by {
            let i = choose|i: int| 0 <= i < es.len() && #[trigger] es[i].id.0 == k;
        }
    }
    vstd::set_lib::lemma_len_subset(held, m);
    if more {
        let k = choose|k: u64| #[trigger] m.contains(k) && !holds_node(es, k);
        assert(held.subset_of(m.remove(k)));
        vstd::set_lib::lemma_len_subset(held, m.remove(k));
    } else {
        assert(held =~= m);
    }
    assert forall|i: int, k: u64| 0 <= i < es.len() && #[trigger] m.contains(k) && key_lt(page_key(s.nodes[k]), page_key(#[trigger] es[i]))
        implies exists|j: int| 0 <= j < i && es[j].id.0 == k by {
        if holds_node(es, k) {
            let j = choose|j: int| 0 <= j < es.len() && #[trigger] es[j].id.0 == k;
            assert(es[j] == s.nodes[k]);
            if j >= i {
                if j > i {
                    assert(key_lt(page_key(es[i]), page_key(es[j])));
                }
            }
        } else {
            assert(key_lt(page_key(es.last()), page_key(s.nodes[k])));
            if i < es.len() - 1 {
                assert(key_lt(page_key(es[i]), page_key(es[es.len() - 1])));
            }
        }
    }
}

/// Following a page's cursor continues right after the page: when a query asks again
/// with the same filters and the cursor of node `last` (which the first query matched),
/// it matches exactly the nodes the first query matched that come after `last` in page
/// order. So consecutive pages neither repeat nor skip a node.
pub proof fn next_page_continues_after_last(s: StoreView, first: NodeQuery, next: NodeQuery, last: NodeView)
    requires
        next.namespace == first.namespace,
        next.label == first.label,
        next.created_after == first.created_after,
        next.created_before == first.created_before,
        next.cursor matches Some(c) && c@ == cursor_text(last.created_at, last.id.0),
        page_matches(s, first).contains(last.id.0),
        s.nodes[last.id.0] == last,
    ensures
        forall|k: u64| #[trigger] page_matches(s, next).contains(k) <==> page_matches(s, first).contains(k) && key_lt(
            page_key(last),
            page_key(s.nodes[k]),
        ),
{
    cursor_reads_back(last.created_at, last.id.0);
    assert(page_cursor(next) == Some((last.created_at, last.id.0)));
    assert(page_admits(first, last));
    assert forall|k: u64| #[trigger] page_matches(s, next).contains(k) <==> page_matches(s, first).contains(k) && key_lt(
        page_key(last),
        page_key(s.nodes[k]),
    ) by {
        let n = s.nodes[k];
        if page_cursor(first) is Some {
            let c = page_cursor(first)->0;
            assert(key_lt(c, page_key(last)));
        }
        if page_matches(s, next).contains(k) {
            assert(page_admits(next, n));
            assert(key_lt(page_key(last), page_key(n)));
        }
    }
}

/// How many nodes a page holds at most: the requested limit, kept within 1 and `MAX_PAGE`.
pub open spec fn page_limit(q: NodeQuery) -> usize {
    if q.limit < 1 {
        1
    } else if q.limit > MAX_PAGE {
        MAX_PAGE
    } else {
        q.limit
    }
}

/// Whether a list of nodes holds the node with id `k`.
pub open spec fn holds_node(es: Seq<NodeView>, k: u64) -> bool {
    exists|i: int| 0 <= i < es.len() && #[trigger] es[i].id.0 == k
}

/// A query's cursor, if any, can be read.
pub open spec fn page_cursor_readable(q: NodeQuery) -> bool {
    q.cursor matches Some(c) ==> cursor_splittable(c@)
}

/// Calls `slice::sort_unstable` on a list of positions: afterwards it holds the same
/// positions, in the order `std` gives tuples of integers.
#[verifier::external_body]
pub(crate) fn sort_positions(v: &mut Vec<(u64, u64)>)
    ensures
        final(v)@.to_multiset() == old(v)@.to_multiset(),
        forall|i: int, j: int| 0 <= i < j < final(v)@.len() ==> key_le(final(v)@[i], final(v)@[j]),
{
    v.sort_unstable();
}

/// A sorted sequence without repeats is strictly increasing.
proof fn lemma_sorted_distinct_strict(v: Seq<(u64, u64)>)
    requires
        v.no_duplicates(),
        forall|i: int, j: int| 0 <= i < j < v.len() ==> key_le(v[i], v[j]),
    ensures
        forall|i: int, j: int| 0 <= i < j < v.len() ==> key_lt(v[i], v[j]),
{
    assert forall|i: int, j: int| 0 <= i < j < v.len() implies key_lt(v[i], v[j]) by {
        assert(key_le(v[i], v[j]));
        assert(v[i] != v[j]);
    }
}

/// Sorting keeps the elements and their multiplicities, so it keeps a sequence free of
/// repeats and holding exactly what it held.
pub(crate) proof fn lemma_permutation_facts(a: Seq<(u64, u64)>, b: Seq<(u64, u64)>)
    requires
        a.no_duplicates(),
        a.to_multiset() == b.to_multiset(),
    ensures
        b.no_duplicates(),
        forall|x: (u64, u64)| a.contains(x) <==> b.contains(x),
{
    broadcast use vstd::multiset::group_multiset_axioms;
    broadcast use vstd::seq_lib::to_multiset_contains;
    a.lemma_multiset_has_no_duplicates();
    assert forall|x: (u64, u64)| b.to_multiset().contains(x) implies b.to_multiset().count(x) == 1 by {
        assert(a.to_multiset().contains(x));
    }
    b.lemma_multiset_has_no_duplicates_conv();
    assert forall|x: (u64, u64)| a.contains(x) <==> b.contains(x) by {
        assert(a.contains(x) <==> a.to_multiset().count(x) > 0);
        assert(b.contains(x) <==> b.to_multiset().count(x) > 0);
    }
}

impl<'a> QueryEngine<'a> {
    /// The page positions of the nodes an id list names.
    fn positions_of(&self, ids: &Vec<NodeId>) -> (r: Vec<(u64, u64)>)
        requires
            self.wf(),
            forall|i: int| 0 <= i < ids@.len() ==> self@.nodes.contains_key(#[trigger] ids@[i].0),
        ensures
            r@.len() == ids@.len(),
            forall|i: int| 0 <= i < ids@.len() ==> #[trigger] r@[i] == page_key(self@.nodes[ids@[i].0]),
    {
        let store: &'a Store = self.store;
        proof {
            store.lemma_view_fields();
        }
        let mut out: Vec<(u64, u64)> = Vec::new();
        let mut i: usize = 0;
        while i < ids.len()
            invariant
                i <= ids@.len(),
                self@ == store@,
                node_entries(store.nodes) == self@.nodes,
                store_view_wf(self@),
                forall|j: int| 0 <= j < ids@.len() ==> self@.nodes.contains_key(#[trigger] ids@[j].0),
                out@.len() == i,
                forall|j: int| 0 <= j < i ==> #[trigger] out@[j] == page_key(self@.nodes[ids@[j].0]),
            decreases ids@.len() - i,
        {
            match node_get(&store.nodes, &ids[i]) {
                Some(n) => {
                    out.push((n.created_at, ids[i].0));
                },
                None => {
                    out.push((0, ids[i].0));
                },
            }
            i = i + 1;
        }
        out
    }

    /// One page of nodes in creation order (ties by id): those passing the query's
    /// namespace, label, time-window and cursor filters, at most the clamped limit of
    /// them, with the cursor of the last entry when more remain.
    pub fn nodes_page(&self, query: &NodeQuery) -> (r: NodePage<'a>)
        requires
            self.wf(),
            page_cursor_readable(*query),
        ensures
            node_refs_view(r.entries@).len() <= page_limit(*query),
            forall|i: int| 0 <= i < r.entries@.len() ==> {
                let n = #[trigger] node_refs_view(r.entries@)[i];
                page_matches(self@, *query).contains(n.id.0) && n == self@.nodes[n.id.0]
            },
            forall|i: int, j: int| 0 <= i < j < r.entries@.len() ==> key_lt(
                page_key(node_refs_view(r.entries@)[i]),
                page_key(node_refs_view(r.entries@)[j]),
            ),
            forall|k: u64| #[trigger] page_matches(self@, *query).contains(k) ==> holds_node(node_refs_view(r.entries@), k) || (
                r.entries@.len() == page_limit(*query) && key_lt(
                    page_key(node_refs_view(r.entries@).last()),
                    page_key(self@.nodes[k]),
                )),
            match r.next_cursor {
                Some(c) => r.entries@.len() == page_limit(*query) && c@ == cursor_text(
                    node_refs_view(r.entries@).last().created_at,
                    node_refs_view(r.entries@).last().id.0,
                ) && exists|k: u64| #[trigger] page_matches(self@, *query).contains(k) && !holds_node(node_refs_view(r.entries@), k),
                None => forall|k: u64| #[trigger] page_matches(self@, *query).contains(k) ==> holds_node(node_refs_view(r.entries@), k),
            },
            is_page_of(self@, *query, node_refs_view(r.entries@), r.next_cursor is Some),
    {
        let store: &'a Store = self.store;
        proof {
            store.lemma_view_fields();
        }
        let ghost sv = self@;
        let ghost q = *query;
        let limit: usize = if query.limit < 1 {
            1
        } else if query.limit > MAX_PAGE {
            MAX_PAGE
        } else {
            query.limit
        };
        let after = match &query.cursor {
            Some(c) => parse_cursor(c.as_str()),
            None => None,
        };
        let indexed = match query.label {
            Some(l) => label_index_get(&store.node_label_index, &l),
            None => None,
        };
        let ghost cand: Seq<NodeId>;
        let mut keys = match indexed {
            Some(ids) => {
                proof {
                    cand = ids@;
                    let l = query.label.unwrap();
                    assert(sv.node_label_index.contains_key(l.0));
                    assert forall|i: int| 0 <= i < ids@.len() implies sv.nodes.contains_key(#[trigger] ids@[i].0) by {
                        assert(sv.node_label_index.contains_key(l.0));
                    }
                }
                self.positions_of(ids)
            },
            None => {
                let all = node_keys(&store.nodes);
                proof {
                    cand = all@;
                }
                self.positions_of(&all)
            },
        };
        // The candidates are distinct, and are exactly the nodes the label filter lets through.
        proof {
            assert(node_id_values(cand).no_duplicates()) by {
                if label_scoped(sv, q.label) {
                    let l = q.label.unwrap();
                    assert(cand == sv.node_label_index[l.0]);
                    assert forall|i: int, j: int| 0 <= i < cand.len() && 0 <= j < cand.len() && i != j
                        implies node_id_values(cand)[i] != node_id_values(cand)[j] by {
                        assert(cand[i] != cand[j]);
                    }
                }
            }
            assert forall|k: u64| sv.nodes.contains_key(k) && (label_scoped(sv, q.label) ==> Some(sv.nodes[k].label) == q.label)
                implies exists|i: int| 0 <= i < cand.len() && #[trigger] cand[i].0 == k by {
                if label_scoped(sv, q.label) {
                    let l = q.label.unwrap();
                    assert(sv.node_label_index[l.0].contains(NodeId(k)));
                    let i = choose|i: int| 0 <= i < cand.len() && cand[i] == NodeId(k);
                    assert(cand[i].0 == k);
                }
            }
            assert forall|i: int| 0 <= i < cand.len() implies sv.nodes.contains_key(#[trigger] cand[i].0)
                && (label_scoped(sv, q.label) ==> Some(sv.nodes[cand[i].0].label) == q.label) by {
                if label_scoped(sv, q.label) {
                    assert(sv.node_label_index.contains_key(q.label.unwrap().0));
                }
            }
        }
        let ghost unsorted = keys@;
        proof {
            assert(unsorted.no_duplicates()) by {
                assert forall|i: int, j: int| 0 <= i < unsorted.len() && 0 <= j < unsorted.len() && i != j
                    implies unsorted[i] != unsorted[j] by {
                    assert(unsorted[i] == page_key(sv.nodes[cand[i].0]));
                    assert(unsorted[j] == page_key(sv.nodes[cand[j].0]));
                    assert(node_id_values(cand)[i] != node_id_values(cand)[j]);
                }
            }
        }
        sort_positions(&mut keys);
        let ghost sorted = keys@;
        proof {
            lemma_permutation_facts(unsorted, sorted);
            lemma_sorted_distinct_strict(sorted);
        }
        let mut entries: Vec<&'a Node> = Vec::new();
        let mut next_cursor: Option<String> = None;
        let mut i: usize = 0;
        while i < keys.len()
            invariant_except_break
                next_cursor is None,
            invariant
                i <= keys@.len(),
                keys@ == sorted,
                sv == store@,
                node_entries(store.nodes) == sv.nodes,
                store_view_wf(sv),
                q == *query,
                after == page_cursor(q),
                limit == page_limit(q),
                entries@.len() <= limit,
                forall|x: (u64, u64)| unsorted.contains(x) <==> sorted.contains(x),
                forall|a: int, b: int| 0 <= a < b < sorted.len() ==> key_lt(sorted[a], sorted[b]),
                forall|j: int| 0 <= j < unsorted.len() ==> #[trigger] unsorted[j] == page_key(sv.nodes[cand[j].0]),
                unsorted.len() == cand.len(),
                forall|j: int| 0 <= j < cand.len() ==> sv.nodes.contains_key(#[trigger] cand[j].0)
                    && (label_scoped(sv, q.label) ==> Some(sv.nodes[cand[j].0].label) == q.label),
                forall|k: u64| sv.nodes.contains_key(k) && (label_scoped(sv, q.label) ==> Some(sv.nodes[k].label) == q.label)
                    ==> exists|j: int| 0 <= j < cand.len() && #[trigger] cand[j].0 == k,
                forall|j: int| 0 <= j < entries@.len() ==> {
                    let n = #[trigger] node_refs_view(entries@)[j];
                    page_matches(sv, q).contains(n.id.0) && n == sv.nodes[n.id.0]
                        && exists|p: int| 0 <= p < i && sorted[p] == page_key(n)
                },
                forall|a: int, b: int| 0 <= a < b < entries@.len() ==> key_lt(
                    page_key(node_refs_view(entries@)[a]),
                    page_key(node_refs_view(entries@)[b]),
                ),
                forall|p: int| 0 <= p < i && page_matches(sv, q).contains(#[trigger] sorted[p].1) ==> holds_node(node_refs_view(entries@), sorted[p].1),
            ensures
                entries@.len() <= limit,
                forall|j: int| 0 <= j < entries@.len() ==> {
                    let n = #[trigger] node_refs_view(entries@)[j];
                    page_matches(sv, q).contains(n.id.0) && n == sv.nodes[n.id.0]
                },
                forall|a: int, b: int| 0 <= a < b < entries@.len() ==> key_lt(
                    page_key(node_refs_view(entries@)[a]),
                    page_key(node_refs_view(entries@)[b]),
                ),
                i <= keys@.len(),
                forall|p: int| 0 <= p < i && page_matches(sv, q).contains(#[trigger] sorted[p].1) ==> holds_node(node_refs_view(entries@), sorted[p].1),
                next_cursor is None ==> i == keys@.len(),
                next_cursor matches Some(c) ==> entries@.len() == limit && c@ == cursor_text(
                    node_refs_view(entries@).last().created_at,
                    node_refs_view(entries@).last().id.0,
                ) && (exists|k: u64| #[trigger] page_matches(sv, q).contains(k) && !holds_node(node_refs_view(entries@), k))
                    && forall|k: u64| #[trigger] page_matches(sv, q).contains(k) ==> holds_node(node_refs_view(entries@), k) || (
                    entries@.len() == limit && key_lt(page_key(node_refs_view(entries@).last()), page_key(sv.nodes[k]))),
            decreases keys@.len() - i,
        {
            let pos = keys[i];
            let ghost before = entries@;
            proof {
                assert(sorted.contains(pos));
                assert(unsorted.contains(pos));
                let j = choose|j: int| 0 <= j < unsorted.len() && unsorted[j] == pos;
                assert(unsorted[j] == page_key(sv.nodes[cand[j].0]));
                assert(sv.nodes.contains_key(cand[j].0));
                assert(pos.1 == cand[j].0);
            }
            let node = match node_get(&store.nodes, &NodeId(pos.1)) {
                Some(n) => n,
                None => {
                    i = i + 1;
                    continue;
                },
            };
            let ns_ok = match &query.namespace {
                Some(ns) => node.namespace == *ns,
                None => true,
            };
            let after_ok = match query.created_after {
                Some(at) => node.created_at > at,
                None => true,
            };
            let before_ok = match query.created_before {
                Some(at) => node.created_at < at,
                None => true,
            };
            let cursor_ok = match after {
                Some(key) => key.0 < node.created_at || (key.0 == node.created_at && key.1 < node.id.0),
                None => true,
            };
            let ghost matched = page_matches(sv, q).contains(pos.1);
            proof {
                assert(sv.nodes[pos.1].id.0 == pos.1);
                assert(pos == page_key(sv.nodes[pos.1]));
                assert(matched == (ns_ok && after_ok && before_ok && cursor_ok));
            }
            if !(ns_ok && after_ok && before_ok && cursor_ok) {
                proof {
                    assert forall|p: int| 0 <= p < i + 1 && page_matches(sv, q).contains(#[trigger] sorted[p].1)
                        implies holds_node(node_refs_view(entries@), sorted[p].1) by {
                        if p == i {
                            assert(false);
                        }
                    }
                }
                i = i + 1;
                continue;
            }
            if entries.len() == limit {
                let last = entries[entries.len() - 1];
                next_cursor = Some(format_cursor(last.created_at, last.id.0));
                proof {
                    let es = node_refs_view(entries@);
                    let lastv = es.last();
                    assert(lastv == last@);
                    let pl = choose|p: int| 0 <= p < i && sorted[p] == page_key(lastv);
                    assert(key_lt(page_key(lastv), pos));
                    assert forall|a: int| 0 <= a < es.len() implies key_le(page_key(#[trigger] es[a]), page_key(lastv)) by {
                        if a < es.len() - 1 {
                            assert(key_lt(page_key(es[a]), page_key(es[es.len() - 1])));
                        }
                    }
                    assert(!holds_node(es, pos.1)) by {
                        if holds_node(es, pos.1) {
                            let a = choose|a: int| 0 <= a < es.len() && #[trigger] es[a].id.0 == pos.1;
                            assert(es[a] == sv.nodes[es[a].id.0]);
                            assert(key_le(page_key(es[a]), page_key(lastv)));
                        }
                    }
                    assert(page_matches(sv, q).contains(pos.1));
                    assert forall|k: u64| #[trigger] page_matches(sv, q).contains(k) implies holds_node(es, k) || (
                        es.len() == limit && key_lt(page_key(lastv), page_key(sv.nodes[k]))) by {
                        let kk = page_key(sv.nodes[k]);
                        assert(sv.nodes[k].id.0 == k);
                        let j = choose|j: int| 0 <= j < cand.len() && #[trigger] cand[j].0 == k;
                        assert(unsorted[j] == kk);
                        assert(unsorted.contains(kk));
                        assert(sorted.contains(kk));
                        let p = choose|p: int| 0 <= p < sorted.len() && sorted[p] == kk;
                        if p < i {
                            assert(sorted[p].1 == k);
                        } else {
                            assert(key_lt(sorted[pl], sorted[p]));
                        }
                    }
                }
                break;
            }
            entries.push(node);
            proof {
                let es = node_refs_view(entries@);
                assert(es =~= node_refs_view(before).push(node@));
                assert(node@ == sv.nodes[pos.1]);
                assert forall|a: int| 0 <= a < before.len() implies key_lt(page_key(#[trigger] node_refs_view(before)[a]), pos) by {
                    let pa = choose|p: int| 0 <= p < i && sorted[p] == page_key(node_refs_view(before)[a]);
                }
                assert forall|j: int| 0 <= j < es.len() implies {
                    let n = #[trigger] es[j];
                    page_matches(sv, q).contains(n.id.0) && n == sv.nodes[n.id.0]
                        && exists|p: int| 0 <= p < i + 1 && sorted[p] == page_key(n)
                } by {
                    if j < before.len() {
                        assert(es[j] == node_refs_view(before)[j]);
                        let pa = choose|p: int| 0 <= p < i && sorted[p] == page_key(node_refs_view(before)[j]);
                    } else {
                        assert(sorted[i as int] == page_key(es[j]));
                    }
                }
                assert forall|p: int| 0 <= p < i + 1 && page_matches(sv, q).contains(#[trigger] sorted[p].1)
                    implies holds_node(es, sorted[p].1) by {
                    if p < i {
                        let a = choose|a: int| 0 <= a < before.len() && #[trigger] node_refs_view(before)[a].id.0 == sorted[p].1;
                        assert(es[a] == node_refs_view(before)[a]);
                    } else {
                        assert(es[before.len() as int].id.0 == sorted[p].1);
                    }
                }
            }
            i = i + 1;
        }
        proof {
            if next_cursor is None {
                let es = node_refs_view(entries@);
                assert(i == keys@.len());
                assert forall|k: u64| #[trigger] page_matches(sv, q).contains(k) implies holds_node(es, k) by {
                    let kk = page_key(sv.nodes[k]);
                    assert(sv.nodes[k].id.0 == k);
                    let j = choose|j: int| 0 <= j < cand.len() && #[trigger] cand[j].0 == k;
                    assert(unsorted[j] == kk);
                    assert(unsorted.contains(kk));
                    let p = choose|p: int| 0 <= p < sorted.len() && sorted[p] == kk;
                    assert(sorted[p].1 == k);
                }
            }
        }
        NodePage { entries, next_cursor }
    }
}



/// A numeric property value, as an aggregate reads it: an integer, or the bits of a
/// finite `f64`.
#[derive(Clone, Copy, Debug, PartialEq, Eq, Structural)]
pub enum NumericSample {
    Int(i64),
    Float(u64),
}

/// The value of the first property with key `key`, if any.
pub open spec fn first_value_of(props: Seq<(KeyId, ScalarView)>, key: KeyId) -> Option<ScalarView>
    decreases props.len(),
{
    if props.len() == 0 {
        None
    } else if props[0].0 == key {
        Some(props[0].1)
    } else {
        first_value_of(props.drop_first(), key)
    }
}

/// What an aggregate takes from a property value: integers, and finite floats.
pub open spec fn numeric_sample(v: Option<ScalarView>) -> Option<NumericSample> {
    match v {
        Some(ScalarView::I64(i)) => Some(NumericSample::Int(i)),
        Some(ScalarView::F64(bits)) => if f64_bits_finite(bits) {
            Some(NumericSample::Float(bits))
        } else {
            None
        },
        _ => None,
    }
}

/// The samples the listed nodes give, in list order: for each node in the namespace
/// filter whose first property with the key is numeric, that value.
pub open spec fn samples_of(s: StoreView, ids: Seq<u64>, namespace: Option<Seq<char>>, key: KeyId) -> Seq<NumericSample>
    decreases ids.len(),
{
    if ids.len() == 0 {
        Seq::empty()
    } else {
        let rest = samples_of(s, ids.drop_last(), namespace, key);
        let n = s.nodes[ids.last()];
        match numeric_sample(first_value_of(n.properties, key)) {
            Some(v) => if namespace_admits(namespace, n) {
                rest.push(v)
            } else {
                rest
            },
            None => rest,
        }
    }
}

/// Aggregating a numeric property takes exactly the numbers: every listed node that
/// passes the namespace filter and whose first property with the key is an integer or
/// a finite float contributes that value, and every sample is such a value of some
/// listed node that passes the filter (a non-finite float, or any other kind of value,
/// contributes nothing).
pub proof fn numeric_samples_are_the_numbers(s: StoreView, ids: Seq<u64>, namespace: Option<Seq<char>>, key: KeyId)
    ensures
        forall|j: int| 0 <= j < ids.len() && namespace_admits(namespace, s.nodes[ids[j]]) ==> match #[trigger] first_value_of(
            s.nodes[ids[j]].properties,
            key,
        ) {
            Some(ScalarView::I64(i)) => samples_of(s, ids, namespace, key).contains(NumericSample::Int(i)),
            Some(ScalarView::F64(b)) => f64_bits_finite(b) ==> samples_of(s, ids, namespace, key).contains(
                NumericSample::Float(b),
            ),
            _ => true,
        },
        forall|m: int| 0 <= m < samples_of(s, ids, namespace, key).len() ==> exists|j: int| 0 <= j < ids.len()
            && namespace_admits(namespace, s.nodes[ids[j]]) && match #[trigger] samples_of(s, ids, namespace, key)[m] {
                NumericSample::Int(i) => first_value_of(s.nodes[ids[j]].properties, key) == Some(ScalarView::I64(i)),
                NumericSample::Float(b) => first_value_of(s.nodes[ids[j]].properties, key) == Some(ScalarView::F64(b))
                    && f64_bits_finite(b),
            },
    decreases ids.len(),
{
    if ids.len() > 0 {
        let front = ids.drop_last();
        numeric_samples_are_the_numbers(s, front, namespace, key);
        let rest = samples_of(s, front, namespace, key);
        let all = samples_of(s, ids, namespace, key);
        let last = ids.len() - 1;
        let n = s.nodes[ids[last]];
        assert(ids.last() == ids[last]);
        assert forall|j: int| 0 <= j < ids.len() && namespace_admits(namespace, s.nodes[ids[j]]) implies match #[trigger] first_value_of(
            s.nodes[ids[j]].properties,
            key,
        ) {
            Some(ScalarView::I64(i)) => all.contains(NumericSample::Int(i)),
            Some(ScalarView::F64(b)) => f64_bits_finite(b) ==> all.contains(NumericSample::Float(b)),
            _ => true,
        } by {
            let v = first_value_of(s.nodes[ids[j]].properties, key);
            if j < last {
                assert(front[j] == ids[j]);
                assert(first_value_of(s.nodes[front[j]].properties, key) == v);
                match v {
                    Some(ScalarView::I64(i)) => {
                        let m = choose|m: int| 0 <= m < rest.len() && rest[m] == NumericSample::Int(i);
                        assert(all[m] == rest[m]);
                    },
                    Some(ScalarView::F64(b)) => {
                        if f64_bits_finite(b) {
                            let m = choose|m: int| 0 <= m < rest.len() && rest[m] == NumericSample::Float(b);
                            assert(all[m] == rest[m]);
                        }
                    },
                    _ => {},
                }
            } else {
                match v {
                    Some(ScalarView::I64(i)) => {
                        assert(all[all.len() - 1] == NumericSample::Int(i));
                    },
                    Some(ScalarView::F64(b)) => {
                        if f64_bits_finite(b) {
                            assert(all[all.len() - 1] == NumericSample::Float(b));
                        }
                    },
                    _ => {},
                }
            }
        }
        assert forall|m: int| 0 <= m < all.len() implies exists|j: int| 0 <= j < ids.len()
            && namespace_admits(namespace, s.nodes[ids[j]]) && match #[trigger] all[m] {
                NumericSample::Int(i) => first_value_of(s.nodes[ids[j]].properties, key) == Some(ScalarView::I64(i)),
                NumericSample::Float(b) => first_value_of(s.nodes[ids[j]].properties, key) == Some(ScalarView::F64(b))
                    && f64_bits_finite(b),
            } by {
            if m < rest.len() {
                assert(all[m] == rest[m]);
                let j = choose|j: int| 0 <= j < front.len()
                    && namespace_admits(namespace, s.nodes[front[j]]) && match #[trigger] rest[m] {
                        NumericSample::Int(i) => first_value_of(s.nodes[front[j]].properties, key) == Some(ScalarView::I64(i)),
                        NumericSample::Float(b) => first_value_of(s.nodes[front[j]].properties, key) == Some(ScalarView::F64(b))
                            && f64_bits_finite(b),
                    };
                assert(front[j] == ids[j]);
            } else {
                assert(namespace_admits(namespace, s.nodes[ids[last]]));
            }
        }
    }
}

/// Every node of the store that passes the filters is sampled when its value is a
/// number: for a listing of the candidates, each stored node that passes the namespace
/// filter (and has the label, when the label goes through the index) contributes its
/// integer or finite float.
proof fn lemma_store_samples(s: StoreView, label: Option<LabelId>, ids: Seq<u64>, namespace: Option<Seq<char>>, key: KeyId)
    requires
        store_view_wf(s),
        candidate_listing(s, label, ids),
    ensures
        forall|k: u64| #[trigger] s.nodes.contains_key(k) && namespace_admits(namespace, s.nodes[k]) && (label_scoped(s, label)
            ==> Some(s.nodes[k].label) == label) ==> match first_value_of(s.nodes[k].properties, key) {
            Some(ScalarView::I64(i)) => samples_of(s, ids, namespace, key).contains(NumericSample::Int(i)),
            Some(ScalarView::F64(b)) => f64_bits_finite(b) ==> samples_of(s, ids, namespace, key).contains(
                NumericSample::Float(b),
            ),
            _ => true,
        },
{
    numeric_samples_are_the_numbers(s, ids, namespace, key);
    assert forall|k: u64| #[trigger] s.nodes.contains_key(k) && namespace_admits(namespace, s.nodes[k]) && (label_scoped(
        s,
        label,
    ) ==> Some(s.nodes[k].label) == label) implies exists|j: int| 0 <= j < ids.len() && ids[j] == k by {
        if label_scoped(s, label) {
            let l = label.unwrap();
            assert(s.nodes[k].label == l);
            assert(s.node_label_index[l.0].contains(NodeId(k)));
            let j = choose|j: int| 0 <= j < s.node_label_index[l.0].len() && s.node_label_index[l.0][j] == NodeId(k);
            assert(ids[j] == k);
        } else {
            assert(ids.to_set().contains(k));
        }
    }
    assert forall|k: u64| #[trigger] s.nodes.contains_key(k) && namespace_admits(namespace, s.nodes[k]) && (label_scoped(s, label)
        ==> Some(s.nodes[k].label) == label) implies match first_value_of(s.nodes[k].properties, key) {
        Some(ScalarView::I64(i)) => samples_of(s, ids, namespace, key).contains(NumericSample::Int(i)),
        Some(ScalarView::F64(b)) => f64_bits_finite(b) ==> samples_of(s, ids, namespace, key).contains(
            NumericSample::Float(b),
        ),
        _ => true,
    } by {
        let j = choose|j: int| 0 <= j < ids.len() && ids[j] == k;
        assert(first_value_of(s.nodes[ids[j]].properties, key) == first_value_of(s.nodes[k].properties, key));
    }
}

/// The order in which an aggregate visits nodes: the label index's list when the label
/// goes through it, otherwise every node once, in the map's own order.
pub open spec fn candidate_listing(s: StoreView, label: Option<LabelId>, ids: Seq<u64>) -> bool {
    if label_scoped(s, label) {
        ids == node_id_values(s.node_label_index[label.unwrap().0])
    } else {
        ids.no_duplicates() && ids.to_set() == s.nodes.dom()
    }
}

/// The first property value with key `key`.
fn first_value<'b>(props: &'b Vec<(KeyId, Scalar)>, key: KeyId) -> (r: Option<&'b Scalar>)
    ensures
        match r {
            Some(v) => first_value_of(props_view(props@), key) == Some(v@),
            None => first_value_of(props_view(props@), key) is None,
        },
{
    let ghost pv = props_view(props@);
    proof {
        assert(pv.subrange(0, pv.len() as int) =~= pv);
    }
    let mut i: usize = 0;
    while i < props.len()
        invariant
            i <= props@.len(),
            pv == props_view(props@),
            first_value_of(pv, key) == first_value_of(pv.subrange(i as int, pv.len() as int), key),
        decreases props@.len() - i,
    {
        let ghost rest = pv.subrange(i as int, pv.len() as int);
        proof {
            assert(rest[0] == pv[i as int]);
            assert(rest.drop_first() =~= pv.subrange(i + 1, pv.len() as int));
        }
        if props[i].0 == key {
            return Some(&props[i].1);
        }
        i = i + 1;
    }
    proof {
        assert(pv.subrange(i as int, pv.len() as int) =~= Seq::<(KeyId, ScalarView)>::empty());
    }
    None
}

impl<'a> QueryEngine<'a> {
    /// The samples the nodes of an id list give (all present), in list order.
    fn samples_from(&self, ids: &Vec<NodeId>, namespace: Option<&NamespaceId>, key: KeyId) -> (r: Vec<NumericSample>)
        requires
            self.wf(),
            forall|i: int| 0 <= i < ids@.len() ==> self@.nodes.contains_key(#[trigger] ids@[i].0),
        ensures
            r@ == samples_of(self@, node_id_values(ids@), namespace_filter_view(namespace), key),
    {
        let store: &'a Store = self.store;
        proof {
            store.lemma_view_fields();
        }
        let ghost ks = node_id_values(ids@);
        let ghost nsv = namespace_filter_view(namespace);
        let mut out: Vec<NumericSample> = Vec::new();
        let mut i: usize = 0;
        while i < ids.len()
            invariant
                i <= ids@.len(),
                self@ == store@,
                node_entries(store.nodes) == self@.nodes,
                ks == node_id_values(ids@),
                nsv == namespace_filter_view(namespace),
                forall|j: int| 0 <= j < ids@.len() ==> self@.nodes.contains_key(#[trigger] ids@[j].0),
                out@ == samples_of(self@, ks.subrange(0, i as int), nsv, key),
            decreases ids@.len() - i,
        {
            proof {
                let pre = ks.subrange(0, i + 1);
                assert(pre.drop_last() =~= ks.subrange(0, i as int));
                assert(pre.last() == ids@[i as int].0);
            }
            match node_get(&store.nodes, &ids[i]) {
                Some(n) => {
                    let admitted = match namespace {
                        Some(ns) => n.namespace == *ns,
                        None => true,
                    };
                    let sample = match first_value(&n.properties, key) {
                        Some(Scalar::I64(v)) => Some(NumericSample::Int(*v)),
                        Some(Scalar::F64(bits)) => if f64_bits_is_finite(*bits) {
                            Some(NumericSample::Float(*bits))
                        } else {
                            None
                        },
                        _ => None,
                    };
                    match sample {
                        Some(v) => {
                            if admitted {
                                out.push(v);
                            }
                        },
                        None => {},
                    }
                },
                None => {},
            }
            i = i + 1;
        }
        proof {
            assert(ks.subrange(0, i as int) =~= ks);
        }
        out
    }

    /// The numeric values an aggregate of property `key` takes: over the nodes the label
    /// filter lets through (a label the index has never seen filters nothing), in the
    /// namespace filter, the value of each node's first property with that key when it
    /// is an integer or a finite float.
    pub fn numeric_property_samples(&self, namespace: Option<&NamespaceId>, label: Option<LabelId>, key: KeyId) -> (r: Vec<NumericSample>)
        requires
            self.wf(),
        ensures
            exists|ids: Seq<u64>| candidate_listing(self@, label, ids) && r@ == #[trigger] samples_of(self@, ids, namespace_filter_view(namespace), key),
            forall|k: u64| #[trigger] self@.nodes.contains_key(k) && namespace_admits(namespace_filter_view(namespace), self@.nodes[k])
                && (label_scoped(self@, label) ==> Some(self@.nodes[k].label) == label) ==> match first_value_of(
                self@.nodes[k].properties,
                key,
            ) {
                Some(ScalarView::I64(i)) => r@.contains(NumericSample::Int(i)),
                Some(ScalarView::F64(b)) => f64_bits_finite(b) ==> r@.contains(NumericSample::Float(b)),
                _ => true,
            },
    {
        let store: &'a Store = self.store;
        proof {
            store.lemma_view_fields();
        }
        let ghost s = self@;
        let indexed = match label {
            Some(l) => label_index_get(&store.node_label_index, &l),
            None => None,
        };
        match indexed {
            Some(ids) => {
                proof {
                    let l = label.unwrap();
                    assert forall|i: int| 0 <= i < ids@.len() implies s.nodes.contains_key(#[trigger] ids@[i].0) by {
                        assert(s.node_label_index.contains_key(l.0));
                    }
                }
                let r = self.samples_from(ids, namespace, key);
                proof {
                    assert(candidate_listing(s, label, node_id_values(ids@)));
                    lemma_store_samples(s, label, node_id_values(ids@), namespace_filter_view(namespace), key);
                }
                r
            },
            None => {
                let keys = node_keys(&store.nodes);
                let r = self.samples_from(&keys, namespace, key);
                proof {
                    let ks = node_id_values(keys@);
                    assert(ks.no_duplicates());
                    assert forall|k: u64| #[trigger] ks.to_set().contains(k) == s.nodes.dom().contains(k) by {
                        if s.nodes.contains_key(k) {
                            let j = choose|j: int| 0 <= j < keys@.len() && #[trigger] keys@[j].0 == k;
                            assert(ks[j] == k);
                        }
                        if ks.to_set().contains(k) {
                            let j = choose|j: int| 0 <= j < ks.len() && ks[j] == k;
                            assert(keys@[j].0 == k);
                        }
                    }
                    assert(ks.to_set() =~= s.nodes.dom());
                    assert(candidate_listing(s, label, ks));
                    lemma_store_samples(s, label, ks, namespace_filter_view(namespace), key);
                }
                r
            },
        }
    }
}

} // verus!
