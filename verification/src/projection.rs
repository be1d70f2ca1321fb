//! The graph projected onto adjacency lists.

use crate::graph_maps::{adjacency_entries, adjacency_get, adjacency_keys, edge_entries, edge_get, node_entries, node_keys};
use crate::edge::Edge;
use crate::id::{EdgeId, NodeId};
use crate::node::Node;
use crate::ontology::StringTableExt;
use crate::store::{list_or_empty, Store, StoreView};
use vstd::prelude::*;
use vstd::string::*;
use vstd::utf8::encode_utf8;

verus! {

/// What an `AHashMap` of successor lists by node holds, keyed and valued abstractly.
pub uninterp spec fn successor_entries(m: ahash::AHashMap<NodeId, Vec<NodeId>>) -> Map<u64, Seq<NodeId>>;

/// Calls `AHashMap::new`: the new map is empty.
#[verifier::external_body]
fn successor_new() -> (m: ahash::AHashMap<NodeId, Vec<NodeId>>)
    ensures
        successor_entries(m).is_empty(),
{
    ahash::AHashMap::new()
}

/// Calls `AHashMap::insert`: afterwards `k` maps to `v` and every other entry is kept.
#[verifier::external_body]
fn successor_insert(m: &mut ahash::AHashMap<NodeId, Vec<NodeId>>, k: NodeId, v: Vec<NodeId>)
    ensures
        successor_entries(*final(m)) == successor_entries(*old(m)).insert(k.0, v@),
{
    m.insert(k, v);
}

/// The targets of the edges leaving node `n`, in the order its outgoing index lists them.
pub open spec fn successors(s: StoreView, n: u64) -> Seq<NodeId> {
    list_or_empty(s.outgoing, n).map_values(|e: EdgeId| s.edges[e.0].dst)
}


/// `s` with every double-quote byte doubled, as a quoted CSV field asks.
pub open spec fn csv_escaped(s: Seq<u8>) -> Seq<u8>
    decreases s.len(),
{
    if s.len() == 0 {
        Seq::empty()
    } else if s.last() == 34u8 {
        csv_escaped(s.drop_last()) + seq![34u8, 34u8]
    } else {
        csv_escaped(s.drop_last()).push(s.last())
    }
}

/// `n` in decimal ASCII digits, without leading zeros.
pub open spec fn decimal_bytes(n: nat) -> Seq<u8>
    decreases n,
{
    if n < 10 {
        seq![(48 + n) as u8]
    } else {
        decimal_bytes(n / 10).push((48 + n % 10) as u8)
    }
}

/// The string interned under `id`, or `?` when the table holds none.
pub open spec fn name_or_unknown(table: Seq<Seq<char>>, id: u32) -> Seq<char> {
    if id < table.len() {
        table[id as int]
    } else {
        seq!['?']
    }
}

/// The CSV row of a node: its id, its label's name and its properties (JSON text) as a
/// quoted field, then a line end.
pub open spec fn node_row(table: Seq<Seq<char>>, id: u64, label: u32, properties: Seq<u8>) -> Seq<u8> {
    decimal_bytes(id as nat) + seq![44u8] + encode_utf8(name_or_unknown(table, label)) + seq![44u8, 34u8]
        + csv_escaped(properties) + seq![34u8, 10u8]
}

/// The CSV row of an edge: its id, source, target, its label's name and its properties
/// (JSON text) as a quoted field, then a line end.
pub open spec fn edge_row(table: Seq<Seq<char>>, id: u64, src: u64, dst: u64, label: u32, properties: Seq<u8>) -> Seq<u8> {
    decimal_bytes(id as nat) + seq![44u8] + decimal_bytes(src as nat) + seq![44u8] + decimal_bytes(dst as nat)
        + seq![44u8] + encode_utf8(name_or_unknown(table, label)) + seq![44u8, 34u8] + csv_escaped(properties)
        + seq![34u8, 10u8]
}

/// Appends the bytes of `b`.
fn append_bytes(out: &mut Vec<u8>, b: &[u8])
    ensures
        final(out)@ == old(out)@ + b@,
{
    let mut i: usize = 0;
    while i < b.len()
        invariant
            i <= b@.len(),
            out@ == old(out)@ + b@.take(i as int),
        decreases b@.len() - i,
    {
        out.push(b[i]);
        proof {
            assert(b@.take(i + 1) =~= b@.take(i as int).push(b@[i as int]));
        }
        i = i + 1;
    }
    proof {
        assert(b@.take(b@.len() as int) =~= b@);
    }
}

/// Appends `b` with every double quote doubled.
fn append_escaped(out: &mut Vec<u8>, b: &[u8])
    ensures
        final(out)@ == old(out)@ + csv_escaped(b@),
{
    let mut i: usize = 0;
    while i < b.len()
        invariant
            i <= b@.len(),
            out@ == old(out)@ + csv_escaped(b@.take(i as int)),
        decreases b@.len() - i,
    {
        proof {
            let t = b@.take(i + 1);
            assert(t.drop_last() =~= b@.take(i as int));
            assert(t.last() == b@[i as int]);
        }
        if b[i] == 34u8 {
            out.push(34u8);
            out.push(34u8);
            proof {
                assert(old(out)@ + csv_escaped(b@.take(i + 1)) =~= old(out)@ + csv_escaped(b@.take(i as int))
                    + seq![34u8, 34u8]);
            }
        } else {
            out.push(b[i]);
            proof {
                assert(old(out)@ + csv_escaped(b@.take(i + 1)) =~= (old(out)@ + csv_escaped(b@.take(i as int))).push(
                    b@[i as int],
                ));
            }
        }
        i = i + 1;
    }
    proof {
        assert(b@.take(b@.len() as int) =~= b@);
    }
}

/// Appends `n` in decimal digits.
fn append_decimal_bytes(out: &mut Vec<u8>, n: u64)
    ensures
        final(out)@ == old(out)@ + decimal_bytes(n as nat),
    decreases n,
{
    if n >= 10 {
        append_decimal_bytes(out, n / 10);
    }
    let digit: u8 = (48 + n % 10) as u8;
    out.push(digit);
    proof {
        if n >= 10 {
            assert(decimal_bytes(n as nat) == decimal_bytes((n / 10) as nat).push((48 + n % 10) as u8));
        }
    }
}

/// The header line of a node CSV export.
pub fn node_csv_header() -> (r: &'static str)
    ensures
        r@ == "id,label,properties\n"@,
{
    "id,label,properties\n"
}

/// The header line of an edge CSV export.
pub fn edge_csv_header() -> (r: &'static str)
    ensures
        r@ == "id,src,dst,label,properties\n"@,
{
    "id,src,dst,label,properties\n"
}

impl Store {
    /// The targets of the edges leaving node `n`.
    fn successors_of(&self, n: NodeId) -> (r: Vec<NodeId>)
        requires
            self.wf(),
        ensures
            r@ == successors(self@, n.0),
    {
        proof {
            self.lemma_view_fields();
        }
        let mut out: Vec<NodeId> = Vec::new();
        match adjacency_get(&self.outgoing, &n) {
            None => {
                proof {
                    assert(out@ =~= successors(self@, n.0));
                }
            },
            Some(ids) => {
                let ghost list = ids@;
                let mut i: usize = 0;
                while i < ids.len()
                    invariant
                        self.wf(),
                        crate::store::store_view_wf(self@),
                        i <= ids@.len(),
                        list == ids@,
                        list == list_or_empty(self@.outgoing, n.0),
                        self@.outgoing == adjacency_entries(self.outgoing),
                        self@.edges == edge_entries(self.edges),
                        self@.outgoing.contains_key(n.0),
                        out@ =~= list.take(i as int).map_values(|e: EdgeId| self@.edges[e.0].dst),
                    decreases ids@.len() - i,
                {
                    let e = ids[i];
                    proof {
                        assert(self@.edges.contains_key(self@.outgoing[n.0][i as int].0));
                    }
                    match edge_get(&self.edges, &e) {
                        Some(edge) => {
                            out.push(edge.dst);
                        },
                        None => {},
                    }
                    proof {
                        assert(list.take(i + 1) =~= list.take(i as int).push(e));
                    }
                    i = i + 1;
                }
                proof {
                    assert(list.take(list.len() as int) =~= list);
                }
            },
        }
        out
    }

    /// The name interned under `id`, or `?` when the table holds none.
    pub fn name_of(&self, id: u32) -> (r: &str)
        requires
            self.wf(),
        ensures
            r@ == name_or_unknown(self@.strings, id),
    {
        match self.string_table().resolve(id) {
            Some(name) => name,
            None => {
                proof {
                    reveal_strlit("?");
                }
                "?"
            },
        }
    }

    /// The CSV row of `node`, with `properties_json` the JSON text of its properties.
    pub fn node_csv_row(&self, node: &Node, properties_json: &str) -> (r: Vec<u8>)
        requires
            self.wf(),
        ensures
            r@ == node_row(self@.strings, node.id.0, node.label.0, properties_json.spec_bytes()),
    {
        let mut out: Vec<u8> = Vec::new();
        append_decimal_bytes(&mut out, node.id.0);
        out.push(44u8);
        append_bytes(&mut out, self.name_of(node.label.0).as_bytes());
        out.push(44u8);
        out.push(34u8);
        append_escaped(&mut out, properties_json.as_bytes());
        out.push(34u8);
        out.push(10u8);
        proof {
            assert(out@ =~= node_row(self@.strings, node.id.0, node.label.0, properties_json.spec_bytes()));
        }
        out
    }

    /// The CSV row of `edge`, with `properties_json` the JSON text of its properties.
    pub fn edge_csv_row(&self, edge: &Edge, properties_json: &str) -> (r: Vec<u8>)
        requires
            self.wf(),
        ensures
            r@ == edge_row(self@.strings, edge.id.0, edge.src.0, edge.dst.0, edge.label.0, properties_json.spec_bytes()),
    {
        let mut out: Vec<u8> = Vec::new();
        append_decimal_bytes(&mut out, edge.id.0);
        out.push(44u8);
        append_decimal_bytes(&mut out, edge.src.0);
        out.push(44u8);
        append_decimal_bytes(&mut out, edge.dst.0);
        out.push(44u8);
        append_bytes(&mut out, self.name_of(edge.label.0).as_bytes());
        out.push(44u8);
        out.push(34u8);
        append_escaped(&mut out, properties_json.as_bytes());
        out.push(34u8);
        out.push(10u8);
        proof {
            assert(out@ =~= edge_row(self@.strings, edge.id.0, edge.src.0, edge.dst.0, edge.label.0, properties_json.spec_bytes()));
        }
        out
    }

    /// Every node and every edge source with the targets of the edges leaving it.
    pub fn to_adjacency_list(&self) -> (r: ahash::AHashMap<NodeId, Vec<NodeId>>)
        requires
            self.wf(),
        ensures
            forall|k: u64| #[trigger] successor_entries(r).contains_key(k) <==> (self@.nodes.contains_key(k)
                || self@.outgoing.contains_key(k)),
            forall|k: u64| #[trigger] successor_entries(r).contains_key(k) ==> successor_entries(r)[k] == successors(self@, k),
    {
        proof {
            self.lemma_view_fields();
        }
        let mut adj = successor_new();
        let ids = node_keys(&self.nodes);
        let mut i: usize = 0;
        while i < ids.len()
            invariant
                self.wf(),
                i <= ids@.len(),
                self@.nodes == node_entries(self.nodes),
                forall|j: int| 0 <= j < ids@.len() ==> node_entries(self.nodes).contains_key(#[trigger] ids@[j].0),
                forall|k: u64| node_entries(self.nodes).contains_key(k) ==> exists|j: int| 0 <= j < ids@.len() && #[trigger] ids@[j].0 == k,
                forall|k: u64| #[trigger] successor_entries(adj).contains_key(k) <==> exists|j: int| 0 <= j < i && #[trigger] ids@[j].0 == k,
                forall|k: u64| #[trigger] successor_entries(adj).contains_key(k) ==> successor_entries(adj)[k] == successors(self@, k),
            decreases ids@.len() - i,
        {
            let k = ids[i];
            let list = self.successors_of(k);
            successor_insert(&mut adj, k, list);
            proof {
                assert forall|x: u64| #[trigger] successor_entries(adj).contains_key(x) <==> exists|j: int| 0 <= j < i + 1 && #[trigger] ids@[j].0 == x by {
                    if x == k.0 {
                        assert(ids@[i as int].0 == x);
                    }
                }
            }
            i = i + 1;
        }
        proof {
            assert forall|k: u64| #[trigger] successor_entries(adj).contains_key(k) <==> (self@.nodes.contains_key(k) || exists|m: int|
                0 <= m < 0 && #[trigger] ids@[m].0 == k) by {
                if self@.nodes.contains_key(k) {
                    let j = choose|j: int| 0 <= j < ids@.len() && #[trigger] ids@[j].0 == k;
                    assert(successor_entries(adj).contains_key(ids@[j].0));
                }
            }
        }
        let srcs = adjacency_keys(&self.outgoing);
        let mut j: usize = 0;
        while j < srcs.len()
            invariant
                self.wf(),
                j <= srcs@.len(),
                self@.nodes == node_entries(self.nodes),
                self@.outgoing == adjacency_entries(self.outgoing),
                forall|m: int| 0 <= m < srcs@.len() ==> adjacency_entries(self.outgoing).contains_key(#[trigger] srcs@[m].0),
                forall|k: u64| adjacency_entries(self.outgoing).contains_key(k) ==> exists|m: int| 0 <= m < srcs@.len() && #[trigger] srcs@[m].0 == k,
                forall|k: u64| #[trigger] successor_entries(adj).contains_key(k) <==> (self@.nodes.contains_key(k) || exists|m: int|
                    0 <= m < j && #[trigger] srcs@[m].0 == k),
                forall|k: u64| #[trigger] successor_entries(adj).contains_key(k) ==> successor_entries(adj)[k] == successors(self@, k),
            decreases srcs@.len() - j,
        {
            let k = srcs[j];
            let list = self.successors_of(k);
            successor_insert(&mut adj, k, list);
            proof {
                assert forall|x: u64| #[trigger] successor_entries(adj).contains_key(x) <==> (self@.nodes.contains_key(x) || exists|m: int|
                    0 <= m < j + 1 && #[trigger] srcs@[m].0 == x) by {
                    if x == k.0 {
                        assert(srcs@[j as int].0 == x);
                    }
                }
            }
            j = j + 1;
        }
        adj
    }
}

} // verus!
