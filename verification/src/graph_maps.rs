//! The hash maps of the graph store, declared for verified use: what each map holds is
//! named, and each `ahash::AHashMap` operation the store performs is wrapped with what
//! it does to the named contents.

use vstd::prelude::*;

verus! {

/// A list of provenances viewed abstractly.
pub open spec fn provenances_view(v: Seq<crate::provenance::Provenance>) -> Seq<crate::provenance::ProvenanceView> {
    Seq::new(v.len(), |i: int| v[i]@)
}

/// What an `AHashMap` of nodes by id holds, keyed and valued abstractly.
pub uninterp spec fn node_entries(m: ahash::AHashMap<crate::id::NodeId, crate::node::Node>) -> Map<u64, crate::node::NodeView>;

/// Calls `AHashMap::new`: the new map is empty.
#[verifier::external_body]
pub(crate) fn node_new() -> (m: ahash::AHashMap<crate::id::NodeId, crate::node::Node>)
    ensures
        node_entries(m).is_empty(),
{
    ahash::AHashMap::new()
}

/// Calls `AHashMap::get`: the value stored under `k`, if any.
#[verifier::external_body]
pub(crate) fn node_get<'a>(m: &'a ahash::AHashMap<crate::id::NodeId, crate::node::Node>, k: &crate::id::NodeId) -> (r: Option<&'a crate::node::Node>)
    ensures
        match r {
            Some(v) => node_entries(*m).contains_key(k.0) && node_entries(*m)[k.0] == v@,
            None => !node_entries(*m).contains_key(k.0),
        },
{
    m.get(k)
}

/// Calls `AHashMap::insert`: afterwards `k` maps to `v` and every other entry is kept.
#[verifier::external_body]
pub(crate) fn node_insert(m: &mut ahash::AHashMap<crate::id::NodeId, crate::node::Node>, k: crate::id::NodeId, v: crate::node::Node)
    ensures
        node_entries(*final(m)) == node_entries(*old(m)).insert(k.0, v@),
{
    m.insert(k, v);
}

/// Calls `AHashMap::len`: the number of entries.
#[verifier::external_body]
pub(crate) fn node_len(m: &ahash::AHashMap<crate::id::NodeId, crate::node::Node>) -> (n: usize)
    ensures
        n == node_entries(*m).dom().len(),
{
    m.len()
}

/// Calls `AHashMap::keys` and collects them: every key once, in the map's own order,
/// which nothing here depends on.
#[verifier::external_body]
pub(crate) fn node_keys(m: &ahash::AHashMap<crate::id::NodeId, crate::node::Node>) -> (r: Vec<crate::id::NodeId>)
    ensures
        r@.len() == node_entries(*m).dom().len(),
        forall|i: int, j: int| 0 <= i < r@.len() && 0 <= j < r@.len() && i != j ==> r@[i].0 != r@[j].0,
        forall|i: int| 0 <= i < r@.len() ==> node_entries(*m).contains_key(#[trigger] r@[i].0),
        forall|k: u64| node_entries(*m).contains_key(k) ==> exists|i: int| 0 <= i < r@.len() && #[trigger] r@[i].0 == k,
{
    m.keys().copied().collect()
}

/// Calls `AHashMap::clone`: the copy holds the same entries (each value cloned by its
/// `Clone`, which keeps its abstract value).
#[verifier::external_body]
pub(crate) fn node_clone(m: &ahash::AHashMap<crate::id::NodeId, crate::node::Node>) -> (r: ahash::AHashMap<crate::id::NodeId, crate::node::Node>)
    ensures
        node_entries(r) == node_entries(*m),
{
    m.clone()
}

/// What an `AHashMap` of edges by id holds, keyed and valued abstractly.
pub uninterp spec fn edge_entries(m: ahash::AHashMap<crate::id::EdgeId, crate::edge::Edge>) -> Map<u64, crate::edge::EdgeView>;

/// Calls `AHashMap::new`: the new map is empty.
#[verifier::external_body]
pub(crate) fn edge_new() -> (m: ahash::AHashMap<crate::id::EdgeId, crate::edge::Edge>)
    ensures
        edge_entries(m).is_empty(),
{
    ahash::AHashMap::new()
}

/// Calls `AHashMap::get`: the value stored under `k`, if any.
#[verifier::external_body]
pub(crate) fn edge_get<'a>(m: &'a ahash::AHashMap<crate::id::EdgeId, crate::edge::Edge>, k: &crate::id::EdgeId) -> (r: Option<&'a crate::edge::Edge>)
    ensures
        match r {
            Some(v) => edge_entries(*m).contains_key(k.0) && edge_entries(*m)[k.0] == v@,
            None => !edge_entries(*m).contains_key(k.0),
        },
{
    m.get(k)
}

/// Calls `AHashMap::insert`: afterwards `k` maps to `v` and every other entry is kept.
#[verifier::external_body]
pub(crate) fn edge_insert(m: &mut ahash::AHashMap<crate::id::EdgeId, crate::edge::Edge>, k: crate::id::EdgeId, v: crate::edge::Edge)
    ensures
        edge_entries(*final(m)) == edge_entries(*old(m)).insert(k.0, v@),
{
    m.insert(k, v);
}

/// Calls `AHashMap::len`: the number of entries.
#[verifier::external_body]
pub(crate) fn edge_len(m: &ahash::AHashMap<crate::id::EdgeId, crate::edge::Edge>) -> (n: usize)
    ensures
        n == edge_entries(*m).dom().len(),
{
    m.len()
}

/// Calls `AHashMap::keys` and collects them: every key once, in the map's own order,
/// which nothing here depends on.
#[verifier::external_body]
pub(crate) fn edge_keys(m: &ahash::AHashMap<crate::id::EdgeId, crate::edge::Edge>) -> (r: Vec<crate::id::EdgeId>)
    ensures
        r@.len() == edge_entries(*m).dom().len(),
        forall|i: int, j: int| 0 <= i < r@.len() && 0 <= j < r@.len() && i != j ==> r@[i].0 != r@[j].0,
        forall|i: int| 0 <= i < r@.len() ==> edge_entries(*m).contains_key(#[trigger] r@[i].0),
        forall|k: u64| edge_entries(*m).contains_key(k) ==> exists|i: int| 0 <= i < r@.len() && #[trigger] r@[i].0 == k,
{
    m.keys().copied().collect()
}

/// Calls `AHashMap::clone`: the copy holds the same entries (each value cloned by its
/// `Clone`, which keeps its abstract value).
#[verifier::external_body]
pub(crate) fn edge_clone(m: &ahash::AHashMap<crate::id::EdgeId, crate::edge::Edge>) -> (r: ahash::AHashMap<crate::id::EdgeId, crate::edge::Edge>)
    ensures
        edge_entries(r) == edge_entries(*m),
{
    m.clone()
}

/// What an `AHashMap` of recorded facts by subject holds, keyed and valued abstractly.
pub uninterp spec fn fact_entries(m: ahash::AHashMap<crate::fact::FactSubject, Vec<crate::provenance::Provenance>>) -> Map<crate::fact::FactSubject, Seq<crate::provenance::ProvenanceView>>;

/// Calls `AHashMap::new`: the new map is empty.
#[verifier::external_body]
pub(crate) fn fact_new() -> (m: ahash::AHashMap<crate::fact::FactSubject, Vec<crate::provenance::Provenance>>)
    ensures
        fact_entries(m).is_empty(),
{
    ahash::AHashMap::new()
}

/// Calls `AHashMap::get`: the value stored under `k`, if any.
#[verifier::external_body]
pub(crate) fn fact_get<'a>(m: &'a ahash::AHashMap<crate::fact::FactSubject, Vec<crate::provenance::Provenance>>, k: &crate::fact::FactSubject) -> (r: Option<&'a Vec<crate::provenance::Provenance>>)
    ensures
        match r {
            Some(v) => fact_entries(*m).contains_key(*k) && fact_entries(*m)[*k] == provenances_view(v@),
            None => !fact_entries(*m).contains_key(*k),
        },
{
    m.get(k)
}

/// Calls `AHashMap::insert`: afterwards `k` maps to `v` and every other entry is kept.
#[verifier::external_body]
pub(crate) fn fact_insert(m: &mut ahash::AHashMap<crate::fact::FactSubject, Vec<crate::provenance::Provenance>>, k: crate::fact::FactSubject, v: Vec<crate::provenance::Provenance>)
    ensures
        fact_entries(*final(m)) == fact_entries(*old(m)).insert(k, provenances_view(v@)),
{
    m.insert(k, v);
}

/// Calls `AHashMap::remove`: takes out the value stored under `k`, if any, and keeps
/// every other entry.
#[verifier::external_body]
pub(crate) fn fact_remove(m: &mut ahash::AHashMap<crate::fact::FactSubject, Vec<crate::provenance::Provenance>>, k: &crate::fact::FactSubject) -> (r: Option<Vec<crate::provenance::Provenance>>)
    ensures
        fact_entries(*final(m)) == fact_entries(*old(m)).remove(*k),
        match r {
            Some(v) => fact_entries(*old(m)).contains_key(*k) && fact_entries(*old(m))[*k] == provenances_view(v@),
            None => !fact_entries(*old(m)).contains_key(*k),
        },
{
    m.remove(k)
}

/// Calls `AHashMap::len`: the number of entries.
#[verifier::external_body]
pub(crate) fn fact_len(m: &ahash::AHashMap<crate::fact::FactSubject, Vec<crate::provenance::Provenance>>) -> (n: usize)
    ensures
        n == fact_entries(*m).dom().len(),
{
    m.len()
}

/// Calls `AHashMap::keys` and collects them: every key once, in the map's own order,
/// which nothing here depends on.
#[verifier::external_body]
pub(crate) fn fact_keys(m: &ahash::AHashMap<crate::fact::FactSubject, Vec<crate::provenance::Provenance>>) -> (r: Vec<crate::fact::FactSubject>)
    ensures
        r@.len() == fact_entries(*m).dom().len(),
        forall|i: int, j: int| 0 <= i < r@.len() && 0 <= j < r@.len() && i != j ==> r@[i] != r@[j],
        forall|i: int| 0 <= i < r@.len() ==> fact_entries(*m).contains_key(#[trigger] r@[i]),
        forall|k: crate::fact::FactSubject| fact_entries(*m).contains_key(k) ==> exists|i: int| 0 <= i < r@.len() && #[trigger] r@[i] == k,
{
    m.keys().copied().collect()
}

/// Calls `AHashMap::clone`: the copy holds the same entries (each value cloned by its
/// `Clone`, which keeps its abstract value).
#[verifier::external_body]
pub(crate) fn fact_clone(m: &ahash::AHashMap<crate::fact::FactSubject, Vec<crate::provenance::Provenance>>) -> (r: ahash::AHashMap<crate::fact::FactSubject, Vec<crate::provenance::Provenance>>)
    ensures
        fact_entries(r) == fact_entries(*m),
{
    m.clone()
}

/// What an `AHashMap` of node ids by label holds, keyed and valued abstractly.
pub uninterp spec fn label_index_entries(m: ahash::AHashMap<crate::id::LabelId, Vec<crate::id::NodeId>>) -> Map<u32, Seq<crate::id::NodeId>>;

/// Calls `AHashMap::new`: the new map is empty.
#[verifier::external_body]
pub(crate) fn label_index_new() -> (m: ahash::AHashMap<crate::id::LabelId, Vec<crate::id::NodeId>>)
    ensures
        label_index_entries(m).is_empty(),
{
    ahash::AHashMap::new()
}

/// Calls `AHashMap::get`: the value stored under `k`, if any.
#[verifier::external_body]
pub(crate) fn label_index_get<'a>(m: &'a ahash::AHashMap<crate::id::LabelId, Vec<crate::id::NodeId>>, k: &crate::id::LabelId) -> (r: Option<&'a Vec<crate::id::NodeId>>)
    ensures
        match r {
            Some(v) => label_index_entries(*m).contains_key(k.0) && label_index_entries(*m)[k.0] == v@,
            None => !label_index_entries(*m).contains_key(k.0),
        },
{
    m.get(k)
}

/// Calls `AHashMap::insert`: afterwards `k` maps to `v` and every other entry is kept.
#[verifier::external_body]
pub(crate) fn label_index_insert(m: &mut ahash::AHashMap<crate::id::LabelId, Vec<crate::id::NodeId>>, k: crate::id::LabelId, v: Vec<crate::id::NodeId>)
    ensures
        label_index_entries(*final(m)) == label_index_entries(*old(m)).insert(k.0, v@),
{
    m.insert(k, v);
}

/// Calls `AHashMap::remove`: takes out the value stored under `k`, if any, and keeps
/// every other entry.
#[verifier::external_body]
pub(crate) fn label_index_remove(m: &mut ahash::AHashMap<crate::id::LabelId, Vec<crate::id::NodeId>>, k: &crate::id::LabelId) -> (r: Option<Vec<crate::id::NodeId>>)
    ensures
        label_index_entries(*final(m)) == label_index_entries(*old(m)).remove(k.0),
        match r {
            Some(v) => label_index_entries(*old(m)).contains_key(k.0) && label_index_entries(*old(m))[k.0] == v@,
            None => !label_index_entries(*old(m)).contains_key(k.0),
        },
{
    m.remove(k)
}

/// Calls `AHashMap::len`: the number of entries.
#[verifier::external_body]
pub(crate) fn label_index_len(m: &ahash::AHashMap<crate::id::LabelId, Vec<crate::id::NodeId>>) -> (n: usize)
    ensures
        n == label_index_entries(*m).dom().len(),
{
    m.len()
}

/// Calls `AHashMap::keys` and collects them: every key once, in the map's own order,
/// which nothing here depends on.
#[verifier::external_body]
pub(crate) fn label_index_keys(m: &ahash::AHashMap<crate::id::LabelId, Vec<crate::id::NodeId>>) -> (r: Vec<crate::id::LabelId>)
    ensures
        r@.len() == label_index_entries(*m).dom().len(),
        forall|i: int, j: int| 0 <= i < r@.len() && 0 <= j < r@.len() && i != j ==> r@[i].0 != r@[j].0,
        forall|i: int| 0 <= i < r@.len() ==> label_index_entries(*m).contains_key(#[trigger] r@[i].0),
        forall|k: u32| label_index_entries(*m).contains_key(k) ==> exists|i: int| 0 <= i < r@.len() && #[trigger] r@[i].0 == k,
{
    m.keys().copied().collect()
}

/// Calls `AHashMap::clone`: the copy holds the same entries (each value cloned by its
/// `Clone`, which keeps its abstract value).
#[verifier::external_body]
pub(crate) fn label_index_clone(m: &ahash::AHashMap<crate::id::LabelId, Vec<crate::id::NodeId>>) -> (r: ahash::AHashMap<crate::id::LabelId, Vec<crate::id::NodeId>>)
    ensures
        label_index_entries(r) == label_index_entries(*m),
{
    m.clone()
}

/// What an `AHashMap` of edge ids by relation holds, keyed and valued abstractly.
pub uninterp spec fn relation_index_entries(m: ahash::AHashMap<crate::id::RelationId, Vec<crate::id::EdgeId>>) -> Map<u32, Seq<crate::id::EdgeId>>;

/// Calls `AHashMap::new`: the new map is empty.
#[verifier::external_body]
pub(crate) fn relation_index_new() -> (m: ahash::AHashMap<crate::id::RelationId, Vec<crate::id::EdgeId>>)
    ensures
        relation_index_entries(m).is_empty(),
{
    ahash::AHashMap::new()
}

/// Calls `AHashMap::get`: the value stored under `k`, if any.
#[verifier::external_body]
pub(crate) fn relation_index_get<'a>(m: &'a ahash::AHashMap<crate::id::RelationId, Vec<crate::id::EdgeId>>, k: &crate::id::RelationId) -> (r: Option<&'a Vec<crate::id::EdgeId>>)
    ensures
        match r {
            Some(v) => relation_index_entries(*m).contains_key(k.0) && relation_index_entries(*m)[k.0] == v@,
            None => !relation_index_entries(*m).contains_key(k.0),
        },
{
    m.get(k)
}

/// Calls `AHashMap::insert`: afterwards `k` maps to `v` and every other entry is kept.
#[verifier::external_body]
pub(crate) fn relation_index_insert(m: &mut ahash::AHashMap<crate::id::RelationId, Vec<crate::id::EdgeId>>, k: crate::id::RelationId, v: Vec<crate::id::EdgeId>)
    ensures
        relation_index_entries(*final(m)) == relation_index_entries(*old(m)).insert(k.0, v@),
{
    m.insert(k, v);
}

/// Calls `AHashMap::remove`: takes out the value stored under `k`, if any, and keeps
/// every other entry.
#[verifier::external_body]
pub(crate) fn relation_index_remove(m: &mut ahash::AHashMap<crate::id::RelationId, Vec<crate::id::EdgeId>>, k: &crate::id::RelationId) -> (r: Option<Vec<crate::id::EdgeId>>)
    ensures
        relation_index_entries(*final(m)) == relation_index_entries(*old(m)).remove(k.0),
        match r {
            Some(v) => relation_index_entries(*old(m)).contains_key(k.0) && relation_index_entries(*old(m))[k.0] == v@,
            None => !relation_index_entries(*old(m)).contains_key(k.0),
        },
{
    m.remove(k)
}

/// Calls `AHashMap::len`: the number of entries.
#[verifier::external_body]
pub(crate) fn relation_index_len(m: &ahash::AHashMap<crate::id::RelationId, Vec<crate::id::EdgeId>>) -> (n: usize)
    ensures
        n == relation_index_entries(*m).dom().len(),
{
    m.len()
}

/// Calls `AHashMap::keys` and collects them: every key once, in the map's own order,
/// which nothing here depends on.
#[verifier::external_body]
pub(crate) fn relation_index_keys(m: &ahash::AHashMap<crate::id::RelationId, Vec<crate::id::EdgeId>>) -> (r: Vec<crate::id::RelationId>)
    ensures
        r@.len() == relation_index_entries(*m).dom().len(),
        forall|i: int, j: int| 0 <= i < r@.len() && 0 <= j < r@.len() && i != j ==> r@[i].0 != r@[j].0,
        forall|i: int| 0 <= i < r@.len() ==> relation_index_entries(*m).contains_key(#[trigger] r@[i].0),
        forall|k: u32| relation_index_entries(*m).contains_key(k) ==> exists|i: int| 0 <= i < r@.len() && #[trigger] r@[i].0 == k,
{
    m.keys().copied().collect()
}

/// Calls `AHashMap::clone`: the copy holds the same entries (each value cloned by its
/// `Clone`, which keeps its abstract value).
#[verifier::external_body]
pub(crate) fn relation_index_clone(m: &ahash::AHashMap<crate::id::RelationId, Vec<crate::id::EdgeId>>) -> (r: ahash::AHashMap<crate::id::RelationId, Vec<crate::id::EdgeId>>)
    ensures
        relation_index_entries(r) == relation_index_entries(*m),
{
    m.clone()
}

/// What an `AHashMap` of edge ids by endpoint node holds, keyed and valued abstractly.
pub uninterp spec fn adjacency_entries(m: ahash::AHashMap<crate::id::NodeId, Vec<crate::id::EdgeId>>) -> Map<u64, Seq<crate::id::EdgeId>>;

/// Calls `AHashMap::new`: the new map is empty.
#[verifier::external_body]
pub(crate) fn adjacency_new() -> (m: ahash::AHashMap<crate::id::NodeId, Vec<crate::id::EdgeId>>)
    ensures
        adjacency_entries(m).is_empty(),
{
    ahash::AHashMap::new()
}

/// Calls `AHashMap::get`: the value stored under `k`, if any.
#[verifier::external_body]
pub(crate) fn adjacency_get<'a>(m: &'a ahash::AHashMap<crate::id::NodeId, Vec<crate::id::EdgeId>>, k: &crate::id::NodeId) -> (r: Option<&'a Vec<crate::id::EdgeId>>)
    ensures
        match r {
            Some(v) => adjacency_entries(*m).contains_key(k.0) && adjacency_entries(*m)[k.0] == v@,
            None => !adjacency_entries(*m).contains_key(k.0),
        },
{
    m.get(k)
}

/// Calls `AHashMap::insert`: afterwards `k` maps to `v` and every other entry is kept.
#[verifier::external_body]
pub(crate) fn adjacency_insert(m: &mut ahash::AHashMap<crate::id::NodeId, Vec<crate::id::EdgeId>>, k: crate::id::NodeId, v: Vec<crate::id::EdgeId>)
    ensures
        adjacency_entries(*final(m)) == adjacency_entries(*old(m)).insert(k.0, v@),
{
    m.insert(k, v);
}

/// Calls `AHashMap::remove`: takes out the value stored under `k`, if any, and keeps
/// every other entry.
#[verifier::external_body]
pub(crate) fn adjacency_remove(m: &mut ahash::AHashMap<crate::id::NodeId, Vec<crate::id::EdgeId>>, k: &crate::id::NodeId) -> (r: Option<Vec<crate::id::EdgeId>>)
    ensures
        adjacency_entries(*final(m)) == adjacency_entries(*old(m)).remove(k.0),
        match r {
            Some(v) => adjacency_entries(*old(m)).contains_key(k.0) && adjacency_entries(*old(m))[k.0] == v@,
            None => !adjacency_entries(*old(m)).contains_key(k.0),
        },
{
    m.remove(k)
}

/// Calls `AHashMap::len`: the number of entries.
#[verifier::external_body]
pub(crate) fn adjacency_len(m: &ahash::AHashMap<crate::id::NodeId, Vec<crate::id::EdgeId>>) -> (n: usize)
    ensures
        n == adjacency_entries(*m).dom().len(),
{
    m.len()
}

/// Calls `AHashMap::keys` and collects them: every key once, in the map's own order,
/// which nothing here depends on.
#[verifier::external_body]
pub(crate) fn adjacency_keys(m: &ahash::AHashMap<crate::id::NodeId, Vec<crate::id::EdgeId>>) -> (r: Vec<crate::id::NodeId>)
    ensures
        r@.len() == adjacency_entries(*m).dom().len(),
        forall|i: int, j: int| 0 <= i < r@.len() && 0 <= j < r@.len() && i != j ==> r@[i].0 != r@[j].0,
        forall|i: int| 0 <= i < r@.len() ==> adjacency_entries(*m).contains_key(#[trigger] r@[i].0),
        forall|k: u64| adjacency_entries(*m).contains_key(k) ==> exists|i: int| 0 <= i < r@.len() && #[trigger] r@[i].0 == k,
{
    m.keys().copied().collect()
}

/// Calls `AHashMap::clone`: the copy holds the same entries (each value cloned by its
/// `Clone`, which keeps its abstract value).
#[verifier::external_body]
pub(crate) fn adjacency_clone(m: &ahash::AHashMap<crate::id::NodeId, Vec<crate::id::EdgeId>>) -> (r: ahash::AHashMap<crate::id::NodeId, Vec<crate::id::EdgeId>>)
    ensures
        adjacency_entries(r) == adjacency_entries(*m),
{
    m.clone()
}

/// What an `AHashMap` of node ids by namespace and external id holds, keyed and valued abstractly.
pub uninterp spec fn node_external_entries(m: ahash::AHashMap<(crate::identity::NamespaceId, String), crate::id::NodeId>) -> Map<(Seq<char>, Seq<char>), u64>;

/// Calls `AHashMap::new`: the new map is empty.
#[verifier::external_body]
pub(crate) fn node_external_new() -> (m: ahash::AHashMap<(crate::identity::NamespaceId, String), crate::id::NodeId>)
    ensures
        node_external_entries(m).is_empty(),
{
    ahash::AHashMap::new()
}

/// Calls `AHashMap::get`: the value stored under `k`, if any.
#[verifier::external_body]
pub(crate) fn node_external_get<'a>(m: &'a ahash::AHashMap<(crate::identity::NamespaceId, String), crate::id::NodeId>, k: &(crate::identity::NamespaceId, String)) -> (r: Option<&'a crate::id::NodeId>)
    ensures
        match r {
            Some(v) => node_external_entries(*m).contains_key((k.0@, k.1@)) && node_external_entries(*m)[(k.0@, k.1@)] == v.0,
            None => !node_external_entries(*m).contains_key((k.0@, k.1@)),
        },
{
    m.get(k)
}

/// Calls `AHashMap::insert`: afterwards `k` maps to `v` and every other entry is kept.
#[verifier::external_body]
pub(crate) fn node_external_insert(m: &mut ahash::AHashMap<(crate::identity::NamespaceId, String), crate::id::NodeId>, k: (crate::identity::NamespaceId, String), v: crate::id::NodeId)
    ensures
        node_external_entries(*final(m)) == node_external_entries(*old(m)).insert((k.0@, k.1@), v.0),
{
    m.insert(k, v);
}

/// Calls `AHashMap::clone`: the copy holds the same entries (each value cloned by its
/// `Clone`, which keeps its abstract value).
#[verifier::external_body]
pub(crate) fn node_external_clone(m: &ahash::AHashMap<(crate::identity::NamespaceId, String), crate::id::NodeId>) -> (r: ahash::AHashMap<(crate::identity::NamespaceId, String), crate::id::NodeId>)
    ensures
        node_external_entries(r) == node_external_entries(*m),
{
    m.clone()
}

/// What an `AHashMap` of edge ids by namespace and external id holds, keyed and valued abstractly.
pub uninterp spec fn edge_external_entries(m: ahash::AHashMap<(crate::identity::NamespaceId, String), crate::id::EdgeId>) -> Map<(Seq<char>, Seq<char>), u64>;

/// Calls `AHashMap::new`: the new map is empty.
#[verifier::external_body]
pub(crate) fn edge_external_new() -> (m: ahash::AHashMap<(crate::identity::NamespaceId, String), crate::id::EdgeId>)
    ensures
        edge_external_entries(m).is_empty(),
{
    ahash::AHashMap::new()
}

/// Calls `AHashMap::get`: the value stored under `k`, if any.
#[verifier::external_body]
pub(crate) fn edge_external_get<'a>(m: &'a ahash::AHashMap<(crate::identity::NamespaceId, String), crate::id::EdgeId>, k: &(crate::identity::NamespaceId, String)) -> (r: Option<&'a crate::id::EdgeId>)
    ensures
        match r {
            Some(v) => edge_external_entries(*m).contains_key((k.0@, k.1@)) && edge_external_entries(*m)[(k.0@, k.1@)] == v.0,
            None => !edge_external_entries(*m).contains_key((k.0@, k.1@)),
        },
{
    m.get(k)
}

/// Calls `AHashMap::insert`: afterwards `k` maps to `v` and every other entry is kept.
#[verifier::external_body]
pub(crate) fn edge_external_insert(m: &mut ahash::AHashMap<(crate::identity::NamespaceId, String), crate::id::EdgeId>, k: (crate::identity::NamespaceId, String), v: crate::id::EdgeId)
    ensures
        edge_external_entries(*final(m)) == edge_external_entries(*old(m)).insert((k.0@, k.1@), v.0),
{
    m.insert(k, v);
}

/// Calls `AHashMap::clone`: the copy holds the same entries (each value cloned by its
/// `Clone`, which keeps its abstract value).
#[verifier::external_body]
pub(crate) fn edge_external_clone(m: &ahash::AHashMap<(crate::identity::NamespaceId, String), crate::id::EdgeId>) -> (r: ahash::AHashMap<(crate::identity::NamespaceId, String), crate::id::EdgeId>)
    ensures
        edge_external_entries(r) == edge_external_entries(*m),
{
    m.clone()
}

} // verus!
