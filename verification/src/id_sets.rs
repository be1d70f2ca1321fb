//! Sets of node and edge ids, as `ahash::AHashSet`s.

use crate::id::{EdgeId, NodeId};
use vstd::prelude::*;

verus! {

/// Declares `ahash::AHashSet`, a set of ids.
#[verifier::external_type_specification]
#[verifier::external_body]
#[verifier::reject_recursive_types(T)]
#[verifier::reject_recursive_types(S)]
pub struct ExAHashSet<T, S>(ahash::AHashSet<T, S>);

/// What an `AHashSet` of node ids holds, by raw id.
pub uninterp spec fn node_set_members(s: ahash::AHashSet<NodeId>) -> Set<u64>;

/// Calls `AHashSet::new`: the new set is empty.
#[verifier::external_body]
pub(crate) fn node_set_new() -> (s: ahash::AHashSet<NodeId>)
    ensures
        node_set_members(s).is_empty(),
{
    ahash::AHashSet::new()
}

/// Calls `HashSet::insert` through `AHashSet`: afterwards the set holds `id`, and the
/// result says whether it was missing before.
#[verifier::external_body]
pub(crate) fn node_set_insert(s: &mut ahash::AHashSet<NodeId>, id: NodeId) -> (fresh: bool)
    ensures
        node_set_members(*final(s)) == node_set_members(*old(s)).insert(id.0),
        fresh == !node_set_members(*old(s)).contains(id.0),
{
    s.insert(id)
}

/// What an `AHashSet` of edge ids holds, by raw id.
pub uninterp spec fn edge_set_members(s: ahash::AHashSet<EdgeId>) -> Set<u64>;

/// Calls `AHashSet::new`: the new set is empty.
#[verifier::external_body]
pub(crate) fn edge_set_new() -> (s: ahash::AHashSet<EdgeId>)
    ensures
        edge_set_members(s).is_empty(),
{
    ahash::AHashSet::new()
}

/// Calls `HashSet::insert` through `AHashSet`: afterwards the set holds `id`, and the
/// result says whether it was missing before.
#[verifier::external_body]
pub(crate) fn edge_set_insert(s: &mut ahash::AHashSet<EdgeId>, id: EdgeId) -> (fresh: bool)
    ensures
        edge_set_members(*final(s)) == edge_set_members(*old(s)).insert(id.0),
        fresh == !edge_set_members(*old(s)).contains(id.0),
{
    s.insert(id)
}

} // verus!
