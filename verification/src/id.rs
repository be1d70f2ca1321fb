//! Compact numeric identifiers for graph records and interned ontology strings.

use vstd::prelude::*;

verus! {

/// Identifier of a node in the graph.
#[derive(Clone, Copy, Debug, PartialEq, Eq, Structural, Hash, PartialOrd, Ord)]
pub struct NodeId(pub u64);

/// Identifier of an edge in the graph.
#[derive(Clone, Copy, Debug, PartialEq, Eq, Structural, Hash, PartialOrd, Ord)]
pub struct EdgeId(pub u64);

/// Identifier of a recorded fact.
#[derive(Clone, Copy, Debug, PartialEq, Eq, Structural, Hash, PartialOrd, Ord)]
pub struct FactId(pub u64);

/// Interned id of a node label.
#[derive(Clone, Copy, Debug, PartialEq, Eq, Structural, Hash, PartialOrd, Ord)]
pub struct LabelId(pub u32);

/// Interned id of an edge relation.
#[derive(Clone, Copy, Debug, PartialEq, Eq, Structural, Hash, PartialOrd, Ord)]
pub struct RelationId(pub u32);

/// Interned id of a property key.
#[derive(Clone, Copy, Debug, PartialEq, Eq, Structural, Hash, PartialOrd, Ord)]
pub struct KeyId(pub u32);

impl NodeId {
    pub fn new(v: u64) -> (r: Self)
        ensures
            r.0 == v,
    {
        NodeId(v)
    }
}

impl EdgeId {
    pub fn new(v: u64) -> (r: Self)
        ensures
            r.0 == v,
    {
        EdgeId(v)
    }
}

impl FactId {
    pub fn new(v: u64) -> (r: Self)
        ensures
            r.0 == v,
    {
        FactId(v)
    }
}

impl LabelId {
    pub fn new(v: u32) -> (r: Self)
        ensures
            r.0 == v,
    {
        LabelId(v)
    }
}

impl RelationId {
    pub fn new(v: u32) -> (r: Self)
        ensures
            r.0 == v,
    {
        RelationId(v)
    }
}

impl KeyId {
    pub fn new(v: u32) -> (r: Self)
        ensures
            r.0 == v,
    {
        KeyId(v)
    }
}

} // verus!
