//! Subjects of facts.

use crate::id::{EdgeId, NodeId};
use vstd::prelude::*;

verus! {

/// The subject a fact is about.
#[derive(Clone, Copy, Debug, Eq, PartialEq, Structural, Hash)]
pub enum FactSubject {
    Node(NodeId),
    Edge(EdgeId),
}

} // verus!
