//! The settings a vector index is built and searched with.

use vstd::prelude::*;

verus! {

/// Distance metric used by the vector index. `Euclidean` ranks by squared L2 distance,
/// which orders neighbours as L2 does.
#[derive(Clone, Copy, Debug, PartialEq, Eq, Structural)]
pub enum Distance {
    Euclidean,
    Cosine,
}

/// Graph degree, build-time and search-time breadth of the vector index.
#[derive(Clone, Copy, Debug, PartialEq, Eq, Structural)]
pub struct HnswParams {
    pub m: usize,
    pub ef_construction: usize,
    pub ef_search: usize,
}

} // verus!
