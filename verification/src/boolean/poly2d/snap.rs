//! Identifiers of snapped (merged) vertices.

use vstd::prelude::*;

verus! {

/// Identifier of a merged vertex within a vertex store.
#[derive(Debug, Clone, Copy, PartialEq, Eq, Structural, Hash, PartialOrd, Ord)]
pub struct VertexId(pub usize);

} // verus!
