//! Vertex and edge identifiers.
use vstd::prelude::*;

verus! {

/// An opaque vertex identifier.
#[derive(Clone, Copy, PartialEq, Eq, Structural, Hash, Debug, PartialOrd, Ord)]
pub struct VertexId(pub u64);

/// A directed edge, from its first vertex to its second.
#[derive(Clone, Copy, PartialEq, Eq, Structural, Hash, Debug, PartialOrd, Ord)]
pub struct Edge(pub VertexId, pub VertexId);

impl Edge {
    /// Identifier of the source vertex.
    pub open spec fn src(self) -> u64 {
        self.0.0
    }

    /// Identifier of the destination vertex.
    pub open spec fn dst(self) -> u64 {
        self.1.0
    }

    /// Whether `v` is one of the two endpoints.
    pub open spec fn touches(self, v: u64) -> bool {
        self.0.0 == v || self.1.0 == v
    }
}

} // verus!
