use vstd::prelude::*;

verus! {

/// A handle to one of a triangulation's vertices: its index into the
/// triangulation's vertex list.
///
/// Valid only for the triangulation that produced it; indexing with a
/// handle from another triangulation is not detected.
#[derive(Debug, Clone, Copy, PartialEq, Eq, Hash, Structural)]
pub struct VertexId(pub u32);

/// A handle to one of a triangulation's undirected edges: its index into
/// the triangulation's edge table.
#[derive(Debug, Clone, Copy, PartialEq, Eq, Hash, Structural)]
pub struct EdgeId(pub u32);

/// A handle to one of a triangulation's triangular faces: its index into
/// the triangulation's face list.
#[derive(Debug, Clone, Copy, PartialEq, Eq, Hash, Structural)]
pub struct FaceId(pub u32);

impl VertexId {
    /// The handle for vertex index `raw`.
    pub fn new(raw: u32) -> (r: VertexId)
        ensures
            r.0 == raw,
    {
        VertexId(raw)
    }

    /// The vertex index this handle stands for.
    pub fn raw(self) -> (r: u32)
        ensures
            r == self.0,
    {
        self.0
    }
}

impl EdgeId {
    /// The handle for edge index `raw`.
    pub fn new(raw: u32) -> (r: EdgeId)
        ensures
            r.0 == raw,
    {
        EdgeId(raw)
    }

    /// The edge index this handle stands for.
    pub fn raw(self) -> (r: u32)
        ensures
            r == self.0,
    {
        self.0
    }
}

impl FaceId {
    /// The handle for face index `raw`.
    pub fn new(raw: u32) -> (r: FaceId)
        ensures
            r.0 == raw,
    {
        FaceId(raw)
    }

    /// The face index this handle stands for.
    pub fn raw(self) -> (r: u32)
        ensures
            r == self.0,
    {
        self.0
    }
}

} // verus!
