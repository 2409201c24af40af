use vstd::prelude::*;

use crate::sign::Orientation;

verus! {

/// The kind of intersection between two 2D segments.
#[derive(Debug, Clone, Copy, PartialEq, Eq, Structural)]
pub enum SegmentIntersectionKind {
    /// The segments share no point.
    Disjoint,
    /// A single interior crossing point; neither segment's endpoint.
    Proper,
    /// A single shared point that is an endpoint of at least one segment,
    /// and the segments are not collinear.
    EndpointTouch,
    /// Collinear segments sharing exactly one point.
    CollinearTouch,
    /// Collinear segments overlapping along a sub-segment.
    CollinearOverlap,
}

/// Where a point lies relative to a segment.
#[derive(Debug, Clone, Copy, PartialEq, Eq, Structural)]
pub enum PointSegmentRelation {
    /// Exactly one of the segment's endpoints.
    Endpoint,
    /// Collinear with, and strictly between, the two endpoints.
    Interior,
    /// Not on the segment.
    NotOnSegment,
}

/// Where a point lies relative to a triangle.
#[derive(Debug, Clone, Copy, PartialEq, Eq, Structural)]
pub enum PointTriangleRelation {
    /// Strictly inside.
    Inside,
    /// On an edge (including exactly at a vertex).
    OnBoundary,
    /// Strictly outside.
    Outside,
}

/// Whether a convex hull keeps boundary points that are not corners.
#[derive(Debug, Clone, Copy, PartialEq, Eq, Structural)]
pub enum HullBoundaryPoints {
    /// Drop boundary points that are collinear with their neighbors.
    ExtremesOnly,
    /// Keep every input point that lies on the hull boundary.
    KeepAllOnBoundary,
}

impl Default for HullBoundaryPoints {
    /// [`HullBoundaryPoints::ExtremesOnly`].
    fn default() -> (r: Self)
        ensures
            r == HullBoundaryPoints::ExtremesOnly,
    {
        HullBoundaryPoints::ExtremesOnly
    }
}

/// The outcome of a polygon's cheap structural validity checks.
#[derive(Debug, Clone, Copy, PartialEq, Eq, Structural)]
pub enum PolygonBasicValidity {
    /// Fewer than 3 vertices.
    TooFewVertices,
    /// Two consecutive vertices (including the wraparound edge) are
    /// exactly equal.
    ConsecutiveDuplicateVertices,
    /// The exact signed area is zero.
    ZeroArea,
    /// None of the cheap checks found a problem.
    Valid,
}

/// A found self-intersection of a polygon ring: two non-adjacent edge
/// indices and how those edges intersect.
#[derive(Debug, Clone, Copy, PartialEq, Eq, Structural)]
pub struct PolygonSelfIntersection {
    /// Index of the first edge.
    pub edge_a: usize,
    /// Index of the second edge.
    pub edge_b: usize,
    /// How `edge_a` and `edge_b` intersect.
    pub kind: SegmentIntersectionKind,
}

/// The relation of a point to a non-degenerate triangle, from the
/// orientations of the point against the triangle's three directed edges:
/// outside when it is strictly left of one edge and strictly right of
/// another, on the boundary when otherwise it is on some edge's line,
/// inside when it is strictly on the same side of all three.
pub open spec fn spec_relation_from_edge_orientations(o: [Orientation; 3]) -> PointTriangleRelation {
    let has_ccw = o[0] == Orientation::CounterClockwise || o[1] == Orientation::CounterClockwise || o[2]
        == Orientation::CounterClockwise;
    let has_cw = o[0] == Orientation::Clockwise || o[1] == Orientation::Clockwise || o[2] == Orientation::Clockwise;
    if has_ccw && has_cw {
        PointTriangleRelation::Outside
    } else if o[0] == Orientation::Collinear || o[1] == Orientation::Collinear || o[2] == Orientation::Collinear {
        PointTriangleRelation::OnBoundary
    } else {
        PointTriangleRelation::Inside
    }
}

/// Classifies a point against a non-degenerate triangle from
/// `[orient(a, b, p), orient(b, c, p), orient(c, a, p)]`; works for
/// either winding.
pub fn relation_from_edge_orientations(o: [Orientation; 3]) -> (r: PointTriangleRelation)
    ensures
        r == spec_relation_from_edge_orientations(o),
{
    let has_ccw = o[0] == Orientation::CounterClockwise || o[1] == Orientation::CounterClockwise || o[2]
        == Orientation::CounterClockwise;
    let has_cw = o[0] == Orientation::Clockwise || o[1] == Orientation::Clockwise || o[2] == Orientation::Clockwise;
    if has_ccw && has_cw {
        PointTriangleRelation::Outside
    } else if o[0] == Orientation::Collinear || o[1] == Orientation::Collinear || o[2] == Orientation::Collinear {
        PointTriangleRelation::OnBoundary
    } else {
        PointTriangleRelation::Inside
    }
}

} // verus!
