//! A robust 2D kernel's combinatorial core: exact-sign vocabulary,
//! segment classification, convex hulls, polygon checks, triangulation
//! topology, constrained-Delaunay edge flipping, polygon flood fill and
//! Voronoi topology, each stated and proved over plain index data and
//! order keys of coordinates, with the exact geometric predicates
//! supplied by the caller.

mod error;
pub mod geometry;
pub mod hull;
mod kinds;
pub mod segments;
mod sign;

pub use error::KikaError;
pub use geometry::{basic_validity, classify_crossing, find_ring_intersection, first_self_intersection, SegmentCrossing};
pub use hull::{convex_hull2, dedup_sorted, hull_chain};
pub use segments::{
    boxes_overlap, classify_segments, collinear_overlap, point_ring_relation, point_segment_relation, point_triangle_relation,
    segment_intersection_kind, PointPolygonRelation, SegmentClassification,
};
pub use kinds::{
    relation_from_edge_orientations, HullBoundaryPoints, PointSegmentRelation, PointTriangleRelation,
    PolygonBasicValidity, PolygonSelfIntersection, SegmentIntersectionKind,
};
pub use sign::{opposite_signs, Orientation, Sign};
mod ids;
pub mod triangulation;

pub use ids::{EdgeId, FaceId, VertexId};
pub use triangulation::cdt::{check_constraint_crossings, CdtError, ConstrainedTriangulation2};
pub use triangulation::cdt_build::{constrained_delaunay2, validate_constraints};
pub use triangulation::cdt_insert::{constrain_triangulation, insert_constraint_edge, restore_unconstrained_delaunay};
pub use triangulation::delaunay::{build_topology, delaunay2, incremental_triangles, insert_point};
pub use triangulation::locate::{locate_point, PointLocation};
pub use triangulation::polygon_build::{ring_validity, triangulate_polygon, triangulate_polygon_with_holes};
pub use triangulation::polygon::{interior_seed_face, keep_interior, ring_edges, validate_holes, PolygonTriangulationError};
pub use triangulation::topology_check::{edge_incidences, euler_face_count, topology_flags, validate_cdt_topology, TopologyError};
pub use triangulation::topology::{assemble_triangulation, Triangulation2};
pub use triangulation::voronoi::{
    cocircular_flags, cocircularity_quads, voronoi2, Voronoi2, VoronoiCellId, VoronoiEdge, VoronoiEdgeId, VoronoiEdgeKind, VoronoiVertexId,
};
pub use triangulation::voronoi_check::{validate_voronoi_tables, VoronoiTopologyError};
