use kika::triangulation::union_find::UnionFind;
use kika::triangulation::polygon::flood_fill_interior;
use kika::{
    assemble_triangulation, edge_incidences, interior_seed_face, keep_interior, opposite_signs, relation_from_edge_orientations,
    ring_edges, ConstrainedTriangulation2, EdgeId, FaceId, HullBoundaryPoints, KikaError, Orientation, PointLocation,
    PointSegmentRelation, PointTriangleRelation, PolygonTriangulationError, Sign, TopologyError, Triangulation2, VertexId,
};

type Pt = (i64, i64);

fn tri(a: u32, b: u32, c: u32) -> [VertexId; 3] {
    [VertexId(a), VertexId(b), VertexId(c)]
}

fn orient(a: Pt, b: Pt, c: Pt) -> i128 {
    ((b.0 - a.0) as i128) * ((c.1 - a.1) as i128) - ((b.1 - a.1) as i128) * ((c.0 - a.0) as i128)
}

fn square_with_center() -> Triangulation2<Pt> {
    let pts = vec![(0, 0), (4, 0), (4, 4), (0, 4), (2, 2)];
    assemble_triangulation(pts, vec![tri(0, 1, 4), tri(1, 2, 4), tri(2, 3, 4), tri(3, 0, 4)])
}

#[test]
fn edge_table_is_in_order_of_first_incidence() {
    let t = square_with_center();
    let edges: Vec<(u32, u32)> = t
        .edges()
        .into_iter()
        .map(|e| {
            let (u, v) = t.edge_vertices(e);
            (u.0, v.0)
        })
        .collect();
    assert_eq!(edges, vec![(1, 4), (4, 0), (0, 1), (2, 4), (1, 2), (3, 4), (2, 3), (3, 0)]);
    assert_eq!(t.adjacent_faces(EdgeId(0)), [Some(FaceId(0)), Some(FaceId(1))]);
    assert_eq!(t.adjacent_faces(EdgeId(2)), [Some(FaceId(0)), None]);
    let inc = edge_incidences(&t);
    assert_eq!(inc[0], (2, [Some((FaceId(0), 0)), Some((FaceId(1), 1))]));
    assert_eq!(inc[2], (1, [Some((FaceId(0), 2)), None]));
}

#[test]
fn validate_topology_reports_each_kind() {
    let t = square_with_center();
    let ccw = vec![true, false, true, true];
    let mut violated = vec![false; 8];
    violated[0] = true;
    violated[2] = true;
    let r = t.validate_topology(&ccw, &violated, Some(5));
    assert!(r.contains(&TopologyError::FaceNotCcw(FaceId(1))));
    assert!(r.contains(&TopologyError::NotLocallyDelaunay { u: VertexId(1), v: VertexId(4) }));
    assert!(r.contains(&TopologyError::EulerFormulaViolated { triangles: 4, expected: 5 }));
    assert_eq!(r.len(), 3, "a boundary edge's flag is never read: {r:?}");
    assert!(!r.iter().any(|e| matches!(e, TopologyError::AdjacencyMismatch { .. })));

    let mut excluded = vec![false; 8];
    excluded[0] = true;
    let r = t.validate_topology_excluding(&vec![true; 4], &violated, &excluded, Some(4));
    assert!(r.is_empty());

    // Three triangles on one edge: not a manifold.
    let fan = assemble_triangulation(vec![(0, 0); 5], vec![tri(0, 1, 2), tri(1, 0, 3), tri(0, 1, 4)]);
    let r = fan.validate_topology(&vec![true; 3], &vec![false; fan.edges().len()], None);
    assert_eq!(r, vec![TopologyError::NonManifoldEdge { u: VertexId(0), v: VertexId(1), incident_faces: 3 }]);
}

#[test]
fn locate_finds_faces_edges_vertices_and_outside() {
    let t = square_with_center();
    let pts: Vec<Pt> = t.vertices().into_iter().map(|(_, p)| p).collect();
    let locate = |q: Pt| {
        let p = |v: VertexId| pts[v.0 as usize];
        let tr = |f: FaceId| {
            let [a, b, c] = t.face_vertices(f);
            let o = |x: Pt, y: Pt| match orient(x, y, q).signum() {
                1 => Orientation::CounterClockwise,
                -1 => Orientation::Clockwise,
                _ => Orientation::Collinear,
            };
            relation_from_edge_orientations([o(p(a), p(b)), o(p(b), p(c)), o(p(c), p(a))])
        };
        let sr = |a: VertexId, b: VertexId| {
            let (pa, pb) = (p(a), p(b));
            if q == pa || q == pb {
                PointSegmentRelation::Endpoint
            } else if orient(pa, pb, q) == 0
                && q.0 >= pa.0.min(pb.0)
                && q.0 <= pa.0.max(pb.0)
                && q.1 >= pa.1.min(pb.1)
                && q.1 <= pa.1.max(pb.1)
            {
                PointSegmentRelation::Interior
            } else {
                PointSegmentRelation::NotOnSegment
            }
        };
        let iv = |v: VertexId| p(v) == q;
        t.locate(&tr, &sr, &iv)
    };
    assert_eq!(locate((2, 2)), PointLocation::Vertex(VertexId(4)));
    assert_eq!(locate((0, 0)), PointLocation::Vertex(VertexId(0)));
    assert_eq!(locate((2, 1)), PointLocation::Face(FaceId(0)));
    assert_eq!(locate((1, 1)), PointLocation::Edge(EdgeId(1)));
    assert_eq!(locate((2, 0)), PointLocation::Edge(EdgeId(2)));
    assert_eq!(locate((9, 9)), PointLocation::Outside);
    let empty: Triangulation2<Pt> = Triangulation2::empty();
    let none = |_: FaceId| PointTriangleRelation::Inside;
    let seg = |_: VertexId, _: VertexId| PointSegmentRelation::NotOnSegment;
    let iv = |_: VertexId| false;
    assert_eq!(empty.locate(&none, &seg, &iv), PointLocation::Outside);
}

#[test]
fn union_find_merges_sets() {
    let mut uf = UnionFind::new(5);
    for x in 0..5u32 {
        assert_eq!(uf.find(x), x);
    }
    uf.union(0, 1);
    uf.union(3, 4);
    assert_eq!(uf.find(0), uf.find(1));
    assert_eq!(uf.find(3), uf.find(4));
    assert_ne!(uf.find(0), uf.find(3));
    uf.union(1, 4);
    assert_eq!(uf.find(0), uf.find(3));
    assert_ne!(uf.find(2), uf.find(0));
}

fn l_shape() -> (ConstrainedTriangulation2<Pt>, Vec<(VertexId, VertexId)>) {
    // An L-shaped hexagon 0..5, triangulated with its concave pocket
    // (face 4) filled in, ring edges constrained.
    let pts = vec![(0, 0), (4, 0), (4, 2), (2, 2), (2, 4), (0, 4)];
    let faces = vec![tri(0, 1, 2), tri(0, 2, 3), tri(0, 3, 5), tri(3, 4, 5), tri(2, 4, 3)];
    let t = assemble_triangulation(pts, faces);
    let ring: Vec<(VertexId, VertexId)> = ring_edges(0, 6)
        .into_iter()
        .map(|(a, b)| {
            let (a, b) = (a as u32, b as u32);
            (VertexId(a.min(b)), VertexId(a.max(b)))
        })
        .collect();
    (ConstrainedTriangulation2::new(t, &ring), ring)
}

#[test]
fn flood_fill_stops_at_constrained_edges() {
    let (cdt, _) = l_shape();
    let fill = flood_fill_interior(&cdt, FaceId(0));
    assert_eq!(fill, vec![true, true, true, true, false]);
    let kept = keep_interior(cdt, FaceId(0), 4).unwrap();
    assert_eq!(kept.len(), 4);
    assert_eq!(kept.vertices().len(), 6);
    let (cdt, _) = l_shape();
    assert_eq!(keep_interior(cdt, FaceId(4), 4).err(), Some(PolygonTriangulationError::ConstraintInsertionFailed));
}

#[test]
fn seed_face_is_on_the_interior_side() {
    let (cdt, _) = l_shape();
    let t = cdt.triangulation();
    let inside = |v: VertexId| v != VertexId(4);
    assert_eq!(interior_seed_face(t, VertexId(2), VertexId(3), &inside), Some(FaceId(1)));
    let left = |v: VertexId| v == VertexId(4);
    assert_eq!(interior_seed_face(t, VertexId(2), VertexId(3), &left), Some(FaceId(4)));
    let never = |_: VertexId| false;
    assert_eq!(interior_seed_face(t, VertexId(2), VertexId(3), &never), None);
    assert_eq!(interior_seed_face(t, VertexId(1), VertexId(4), &inside), None);
}

#[test]
fn ring_edges_close_the_ring() {
    assert_eq!(ring_edges(3, 4), vec![(3, 4), (4, 5), (5, 6), (6, 3)]);
    assert!(ring_edges(0, 0).is_empty());
}

#[test]
fn sign_negation_and_orientation() {
    assert_eq!(Sign::Positive.negate(), Sign::Negative);
    assert_eq!(Sign::Negative.negate(), Sign::Positive);
    assert_eq!(Sign::Zero.negate(), Sign::Zero);
    for s in [Sign::Negative, Sign::Zero, Sign::Positive] {
        assert_eq!(s.negate().negate(), s);
    }
    assert_eq!(Orientation::from(Sign::Positive), Orientation::CounterClockwise);
    assert_eq!(Orientation::from(Sign::Negative), Orientation::Clockwise);
    assert_eq!(Orientation::from(Sign::Zero), Orientation::Collinear);
    assert!(opposite_signs(Orientation::Clockwise, Orientation::CounterClockwise));
    assert!(opposite_signs(Orientation::CounterClockwise, Orientation::Clockwise));
    assert!(!opposite_signs(Orientation::Collinear, Orientation::Clockwise));
    assert!(!opposite_signs(Orientation::Clockwise, Orientation::Clockwise));
}

#[test]
fn triangle_relation_from_orientations() {
    let (cw, co, ccw) = (Orientation::Clockwise, Orientation::Collinear, Orientation::CounterClockwise);
    assert_eq!(relation_from_edge_orientations([ccw, ccw, ccw]), PointTriangleRelation::Inside);
    assert_eq!(relation_from_edge_orientations([cw, cw, cw]), PointTriangleRelation::Inside);
    assert_eq!(relation_from_edge_orientations([ccw, co, ccw]), PointTriangleRelation::OnBoundary);
    assert_eq!(relation_from_edge_orientations([ccw, cw, ccw]), PointTriangleRelation::Outside);
    assert_eq!(relation_from_edge_orientations([cw, co, ccw]), PointTriangleRelation::Outside);
}

#[test]
fn error_message_ids_and_defaults() {
    assert_eq!(KikaError::NonFiniteCoordinate.message(), "coordinate must be finite (not NaN or infinite)");
    assert_eq!(VertexId::new(7).raw(), 7);
    assert_eq!(EdgeId::new(8).raw(), 8);
    assert_eq!(FaceId::new(9).raw(), 9);
    assert_eq!(HullBoundaryPoints::default(), HullBoundaryPoints::ExtremesOnly);
}

#[test]
fn topology_reports_come_faces_then_edges_then_count() {
    let t = square_with_center();
    let ccw = vec![false, true, true, false];
    let violated = vec![true; 8];
    let r = t.validate_topology(&ccw, &violated, Some(6));
    let mut interior: Vec<TopologyError> = Vec::new();
    for e in t.edges() {
        let (a, b) = t.edge_vertices(e);
        if a.0 == 4 || b.0 == 4 {
            let (u, v) = if a.0 <= b.0 { (a, b) } else { (b, a) };
            interior.push(TopologyError::NotLocallyDelaunay { u, v });
        }
    }
    let mut expected = vec![TopologyError::FaceNotCcw(FaceId(0)), TopologyError::FaceNotCcw(FaceId(3))];
    expected.extend(interior);
    expected.push(TopologyError::EulerFormulaViolated { triangles: 4, expected: 6 });
    assert_eq!(r, expected);
}
