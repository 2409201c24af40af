use kika::{
    basic_validity, boxes_overlap, check_constraint_crossings, classify_crossing, classify_segments, convex_hull2, dedup_sorted,
    find_ring_intersection, first_self_intersection, hull_chain, point_segment_relation, point_triangle_relation,
    segment_intersection_kind, validate_holes, CdtError, HullBoundaryPoints, Orientation, PointSegmentRelation,
    PointTriangleRelation, PolygonBasicValidity, PolygonSelfIntersection, PolygonTriangulationError, SegmentClassification,
    SegmentCrossing, SegmentIntersectionKind,
};

type K = (i64, i64);

/// The order key of a finite coordinate; `-0.0` and `0.0` share one.
fn key(x: f64) -> i64 {
    if x == 0.0 {
        0
    } else if x > 0.0 {
        x.to_bits() as i64
    } else {
        -((x.to_bits() & 0x7fff_ffff_ffff_ffff) as i64)
    }
}

fn unkey(k: i64) -> f64 {
    if k >= 0 {
        f64::from_bits(k as u64)
    } else {
        -f64::from_bits((-k) as u64)
    }
}

fn p(x: f64, y: f64) -> K {
    (key(x), key(y))
}

/// Orientation by the plain determinant: exact for the small inputs used
/// here.
fn orient(a: K, b: K, c: K) -> Orientation {
    let (ax, ay, bx, by, cx, cy) = (unkey(a.0), unkey(a.1), unkey(b.0), unkey(b.1), unkey(c.0), unkey(c.1));
    let d = (bx - ax) * (cy - ay) - (by - ay) * (cx - ax);
    if d > 0.0 {
        Orientation::CounterClockwise
    } else if d < 0.0 {
        Orientation::Clockwise
    } else {
        Orientation::Collinear
    }
}

/// The exact winding of a ring with integer coordinates.
fn winding(ring: &[K]) -> Orientation {
    let n = ring.len();
    let mut area: i128 = 0;
    for i in 0..n {
        let (a, b) = (ring[i], ring[(i + 1) % n]);
        area += (unkey(a.0) as i128) * (unkey(b.1) as i128) - (unkey(b.0) as i128) * (unkey(a.1) as i128);
    }
    if area > 0 {
        Orientation::CounterClockwise
    } else if area < 0 {
        Orientation::Clockwise
    } else {
        Orientation::Collinear
    }
}

fn hull(points: &[K], mode: HullBoundaryPoints) -> Vec<K> {
    convex_hull2(&points.to_vec(), mode, &orient)
}

fn seg_inputs(a: K, b: K, c: K, d: K) -> ([K; 4], [Orientation; 4]) {
    ([a, b, c, d], [orient(c, d, a), orient(c, d, b), orient(a, b, c), orient(a, b, d)])
}

fn kind(s1: (K, K), s2: (K, K)) -> SegmentIntersectionKind {
    let (pts, d) = seg_inputs(s1.0, s1.1, s2.0, s2.1);
    segment_intersection_kind(pts, d)
}

fn s(ax: f64, ay: f64, bx: f64, by: f64) -> (K, K) {
    (p(ax, ay), p(bx, by))
}

fn relation(seg: (K, K), q: K) -> PointSegmentRelation {
    point_segment_relation(seg.0, seg.1, q, orient(seg.0, seg.1, q))
}

fn triangle_relation(a: K, b: K, c: K, q: K) -> PointTriangleRelation {
    point_triangle_relation(a, b, c, q, orient(a, b, c), [orient(a, b, q), orient(b, c, q), orient(c, a, q)])
}

fn ring_kind(ring: &[K], i: usize, j: usize) -> SegmentIntersectionKind {
    let n = ring.len();
    kind((ring[i], ring[(i + 1) % n]), (ring[j], ring[(j + 1) % n]))
}

fn self_intersection(ring: &[K]) -> Option<PolygonSelfIntersection> {
    let k = |i: usize, j: usize| ring_kind(ring, i, j);
    first_self_intersection(ring.len(), &k)
}

fn validity(ring: &[K]) -> PolygonBasicValidity {
    let n = ring.len();
    let eq = |i: usize| ring[i] == ring[(i + 1) % n];
    let w = || winding(ring);
    basic_validity(n, &eq, &w)
}

// Convex hull.

#[test]
fn convex_hull2_empty_input() {
    assert_eq!(hull(&[], HullBoundaryPoints::ExtremesOnly), Vec::<K>::new());
}

#[test]
fn single_point() {
    assert_eq!(hull(&[p(1.0, 1.0)], HullBoundaryPoints::ExtremesOnly), vec![p(1.0, 1.0)]);
}

#[test]
fn two_points() {
    let pts = [p(1.0, 1.0), p(2.0, 2.0)];
    for mode in [HullBoundaryPoints::ExtremesOnly, HullBoundaryPoints::KeepAllOnBoundary] {
        assert_eq!(hull(&pts, mode).len(), 2);
    }
}

#[test]
fn duplicate_points_collapse() {
    let pts = [p(0.0, 0.0), p(0.0, 0.0), p(1.0, 0.0), p(0.0, 1.0)];
    assert_eq!(hull(&pts, HullBoundaryPoints::ExtremesOnly).len(), 3);
}

#[test]
fn signed_zero_duplicate_collapses() {
    let pts = [p(-0.0, 5.0), p(0.0, 3.0), p(0.0, 5.0)];
    assert_eq!(hull(&pts, HullBoundaryPoints::KeepAllOnBoundary).len(), 2);
}

#[test]
fn square_extremes_only_drops_no_corner() {
    let pts = [p(0.0, 0.0), p(4.0, 0.0), p(4.0, 4.0), p(0.0, 4.0)];
    let h = hull(&pts, HullBoundaryPoints::ExtremesOnly);
    assert_eq!(h.len(), 4);
    assert_eq!(winding(&h), Orientation::CounterClockwise);
}

#[test]
fn square_with_edge_midpoint_extremes_only_drops_it() {
    let pts = [p(0.0, 0.0), p(2.0, 0.0), p(4.0, 0.0), p(4.0, 4.0), p(0.0, 4.0)];
    let h = hull(&pts, HullBoundaryPoints::ExtremesOnly);
    assert_eq!(h.len(), 4);
    assert!(!h.contains(&p(2.0, 0.0)));
}

#[test]
fn square_with_edge_midpoint_keep_all_keeps_it() {
    let pts = [p(0.0, 0.0), p(2.0, 0.0), p(4.0, 0.0), p(4.0, 4.0), p(0.0, 4.0)];
    let h = hull(&pts, HullBoundaryPoints::KeepAllOnBoundary);
    assert_eq!(h.len(), 5);
    assert!(h.contains(&p(2.0, 0.0)));
    assert_eq!(winding(&h), Orientation::CounterClockwise);
}

#[test]
fn interior_point_dropped() {
    let pts = [p(0.0, 0.0), p(4.0, 0.0), p(4.0, 4.0), p(0.0, 4.0), p(2.0, 2.0)];
    for mode in [HullBoundaryPoints::ExtremesOnly, HullBoundaryPoints::KeepAllOnBoundary] {
        let h = hull(&pts, mode);
        assert_eq!(h.len(), 4);
        assert!(!h.contains(&p(2.0, 2.0)));
    }
}

#[test]
fn fully_collinear_extremes_only() {
    let pts = [p(0.0, 0.0), p(3.0, 0.0), p(1.0, 0.0), p(2.0, 0.0)];
    assert_eq!(hull(&pts, HullBoundaryPoints::ExtremesOnly), vec![p(0.0, 0.0), p(3.0, 0.0)]);
}

#[test]
fn fully_collinear_keep_all_no_duplication() {
    let pts = [p(0.0, 0.0), p(3.0, 0.0), p(1.0, 0.0), p(2.0, 0.0)];
    assert_eq!(
        hull(&pts, HullBoundaryPoints::KeepAllOnBoundary),
        vec![p(0.0, 0.0), p(1.0, 0.0), p(2.0, 0.0), p(3.0, 0.0)]
    );
}

#[test]
fn fully_collinear_vertical_line() {
    let pts = [p(5.0, 0.0), p(5.0, 3.0), p(5.0, 1.0)];
    assert_eq!(hull(&pts, HullBoundaryPoints::ExtremesOnly), vec![p(5.0, 0.0), p(5.0, 3.0)]);
}

#[test]
fn output_starts_at_lexicographically_smallest_point() {
    let pts = [p(4.0, 4.0), p(0.0, 0.0), p(4.0, 0.0), p(0.0, 4.0)];
    assert_eq!(hull(&pts, HullBoundaryPoints::ExtremesOnly)[0], p(0.0, 0.0));
}

#[test]
fn output_is_ccw() {
    let pts = [p(0.0, 0.0), p(0.0, 4.0), p(4.0, 4.0), p(4.0, 0.0)];
    assert_eq!(winding(&hull(&pts, HullBoundaryPoints::ExtremesOnly)), Orientation::CounterClockwise);
}

#[test]
fn valley_shape_is_not_treated_as_collinear() {
    let pts: Vec<K> = (-5..=5).map(|x: i32| p(x as f64, (x * x) as f64)).collect();
    let h = hull(&pts, HullBoundaryPoints::KeepAllOnBoundary);
    assert!(h.len() > 2);
    assert_ne!(winding(&h), Orientation::Collinear);
}

#[test]
fn permutation_invariant() {
    let pts = [p(0.0, 0.0), p(4.0, 0.0), p(4.0, 4.0), p(0.0, 4.0), p(2.0, 2.0), p(2.0, 0.0)];
    let mut shuffled = pts;
    shuffled.reverse();
    for mode in [HullBoundaryPoints::ExtremesOnly, HullBoundaryPoints::KeepAllOnBoundary] {
        assert_eq!(hull(&pts, mode), hull(&shuffled, mode));
    }
}

#[test]
fn idempotent() {
    let pts = [p(0.0, 0.0), p(4.0, 0.0), p(4.0, 4.0), p(0.0, 4.0), p(2.0, 2.0)];
    let once = hull(&pts, HullBoundaryPoints::ExtremesOnly);
    let twice = hull(&once, HullBoundaryPoints::ExtremesOnly);
    assert_eq!(once, twice);
}

#[test]
fn dedup_sorted_sorts_and_collapses() {
    let pts = vec![(3, 1), (1, 2), (3, 1), (1, 1), (1, 2)];
    assert_eq!(dedup_sorted(&pts), vec![(1, 1), (1, 2), (3, 1)]);
    assert_eq!(dedup_sorted(&vec![]), Vec::<K>::new());
}

#[test]
fn hull_chain_of_collinear_points_keeps_both_ends() {
    let pts: Vec<K> = vec![(0, 0), (1, 0), (2, 0), (3, 0)];
    let exact = |a: K, b: K, c: K| {
        let d = ((b.0 - a.0) as i128) * ((c.1 - a.1) as i128) - ((b.1 - a.1) as i128) * ((c.0 - a.0) as i128);
        if d > 0 {
            Orientation::CounterClockwise
        } else if d < 0 {
            Orientation::Clockwise
        } else {
            Orientation::Collinear
        }
    };
    assert_eq!(hull_chain(&pts, false, &exact), vec![(0, 0), (3, 0)]);
    assert_eq!(hull_chain(&pts, true, &exact), pts);
    assert!(hull_chain(&vec![], false, &exact).is_empty());
}

// Segment intersection.

#[test]
fn proper_crossing() {
    assert_eq!(kind(s(0.0, 0.0, 4.0, 4.0), s(0.0, 4.0, 4.0, 0.0)), SegmentIntersectionKind::Proper);
}

#[test]
fn disjoint_rejected_by_aabb() {
    assert_eq!(kind(s(0.0, 0.0, 1.0, 0.0), s(5.0, 5.0, 6.0, 6.0)), SegmentIntersectionKind::Disjoint);
}

#[test]
fn shared_endpoint() {
    let (pts, d) = seg_inputs(p(0.0, 0.0), p(1.0, 1.0), p(0.0, 0.0), p(1.0, -1.0));
    assert_eq!(segment_intersection_kind(pts, d), SegmentIntersectionKind::EndpointTouch);
    assert_eq!(classify_segments(pts, d), SegmentClassification::EndpointTouch(0));
}

#[test]
fn t_junction_touches_interior() {
    let (pts, d) = seg_inputs(p(0.0, 0.0), p(4.0, 0.0), p(2.0, 0.0), p(2.0, 3.0));
    assert_eq!(segment_intersection_kind(pts, d), SegmentIntersectionKind::EndpointTouch);
    assert_eq!(classify_segments(pts, d), SegmentClassification::EndpointTouch(2));
}

#[test]
fn collinear_touch_end_to_end() {
    let (pts, d) = seg_inputs(p(0.0, 0.0), p(2.0, 0.0), p(2.0, 0.0), p(4.0, 0.0));
    assert_eq!(segment_intersection_kind(pts, d), SegmentIntersectionKind::CollinearTouch);
    assert_eq!(classify_segments(pts, d), SegmentClassification::CollinearTouch(2));
}

#[test]
fn collinear_overlap() {
    let (pts, d) = seg_inputs(p(0.0, 0.0), p(4.0, 0.0), p(2.0, 0.0), p(6.0, 0.0));
    assert_eq!(segment_intersection_kind(pts, d), SegmentIntersectionKind::CollinearOverlap);
    let c = classify_segments(pts, d);
    assert_eq!(c, SegmentClassification::CollinearOverlap(2, 1));
    assert_eq!((pts[2], pts[1]), s(2.0, 0.0, 4.0, 0.0));
}

#[test]
fn collinear_no_overlap() {
    assert_eq!(kind(s(0.0, 0.0, 1.0, 0.0), s(2.0, 0.0, 3.0, 0.0)), SegmentIntersectionKind::Disjoint);
}

#[test]
fn parallel_non_collinear_never_intersects() {
    assert_eq!(kind(s(0.0, 0.0, 4.0, 0.0), s(0.0, 1.0, 4.0, 1.0)), SegmentIntersectionKind::Disjoint);
}

#[test]
fn zero_length_segments() {
    let point_seg = s(2.0, 2.0, 2.0, 2.0);
    let same_point = s(2.0, 2.0, 2.0, 2.0);
    let different_point = s(9.0, 9.0, 9.0, 9.0);
    let through = s(0.0, 0.0, 4.0, 4.0);
    let elsewhere = s(0.0, 0.0, 1.0, 0.0);
    assert_eq!(kind(point_seg, same_point), SegmentIntersectionKind::EndpointTouch);
    assert_eq!(kind(point_seg, different_point), SegmentIntersectionKind::Disjoint);
    assert_eq!(kind(point_seg, through), SegmentIntersectionKind::EndpointTouch);
    assert_eq!(kind(point_seg, elsewhere), SegmentIntersectionKind::Disjoint);
}

#[test]
fn symmetry() {
    let cases = [
        (s(0.0, 0.0, 4.0, 4.0), s(0.0, 4.0, 4.0, 0.0)),
        (s(0.0, 0.0, 1.0, 1.0), s(0.0, 0.0, 1.0, -1.0)),
        (s(0.0, 0.0, 4.0, 0.0), s(2.0, 0.0, 2.0, 3.0)),
        (s(0.0, 0.0, 2.0, 0.0), s(2.0, 0.0, 4.0, 0.0)),
        (s(0.0, 0.0, 4.0, 0.0), s(2.0, 0.0, 6.0, 0.0)),
    ];
    for (s1, s2) in cases {
        assert_eq!(kind(s1, s2), kind(s2, s1), "asymmetric for {s1:?}, {s2:?}");
    }
}

#[test]
fn crossing_from_orientations_alone() {
    let ccw = Orientation::CounterClockwise;
    let cw = Orientation::Clockwise;
    let col = Orientation::Collinear;
    assert_eq!(classify_crossing([col, col, col, col], [false; 4]), SegmentCrossing::Collinear);
    assert_eq!(classify_crossing([ccw, cw, cw, ccw], [false; 4]), SegmentCrossing::Proper);
    assert_eq!(classify_crossing([ccw, col, col, ccw], [false, true, true, false]), SegmentCrossing::EndpointTouch(1));
    assert_eq!(classify_crossing([ccw, col, ccw, ccw], [false, false, false, false]), SegmentCrossing::Disjoint);
}

#[test]
fn aabb2_overlap_cases() {
    let (a0, a1) = (p(0.0, 0.0), p(2.0, 2.0));
    let (t0, t1) = (p(2.0, 0.0), p(4.0, 2.0));
    let (d0, d1) = (p(3.0, 3.0), p(4.0, 4.0));
    assert!(boxes_overlap(a0, a1, t0, t1));
    assert!(!boxes_overlap(a0, a1, d0, d1));
    assert!(!boxes_overlap(d0, d1, a0, a1));
}

// Point against segment and triangle.

#[test]
fn relation_to_basic_cases() {
    let seg = s(0.0, 0.0, 4.0, 0.0);
    assert_eq!(relation(seg, p(0.0, 0.0)), PointSegmentRelation::Endpoint);
    assert_eq!(relation(seg, p(4.0, 0.0)), PointSegmentRelation::Endpoint);
    assert_eq!(relation(seg, p(2.0, 0.0)), PointSegmentRelation::Interior);
    assert_eq!(relation(seg, p(5.0, 0.0)), PointSegmentRelation::NotOnSegment);
    assert_eq!(relation(seg, p(-1.0, 0.0)), PointSegmentRelation::NotOnSegment);
    assert_eq!(relation(seg, p(2.0, 1.0)), PointSegmentRelation::NotOnSegment);
}

#[test]
fn relation_to_vertical_segment() {
    let seg = s(3.0, -2.0, 3.0, 5.0);
    assert_eq!(relation(seg, p(3.0, 0.0)), PointSegmentRelation::Interior);
    assert_eq!(relation(seg, p(3.0, 10.0)), PointSegmentRelation::NotOnSegment);
    assert_eq!(relation(seg, p(4.0, 0.0)), PointSegmentRelation::NotOnSegment);
}

#[test]
fn relation_to_zero_length_segment() {
    let seg = s(2.0, 2.0, 2.0, 2.0);
    assert_eq!(relation(seg, p(2.0, 2.0)), PointSegmentRelation::Endpoint);
    assert_eq!(relation(seg, p(2.0, 3.0)), PointSegmentRelation::NotOnSegment);
}

#[test]
fn relation_to_diagonal_and_extreme_scale() {
    for &scale in &[1.0_f64, 1e-100, 1e100] {
        let seg = (p(0.0, 0.0), p(scale, scale));
        assert_eq!(relation(seg, p(scale * 0.5, scale * 0.5)), PointSegmentRelation::Interior, "scale {scale}");
        assert_eq!(relation(seg, p(scale * 2.0, scale * 2.0)), PointSegmentRelation::NotOnSegment, "scale {scale}");
    }
}

#[test]
fn relation_to_ccw_triangle() {
    let (a, b, c) = (p(0.0, 0.0), p(4.0, 0.0), p(0.0, 4.0));
    assert_eq!(triangle_relation(a, b, c, p(1.0, 1.0)), PointTriangleRelation::Inside);
    assert_eq!(triangle_relation(a, b, c, p(0.0, 0.0)), PointTriangleRelation::OnBoundary);
    assert_eq!(triangle_relation(a, b, c, p(2.0, 0.0)), PointTriangleRelation::OnBoundary);
    assert_eq!(triangle_relation(a, b, c, p(2.0, 2.0)), PointTriangleRelation::OnBoundary);
    assert_eq!(triangle_relation(a, b, c, p(-1.0, -1.0)), PointTriangleRelation::Outside);
    assert_eq!(triangle_relation(a, b, c, p(5.0, 5.0)), PointTriangleRelation::Outside);
    assert_eq!(triangle_relation(a, b, c, p(3.0, 3.0)), PointTriangleRelation::Outside);
    assert_eq!(triangle_relation(a, b, c, p(2.0, -1.0)), PointTriangleRelation::Outside);
}

#[test]
fn relation_to_cw_triangle_same_as_ccw() {
    let (a, b, c) = (p(0.0, 0.0), p(0.0, 4.0), p(4.0, 0.0));
    assert_eq!(triangle_relation(a, b, c, p(1.0, 1.0)), PointTriangleRelation::Inside);
    assert_eq!(triangle_relation(a, b, c, p(5.0, 5.0)), PointTriangleRelation::Outside);
}

#[test]
fn degenerate_triangle_never_contains_off_line_point() {
    let (a, b, c) = (p(0.0, 0.0), p(1.0, 0.0), p(2.0, 0.0));
    assert_eq!(triangle_relation(a, b, c, p(0.5, 0.0)), PointTriangleRelation::OnBoundary);
    assert_eq!(triangle_relation(a, b, c, p(0.5, 1.0)), PointTriangleRelation::Outside);
    assert_eq!(triangle_relation(a, b, c, p(10.0, 0.0)), PointTriangleRelation::Outside);
}

// Polygon rings.

fn square_ccw() -> Vec<K> {
    vec![p(0.0, 0.0), p(4.0, 0.0), p(4.0, 4.0), p(0.0, 4.0)]
}

#[test]
fn basic_validity_too_few_vertices() {
    assert_eq!(validity(&[]), PolygonBasicValidity::TooFewVertices);
    assert_eq!(validity(&[p(0.0, 0.0), p(1.0, 1.0)]), PolygonBasicValidity::TooFewVertices);
}

#[test]
fn basic_validity_consecutive_duplicate() {
    let ring = [p(0.0, 0.0), p(0.0, 0.0), p(1.0, 0.0), p(0.0, 1.0)];
    assert_eq!(validity(&ring), PolygonBasicValidity::ConsecutiveDuplicateVertices);
}

#[test]
fn basic_validity_wraparound_duplicate() {
    let ring = [p(0.0, 0.0), p(1.0, 0.0), p(0.0, 1.0), p(0.0, 0.0)];
    assert_eq!(validity(&ring), PolygonBasicValidity::ConsecutiveDuplicateVertices);
}

#[test]
fn basic_validity_zero_area_collinear() {
    assert_eq!(validity(&[p(0.0, 0.0), p(1.0, 0.0), p(2.0, 0.0)]), PolygonBasicValidity::ZeroArea);
}

#[test]
fn basic_validity_valid_triangle() {
    assert_eq!(validity(&[p(0.0, 0.0), p(1.0, 0.0), p(0.0, 1.0)]), PolygonBasicValidity::Valid);
}

#[test]
fn triangle_never_self_intersects() {
    assert_eq!(self_intersection(&[p(0.0, 0.0), p(1.0, 0.0), p(0.0, 1.0)]), None);
}

#[test]
fn simple_square_does_not_self_intersect() {
    assert_eq!(self_intersection(&square_ccw()), None);
}

#[test]
fn bowtie_quadrilateral_self_intersects() {
    let ring = [p(0.0, 0.0), p(4.0, 4.0), p(4.0, 0.0), p(0.0, 4.0)];
    let found = self_intersection(&ring).expect("bowtie must self-intersect");
    assert_eq!(found.edge_a, 0);
    assert_eq!(found.edge_b, 2);
    assert_eq!(found.kind, SegmentIntersectionKind::Proper);
}

#[test]
fn adjacent_edges_shared_vertex_is_not_reported() {
    assert_eq!(self_intersection(&square_ccw()), None);
    assert_eq!(self_intersection(&[p(0.0, 0.0), p(1.0, 0.0), p(0.5, 1.0)]), None);
}

#[test]
fn adjacent_edges_are_never_asked() {
    let k = |i: usize, j: usize| {
        assert!(!(j == i + 1 || (i == 0 && j == 3)));
        SegmentIntersectionKind::Disjoint
    };
    assert_eq!(first_self_intersection(4, &k), None);
}

#[test]
fn ring_intersection_first_pair_in_row_major_order() {
    let outer = square_ccw();
    let crossing = [p(3.0, 1.0), p(6.0, 1.0), p(6.0, 3.0), p(3.0, 3.0)];
    let inside = [p(1.0, 1.0), p(2.0, 1.0), p(2.0, 2.0)];
    let between = |a: &[K], b: &[K]| {
        let f = |i: usize, j: usize| kind((a[i], a[(i + 1) % a.len()]), (b[j], b[(j + 1) % b.len()]));
        find_ring_intersection(a.len(), b.len(), &f)
    };
    assert_eq!(between(&outer, &crossing), Some(SegmentIntersectionKind::Proper));
    assert_eq!(between(&outer, &inside), None);
    let order = |i: usize, j: usize| {
        if (i, j) == (1, 0) || (i, j) == (2, 3) {
            SegmentIntersectionKind::EndpointTouch
        } else if (i, j) == (1, 2) {
            SegmentIntersectionKind::Proper
        } else {
            SegmentIntersectionKind::Disjoint
        }
    };
    assert_eq!(find_ring_intersection(3, 4, &order), Some(SegmentIntersectionKind::EndpointTouch));
}

// Constraint and hole checks.

#[test]
fn constraint_crossings_report_first_bad_pair() {
    let ok = |_i: usize, _j: usize| SegmentIntersectionKind::EndpointTouch;
    assert_eq!(check_constraint_crossings(3, &ok), Ok(()));
    let proper = |i: usize, j: usize| {
        if (i, j) == (1, 2) {
            SegmentIntersectionKind::Proper
        } else {
            SegmentIntersectionKind::Disjoint
        }
    };
    assert_eq!(check_constraint_crossings(3, &proper), Err(CdtError::ProperlyCrossingConstraints));
    let overlap = |i: usize, j: usize| {
        if (i, j) == (0, 2) {
            SegmentIntersectionKind::CollinearOverlap
        } else {
            SegmentIntersectionKind::CollinearTouch
        }
    };
    assert_eq!(check_constraint_crossings(3, &overlap), Err(CdtError::CollinearOverlappingConstraints));
    assert_eq!(check_constraint_crossings(1, &proper), Ok(()));
}

fn holes(
    h: usize,
    bad_validity: Option<usize>,
    outside: Option<usize>,
    crossing_pair: Option<(usize, usize)>,
    nested: Option<(usize, usize)>,
) -> Result<(), PolygonTriangulationError> {
    let validity = |i: usize| {
        if Some(i) == bad_validity {
            PolygonBasicValidity::ZeroArea
        } else {
            PolygonBasicValidity::Valid
        }
    };
    let self_crossing = |_i: usize| None;
    let outer_crossing = |_i: usize| None;
    let outer_contains = |i: usize| Some(i) != outside;
    let holes_crossing = |i: usize, j: usize| {
        if Some((i, j)) == crossing_pair {
            Some(SegmentIntersectionKind::Proper)
        } else {
            None
        }
    };
    let hole_contains = |a: usize, b: usize| Some((a, b)) == nested;
    validate_holes(h, &validity, &self_crossing, &outer_crossing, &outer_contains, &holes_crossing, &hole_contains)
}

#[test]
fn validate_holes_each_error() {
    assert_eq!(holes(3, None, None, None, None), Ok(()));
    assert_eq!(holes(3, Some(1), None, None, None), Err(PolygonTriangulationError::InvalidHole(1, PolygonBasicValidity::ZeroArea)));
    assert_eq!(holes(3, None, Some(2), None, None), Err(PolygonTriangulationError::HoleOutsideOuter(2)));
    assert_eq!(
        holes(3, None, None, Some((0, 2)), None),
        Err(PolygonTriangulationError::HolesIntersect(0, 2, SegmentIntersectionKind::Proper))
    );
    assert_eq!(holes(3, None, None, None, Some((2, 1))), Err(PolygonTriangulationError::NestedHole(1, 2)));
    assert_eq!(holes(3, None, None, None, Some((0, 1))), Err(PolygonTriangulationError::NestedHole(1, 0)));
}

#[test]
fn validate_holes_per_hole_checks_come_before_pairs() {
    assert_eq!(
        holes(3, Some(2), Some(0), Some((0, 1)), None),
        Err(PolygonTriangulationError::InvalidHole(2, PolygonBasicValidity::ZeroArea))
    );
    let self_crossing = |i: usize| {
        if i == 1 {
            Some(PolygonSelfIntersection { edge_a: 0, edge_b: 2, kind: SegmentIntersectionKind::Proper })
        } else {
            None
        }
    };
    let outer_crossing = |i: usize| if i == 0 { Some(SegmentIntersectionKind::EndpointTouch) } else { None };
    let r = validate_holes(
        2,
        &|_i: usize| PolygonBasicValidity::Valid,
        &self_crossing,
        &outer_crossing,
        &|_i: usize| true,
        &|_i: usize, _j: usize| None,
        &|_a: usize, _b: usize| false,
    );
    assert!(matches!(r, Err(PolygonTriangulationError::HoleSelfIntersecting(1, _))));
    let r = validate_holes(
        2,
        &|_i: usize| PolygonBasicValidity::Valid,
        &|_i: usize| None,
        &outer_crossing,
        &|_i: usize| true,
        &|_i: usize, _j: usize| None,
        &|_a: usize, _b: usize| false,
    );
    assert_eq!(r, Err(PolygonTriangulationError::HoleIntersectsOuter(0, SegmentIntersectionKind::EndpointTouch)));
}
