use kika::{
    assemble_triangulation, cocircularity_quads, validate_voronoi_tables, voronoi2, FaceId, Triangulation2, VertexId,
    Voronoi2, VoronoiCellId, VoronoiEdge, VoronoiEdgeId, VoronoiEdgeKind, VoronoiTopologyError, VoronoiVertexId,
};

type Pt = (i64, i64);

fn tri(a: u32, b: u32, c: u32) -> [VertexId; 3] {
    [VertexId(a), VertexId(b), VertexId(c)]
}

/// Exact incircle determinant of `d` against the circle through `a`, `b`,
/// `c`: zero when the four points are cocircular.
fn incircle(a: Pt, b: Pt, c: Pt, d: Pt) -> i128 {
    let row = |p: Pt| {
        let x = (p.0 - d.0) as i128;
        let y = (p.1 - d.1) as i128;
        (x, y, x * x + y * y)
    };
    let (ax, ay, aw) = row(a);
    let (bx, by, bw) = row(b);
    let (cx, cy, cw) = row(c);
    ax * (by * cw - bw * cy) - ay * (bx * cw - bw * cx) + aw * (bx * cy - by * cx)
}

/// The cocircular flag of every edge, from the exact incircle of its
/// endpoints and the two opposite vertices.
fn cocircular_flags(t: &Triangulation2<Pt>, pts: &[Pt]) -> Vec<bool> {
    cocircularity_quads(t)
        .into_iter()
        .map(|q| match q {
            Some([u, v, a, b]) => {
                let p = |x: VertexId| pts[x.0 as usize];
                incircle(p(u), p(v), p(a), p(b)) == 0
            }
            None => false,
        })
        .collect()
}

fn build(pts: Vec<Pt>, faces: Vec<[VertexId; 3]>) -> Voronoi2<Pt> {
    let t = assemble_triangulation(pts.clone(), faces);
    let flags = cocircular_flags(&t, &pts);
    voronoi2(t, &flags)
}

fn fan_from(n: usize, start: usize) -> Vec<[VertexId; 3]> {
    (1..n - 1)
        .map(|i| tri((start % n) as u32, ((start + i) % n) as u32, ((start + i + 1) % n) as u32))
        .collect()
}

fn cocircular_lattice_points(n: usize) -> Vec<Pt> {
    let all: [Pt; 12] = [
        (5, 0),
        (4, 3),
        (3, 4),
        (0, 5),
        (-3, 4),
        (-4, 3),
        (-5, 0),
        (-4, -3),
        (-3, -4),
        (0, -5),
        (3, -4),
        (4, -3),
    ];
    all[..n].to_vec()
}

fn group_site_set(v: &Voronoi2<Pt>, t: &Triangulation2<Pt>, g: VoronoiVertexId) -> Vec<u32> {
    let mut s: Vec<u32> = v
        .vertex_delaunay_faces(g)
        .iter()
        .flat_map(|&f| t.face_vertices(f))
        .map(|x| x.0)
        .collect();
    s.sort_unstable();
    s.dedup();
    s
}

fn canonical_groups(v: &Voronoi2<Pt>, t: &Triangulation2<Pt>) -> Vec<Vec<u32>> {
    v.vertices().into_iter().map(|g| group_site_set(v, t, g)).collect()
}

fn canonical_edges(v: &Voronoi2<Pt>, t: &Triangulation2<Pt>) -> Vec<(Vec<u32>, Vec<Vec<u32>>)> {
    let mut out: Vec<_> = v
        .edges()
        .into_iter()
        .map(|e| {
            let k = kika::triangulation::voronoi::edge_key(v.edge_cells(e)).to_vec();
            let mut ends: Vec<Vec<u32>> = match *v.edge_kind(e) {
                VoronoiEdgeKind::Bounded { vertices } => {
                    vertices.iter().map(|&g| group_site_set(v, t, g)).collect()
                }
                VoronoiEdgeKind::Unbounded { finite_vertex } => vec![group_site_set(v, t, finite_vertex)],
            };
            ends.sort();
            (k, ends)
        })
        .collect();
    out.sort();
    out
}

fn assert_single_cocircular_group(v: &Voronoi2<Pt>, n_sites: usize) {
    assert_eq!(v.vertices().len(), 1);
    assert_eq!(v.edges().len(), n_sites);
    for e in v.edges() {
        assert!(matches!(v.edge_kind(e), VoronoiEdgeKind::Unbounded { .. }));
    }
    assert!(v.validate_voronoi_topology().is_empty());
}

#[test]
fn single_triangle_has_one_group_and_three_unbounded_edges() {
    let v = build(vec![(0, 0), (1, 0), (0, 1)], vec![tri(0, 1, 2)]);
    assert_eq!(v.vertices().len(), 1);
    assert_eq!(v.edges().len(), 3);
    for e in v.edges() {
        assert!(matches!(v.edge_kind(e), VoronoiEdgeKind::Unbounded { .. }));
    }
    assert!(v.validate_voronoi_topology().is_empty());
}

#[test]
fn axis_aligned_square_merges_both_faces_into_one_group() {
    let v = build(vec![(0, 0), (2, 0), (2, 2), (0, 2)], fan_from(4, 0));
    assert_eq!(v.vertices().len(), 1);
    assert_eq!(v.edges().len(), 4);
    for e in v.edges() {
        assert!(matches!(v.edge_kind(e), VoronoiEdgeKind::Unbounded { .. }));
    }
    assert!(v.validate_voronoi_topology().is_empty());
}

#[test]
fn square_both_diagonals_produce_identical_canonical_topology() {
    let pts = vec![(0, 0), (2, 0), (2, 2), (0, 2)];
    let ta = assemble_triangulation(pts.clone(), fan_from(4, 0));
    let tb = assemble_triangulation(pts.clone(), fan_from(4, 1));
    let a = build(pts.clone(), fan_from(4, 0));
    let b = build(pts, fan_from(4, 1));
    assert_single_cocircular_group(&a, 4);
    assert_single_cocircular_group(&b, 4);
    assert_eq!(canonical_groups(&a, &ta), canonical_groups(&b, &tb));
    assert_eq!(canonical_edges(&a, &ta), canonical_edges(&b, &tb));
}

#[test]
fn five_cocircular_points_multiple_fans_produce_identical_canonical_topology() {
    let pts = cocircular_lattice_points(5);
    let t0 = assemble_triangulation(pts.clone(), fan_from(5, 0));
    let t2 = assemble_triangulation(pts.clone(), fan_from(5, 2));
    let fan_0 = build(pts.clone(), fan_from(5, 0));
    let fan_2 = build(pts, fan_from(5, 2));
    assert_single_cocircular_group(&fan_0, 5);
    assert_single_cocircular_group(&fan_2, 5);
    assert_eq!(canonical_groups(&fan_0, &t0), canonical_groups(&fan_2, &t2));
    assert_eq!(canonical_edges(&fan_0, &t0), canonical_edges(&fan_2, &t2));
}

#[test]
fn eight_cocircular_points_multiple_fans_produce_identical_canonical_topology() {
    let pts = cocircular_lattice_points(8);
    let starts = [0usize, 3, 6];
    let ts: Vec<_> = starts.iter().map(|&s| assemble_triangulation(pts.clone(), fan_from(8, s))).collect();
    let vs: Vec<_> = starts.iter().map(|&s| build(pts.clone(), fan_from(8, s))).collect();
    for v in &vs {
        assert_single_cocircular_group(v, 8);
    }
    for k in 1..3 {
        assert_eq!(canonical_groups(&vs[0], &ts[0]), canonical_groups(&vs[k], &ts[k]));
        assert_eq!(canonical_edges(&vs[0], &ts[0]), canonical_edges(&vs[k], &ts[k]));
    }
}

fn mixed_fixture() -> (Vec<Pt>, Vec<[VertexId; 3]>) {
    (vec![(0, 0), (2, 0), (2, 2), (0, 2), (6, 1)], vec![tri(1, 4, 2), tri(0, 1, 2), tri(0, 2, 3)])
}

#[test]
fn cocircular_cluster_plus_outlier_mixes_bounded_and_excluded_edges() {
    let (pts, faces) = mixed_fixture();
    let v = build(pts, faces);
    assert_eq!(v.vertices().len(), 2);
    assert_eq!(v.edges().len(), 6);
    let bounded: Vec<VoronoiEdgeId> = v
        .edges()
        .into_iter()
        .filter(|&e| matches!(v.edge_kind(e), VoronoiEdgeKind::Bounded { .. }))
        .collect();
    assert_eq!(bounded.len(), 1);
    match *v.edge_kind(bounded[0]) {
        VoronoiEdgeKind::Bounded { vertices } => assert_ne!(vertices[0], vertices[1]),
        VoronoiEdgeKind::Unbounded { .. } => unreachable!(),
    }
    assert_eq!(v.edges().len() - bounded.len(), 5);
    assert!(v.validate_voronoi_topology().is_empty());
}

#[test]
fn query_api_matches_underlying_edge_and_group_data() {
    let pts = vec![(0, 0), (2, 0), (2, 2), (0, 2)];
    let v = build(pts, fan_from(4, 0));
    assert_eq!(v.cells().len(), 4);
    assert_eq!(v.vertices().len(), 1);
    assert_eq!(v.vertex_delaunay_faces(VoronoiVertexId(0)), &[FaceId(0), FaceId(1)][..]);
    for (i, id) in v.edges().into_iter().enumerate() {
        assert_eq!(id, VoronoiEdgeId(i as u32));
        let cells = v.edge_cells(id);
        assert_ne!(cells[0], cells[1]);
    }
    for cell in v.cells() {
        assert_eq!(cell.0, v.cell_site(cell));
    }
    let keys: Vec<[u32; 2]> =
        v.edges().into_iter().map(|e| kika::triangulation::voronoi::edge_key(v.edge_cells(e))).collect();
    assert_eq!(keys, vec![[0, 1], [0, 3], [1, 2], [2, 3]]);
}

#[test]
fn neighboring_and_unbounded_queries_on_the_mixed_fixture() {
    let (pts, faces) = mixed_fixture();
    let v = build(pts, faces);
    let p0 = VoronoiCellId(VertexId(0));
    assert!(v.cell_is_unbounded(p0));
    let neighbor_sites: Vec<VertexId> = v.neighboring_cells(p0).into_iter().map(|c| v.cell_site(c)).collect();
    assert_eq!(neighbor_sites.len(), 2);
    assert!(neighbor_sites.contains(&VertexId(1)));
    assert!(neighbor_sites.contains(&VertexId(3)));
    for cell in v.cells() {
        for neighbor in v.neighboring_cells(cell) {
            assert!(v.neighboring_cells(neighbor).contains(&cell));
        }
    }
}

#[test]
fn interior_site_is_bounded_and_hull_sites_are_not() {
    // A square with its center: the center is the only interior site.
    let pts = vec![(0, 0), (4, 0), (4, 4), (0, 4), (2, 1)];
    let faces = vec![tri(0, 1, 4), tri(1, 2, 4), tri(2, 3, 4), tri(3, 0, 4)];
    let v = build(pts, faces);
    for cell in v.cells() {
        let interior = cell.0 == VertexId(4);
        assert_eq!(v.cell_is_unbounded(cell), !interior);
    }
    assert_eq!(v.neighboring_cells(VoronoiCellId(VertexId(4))).len(), 4);
}

#[test]
fn edge_key_sorts_the_site_pair() {
    let k = kika::triangulation::voronoi::edge_key([VoronoiCellId(VertexId(7)), VoronoiCellId(VertexId(3))]);
    assert_eq!(k, [3, 7]);
    let k = kika::triangulation::voronoi::edge_key([VoronoiCellId(VertexId(2)), VoronoiCellId(VertexId(9))]);
    assert_eq!(k, [2, 9]);
}

/// The tables of a diagram, read back through its queries.
fn tables(v: &Voronoi2<Pt>, n_faces: usize) -> (Vec<VoronoiVertexId>, Vec<Vec<FaceId>>, Vec<VoronoiEdge>) {
    let group_faces: Vec<Vec<FaceId>> = v.vertices().into_iter().map(|g| v.vertex_delaunay_faces(g).to_vec()).collect();
    let mut face_group = vec![VoronoiVertexId(0); n_faces];
    for (i, g) in group_faces.iter().enumerate() {
        for f in g {
            face_group[f.0 as usize] = VoronoiVertexId(i as u32);
        }
    }
    let edges = v
        .edges()
        .into_iter()
        .map(|e| VoronoiEdge { cells: v.edge_cells(e), source_edge: v.dual_delaunay_edge(e), kind: *v.edge_kind(e) })
        .collect();
    (face_group, group_faces, edges)
}

#[test]
fn validator_catches_deliberately_corrupted_invariants() {
    let (pts, faces) = mixed_fixture();
    let t = assemble_triangulation(pts.clone(), faces.clone());
    let v = build(pts, faces);
    assert!(v.validate_voronoi_topology().is_empty());
    let (fg, gf, edges) = tables(&v, t.len());
    assert!(validate_voronoi_tables(&t, &fg, &gf, &edges).is_empty());

    let bounded_i = edges.iter().position(|e| matches!(e.kind, VoronoiEdgeKind::Bounded { .. })).unwrap();
    let unbounded_i = edges.iter().position(|e| matches!(e.kind, VoronoiEdgeKind::Unbounded { .. })).unwrap();
    let excluded_interior_edge = t
        .edges()
        .into_iter()
        .find(|&e| matches!(t.adjacent_faces(e), [Some(_), Some(_)]) && !edges.iter().any(|ve| ve.source_edge == e))
        .unwrap();

    let mut broken = edges.clone();
    broken[bounded_i].cells[1] = broken[bounded_i].cells[0];
    assert!(validate_voronoi_tables(&t, &fg, &gf, &broken)
        .contains(&VoronoiTopologyError::NonDistinctEdgeCells { edge: VoronoiEdgeId(bounded_i as u32) }));

    let mut broken = edges.clone();
    if let VoronoiEdgeKind::Bounded { vertices } = &mut broken[bounded_i].kind {
        vertices[1] = vertices[0];
    }
    assert!(validate_voronoi_tables(&t, &fg, &gf, &broken)
        .contains(&VoronoiTopologyError::NonDistinctBoundedVertices { edge: VoronoiEdgeId(bounded_i as u32) }));

    let mut broken = edges.clone();
    broken[unbounded_i].source_edge = excluded_interior_edge;
    assert!(validate_voronoi_tables(&t, &fg, &gf, &broken)
        .contains(&VoronoiTopologyError::UnboundedEdgeNotHullDual { edge: VoronoiEdgeId(unbounded_i as u32) }));

    let mut broken = gf.clone();
    let dup = broken[0][0];
    broken[0].push(dup);
    assert!(validate_voronoi_tables(&t, &fg, &broken, &edges)
        .contains(&VoronoiTopologyError::DuplicateFaceInGroup { vertex: VoronoiVertexId(0), face: dup }));
}

#[test]
fn validator_reports_broken_inverse_and_order() {
    let (pts, faces) = mixed_fixture();
    let t = assemble_triangulation(pts.clone(), faces.clone());
    let v = build(pts, faces);
    let (fg, gf, edges) = tables(&v, t.len());

    let mut broken = fg.clone();
    let other = if broken[0] == VoronoiVertexId(0) { VoronoiVertexId(1) } else { VoronoiVertexId(0) };
    broken[0] = other;
    let r = validate_voronoi_tables(&t, &broken, &gf, &edges);
    assert!(r.iter().any(|e| matches!(e, VoronoiTopologyError::FaceGroupNotInverse { .. })));

    let mut swapped = gf.clone();
    swapped.swap(0, 1);
    let r = validate_voronoi_tables(&t, &fg, &swapped, &edges);
    assert!(r.contains(&VoronoiTopologyError::GroupsNotCanonicallyOrdered { at: 1 }));

    let mut reversed = edges.clone();
    reversed.reverse();
    let r = validate_voronoi_tables(&t, &fg, &gf, &reversed);
    assert!(r.iter().any(|e| matches!(e, VoronoiTopologyError::EdgesNotCanonicallyOrdered { .. })));

    let mut missing = edges.clone();
    let gone = missing.remove(0);
    let r = validate_voronoi_tables(&t, &fg, &gf, &missing);
    assert!(r.contains(&VoronoiTopologyError::MissingVoronoiEdge { source_edge: gone.source_edge }));

    let mut wrong = edges.clone();
    wrong[0].cells.swap(0, 1);
    let r = validate_voronoi_tables(&t, &fg, &gf, &wrong);
    assert!(r.contains(&VoronoiTopologyError::EdgeMismatch { source_edge: wrong[0].source_edge }));
}

#[test]
fn duplicate_triangle_groups_share_a_site_set() {
    // Two copies of one triangle, no cocircular merge: two groups with
    // the same site set, which the group-order check reports.
    let t = assemble_triangulation(vec![(0, 0), (1, 0), (0, 1)], vec![tri(0, 1, 2), tri(0, 1, 2)]);
    let flags = vec![false; t.edges().len()];
    let v = voronoi2(t, &flags);
    assert_eq!(v.vertices().len(), 2);
    let r = v.validate_voronoi_topology();
    assert_eq!(r, vec![VoronoiTopologyError::GroupsNotCanonicallyOrdered { at: 1 }]);
}
