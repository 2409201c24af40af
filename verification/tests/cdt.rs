use kika::triangulation::cdt::{
    adjacent_faces_of_edge, canon, check_constraint_indices, check_duplicate_constraints, edge_exists, flip_bound,
    flip_edge, shared_and_apex, unconstrained_interior_edges,
};
use kika::{insert_constraint_edge, restore_unconstrained_delaunay, CdtError, FaceId, VertexId};

type Pt = (i64, i64);

fn orient(a: Pt, b: Pt, c: Pt) -> i128 {
    ((b.0 - a.0) as i128) * ((c.1 - a.1) as i128) - ((b.1 - a.1) as i128) * ((c.0 - a.0) as i128)
}

#[test]
fn insert_constraint_edge_flips_the_crossing_diagonal() {
    // Square 0-1-2-3 split by diagonal 1-3; inserting 0-2 flips it.
    let pts: Vec<Pt> = vec![(0, 0), (4, 0), (4, 4), (0, 4)];
    let t = kika::assemble_triangulation(pts.clone(), vec![
        [VertexId(0), VertexId(1), VertexId(3)],
        [VertexId(1), VertexId(2), VertexId(3)],
    ]);
    let mut faces: Vec<[VertexId; 3]> = t.faces().into_iter().map(|f| t.face_vertices(f)).collect();
    let mut nb: Vec<[Option<FaceId>; 3]> = t.faces().into_iter().map(|f| t.neighboring_faces(f)).collect();
    let p = |v: VertexId| pts[v.0 as usize];
    let crosses = |u: VertexId, v: VertexId, a: VertexId, b: VertexId| -> bool {
        orient(p(u), p(v), p(a)).signum() * orient(p(u), p(v), p(b)).signum() < 0
            && orient(p(a), p(b), p(u)).signum() * orient(p(a), p(b), p(v)).signum() < 0
    };
    let convex = |x: VertexId, y: VertexId, a: VertexId, b: VertexId| -> bool {
        orient(p(x), p(y), p(a)).signum() * orient(p(x), p(y), p(b)).signum() < 0
    };
    assert!(!edge_exists(&faces, VertexId(0), VertexId(2)));
    let r = insert_constraint_edge(&mut faces, &mut nb, &Vec::new(), VertexId(0), VertexId(2), &crosses, &convex);
    assert_eq!(r, Ok(()));
    assert!(edge_exists(&faces, VertexId(0), VertexId(2)));
    assert!(!edge_exists(&faces, VertexId(1), VertexId(3)));

    // With 0-2 constrained, restoring Delaunay-ness flips nothing even
    // under an oracle that calls every edge illegal: the only interior
    // edge is the constrained one.
    let always_inside = |_: VertexId, _: VertexId, _: VertexId, _: VertexId| -> bool { true };
    let constrained = vec![canon(VertexId(0), VertexId(2))];
    let r = restore_unconstrained_delaunay(&mut faces, &mut nb, &constrained, &convex, &always_inside);
    assert_eq!(r, Ok(()));
    assert!(edge_exists(&faces, VertexId(0), VertexId(2)));
}

#[test]
fn flip_edge_rotates_the_shared_diagonal() {
    let t = kika::assemble_triangulation(vec![(); 4], vec![
        [VertexId(0), VertexId(1), VertexId(3)],
        [VertexId(1), VertexId(2), VertexId(3)],
    ]);
    let mut faces: Vec<[VertexId; 3]> = t.faces().into_iter().map(|f| t.face_vertices(f)).collect();
    let mut nb: Vec<[Option<FaceId>; 3]> = t.faces().into_iter().map(|f| t.neighboring_faces(f)).collect();
    let (fa, fb) = adjacent_faces_of_edge(&faces, &nb, VertexId(1), VertexId(3)).unwrap();
    assert_eq!((fa, fb), (FaceId(0), FaceId(1)));
    assert_eq!(shared_and_apex(&faces, fa, fb), (VertexId(1), VertexId(3), VertexId(0), VertexId(2)));
    flip_edge(&mut faces, &mut nb, fa, fb);
    assert_eq!(faces[0], [VertexId(0), VertexId(1), VertexId(2)]);
    assert_eq!(faces[1], [VertexId(0), VertexId(2), VertexId(3)]);
    assert_eq!(nb[0], [None, Some(FaceId(1)), None]);
    assert_eq!(nb[1], [None, None, Some(FaceId(0))]);
    let interior = unconstrained_interior_edges(&faces, &nb, &Vec::new());
    assert_eq!(interior, vec![(VertexId(0), VertexId(2), FaceId(0), FaceId(1))]);
    let constrained = unconstrained_interior_edges(&faces, &nb, &vec![(VertexId(0), VertexId(2))]);
    assert!(constrained.is_empty());
}

#[test]
fn constraint_validation_errors() {
    assert_eq!(check_constraint_indices(3, &vec![(0, 3)]), Err(CdtError::InvalidVertexIndex));
    assert_eq!(check_constraint_indices(3, &vec![(1, 1)]), Err(CdtError::ZeroLengthConstraint));
    assert_eq!(check_constraint_indices(3, &vec![(0, 1), (1, 2)]), Ok(()));
    assert_eq!(check_duplicate_constraints(&vec![(0, 1), (1, 0)]), Err(CdtError::DuplicateConstraint));
    assert_eq!(check_duplicate_constraints(&vec![(0, 1), (1, 2)]), Ok(()));
    assert_eq!(flip_bound(3), 28);
    assert_eq!(canon(VertexId(5), VertexId(2)), (VertexId(2), VertexId(5)));
}
