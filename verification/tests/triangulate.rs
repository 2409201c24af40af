use kika::triangulation::delaunay::{is_bad, GHOST};
use kika::{
    assemble_triangulation, euler_face_count, topology_flags, locate_point, PointLocation, cocircular_flags, voronoi2, constrained_delaunay2, convex_hull2, delaunay2, edge_incidences, point_ring_relation, point_triangle_relation,
    triangulate_polygon, triangulate_polygon_with_holes, validate_cdt_topology, CdtError, ConstrainedTriangulation2, EdgeId,
    HullBoundaryPoints, Orientation, PointPolygonRelation, PointTriangleRelation, PolygonBasicValidity,
    PolygonTriangulationError, SegmentIntersectionKind, Sign, TopologyError, Triangulation2, VertexId,
};

type K = (i64, i64);

// Exact arithmetic on the coordinates' binary values.

#[derive(Clone, Debug)]
struct Big {
    neg: bool,
    mag: Vec<u64>,
}

fn trim(m: &mut Vec<u64>) {
    while m.last() == Some(&0) {
        m.pop();
    }
}

fn mag_less(a: &[u64], b: &[u64]) -> bool {
    if a.len() != b.len() {
        return a.len() < b.len();
    }
    for i in (0..a.len()).rev() {
        if a[i] != b[i] {
            return a[i] < b[i];
        }
    }
    false
}

fn mag_add(a: &[u64], b: &[u64]) -> Vec<u64> {
    let mut r = Vec::new();
    let mut carry = 0u128;
    for i in 0..a.len().max(b.len()) {
        let s = carry + *a.get(i).unwrap_or(&0) as u128 + *b.get(i).unwrap_or(&0) as u128;
        r.push(s as u64);
        carry = s >> 64;
    }
    if carry > 0 {
        r.push(carry as u64);
    }
    trim(&mut r);
    r
}

/// `a - b` for `a >= b`.
fn mag_sub(a: &[u64], b: &[u64]) -> Vec<u64> {
    let mut r = Vec::new();
    let mut borrow = 0i128;
    for i in 0..a.len() {
        let mut d = a[i] as i128 - *b.get(i).unwrap_or(&0) as i128 - borrow;
        if d < 0 {
            d += 1i128 << 64;
            borrow = 1;
        } else {
            borrow = 0;
        }
        r.push(d as u64);
    }
    trim(&mut r);
    r
}

fn mag_mul(a: &[u64], b: &[u64]) -> Vec<u64> {
    let mut r = vec![0u64; a.len() + b.len() + 1];
    for i in 0..a.len() {
        let mut carry = 0u128;
        for j in 0..b.len() {
            let cur = r[i + j] as u128 + (a[i] as u128) * (b[j] as u128) + carry;
            r[i + j] = cur as u64;
            carry = cur >> 64;
        }
        let mut k = i + b.len();
        while carry > 0 {
            let cur = r[k] as u128 + carry;
            r[k] = cur as u64;
            carry = cur >> 64;
            k += 1;
        }
    }
    trim(&mut r);
    r
}

impl Big {
    fn add(&self, o: &Big) -> Big {
        if self.neg == o.neg {
            return Big { neg: self.neg, mag: mag_add(&self.mag, &o.mag) };
        }
        if mag_less(&self.mag, &o.mag) {
            Big { neg: o.neg, mag: mag_sub(&o.mag, &self.mag) }
        } else {
            Big { neg: self.neg, mag: mag_sub(&self.mag, &o.mag) }
        }
    }
    fn sub(&self, o: &Big) -> Big {
        self.add(&Big { neg: !o.neg, mag: o.mag.clone() })
    }
    fn mul(&self, o: &Big) -> Big {
        Big { neg: self.neg != o.neg, mag: mag_mul(&self.mag, &o.mag) }
    }
    fn sign(&self) -> i32 {
        if self.mag.is_empty() {
            0
        } else if self.neg {
            -1
        } else {
            1
        }
    }
}

/// `x = m * 2^e` with an integer `m`.
fn split(x: f64) -> (bool, u64, i32) {
    let bits = x.to_bits();
    let neg = bits >> 63 == 1;
    let exp = ((bits >> 52) & 0x7ff) as i32;
    let frac = bits & ((1u64 << 52) - 1);
    if exp == 0 {
        (neg, frac, -1074)
    } else {
        (neg, frac | (1u64 << 52), exp - 1075)
    }
}

/// The given coordinates as exact integers over one common power of two.
fn exact(xs: &[f64]) -> Vec<Big> {
    let parts: Vec<(bool, u64, i32)> = xs.iter().map(|&x| split(x)).collect();
    let base = parts.iter().filter(|p| p.1 != 0).map(|p| p.2).min().unwrap_or(0);
    parts
        .iter()
        .map(|&(neg, m, e)| {
            if m == 0 {
                return Big { neg: false, mag: vec![] };
            }
            let shift = (e - base) as usize;
            let mut mag = vec![0u64; shift / 64];
            let lo = (m as u128) << (shift % 64);
            mag.push(lo as u64);
            mag.push((lo >> 64) as u64);
            trim(&mut mag);
            Big { neg, mag }
        })
        .collect()
}

fn key(x: f64) -> i64 {
    if x == 0.0 {
        0
    } else if x > 0.0 {
        x.to_bits() as i64
    } else {
        -((x.to_bits() & 0x7fff_ffff_ffff_ffff) as i64)
    }
}

fn unkey(k: i64) -> f64 {
    if k >= 0 {
        f64::from_bits(k as u64)
    } else {
        -f64::from_bits((-k) as u64)
    }
}

fn p(x: f64, y: f64) -> K {
    (key(x), key(y))
}

fn sign_of(v: i32) -> Sign {
    if v > 0 {
        Sign::Positive
    } else if v < 0 {
        Sign::Negative
    } else {
        Sign::Zero
    }
}

fn orient(a: K, b: K, c: K) -> Orientation {
    let v = exact(&[unkey(a.0), unkey(a.1), unkey(b.0), unkey(b.1), unkey(c.0), unkey(c.1)]);
    let det = v[2].sub(&v[0]).mul(&v[5].sub(&v[1])).sub(&v[3].sub(&v[1]).mul(&v[4].sub(&v[0])));
    match det.sign() {
        1 => Orientation::CounterClockwise,
        -1 => Orientation::Clockwise,
        _ => Orientation::Collinear,
    }
}

fn incircle(a: K, b: K, c: K, d: K) -> Sign {
    let v = exact(&[unkey(a.0), unkey(a.1), unkey(b.0), unkey(b.1), unkey(c.0), unkey(c.1), unkey(d.0), unkey(d.1)]);
    let row = |i: usize| {
        let x = v[2 * i].sub(&v[6]);
        let y = v[2 * i + 1].sub(&v[7]);
        let w = x.mul(&x).add(&y.mul(&y));
        (x, y, w)
    };
    let (ax, ay, aw) = row(0);
    let (bx, by, bw) = row(1);
    let (cx, cy, cw) = row(2);
    let t1 = ax.mul(&by.mul(&cw).sub(&bw.mul(&cy)));
    let t2 = ay.mul(&bx.mul(&cw).sub(&bw.mul(&cx)));
    let t3 = aw.mul(&bx.mul(&cy).sub(&by.mul(&cx)));
    sign_of(t1.sub(&t2).add(&t3).sign())
}

/// The exact sign of a ring's signed area.
fn winding(ring: &[K]) -> Orientation {
    let n = ring.len();
    if n < 3 {
        return Orientation::Collinear;
    }
    let mut coords = Vec::new();
    for q in ring {
        coords.push(unkey(q.0));
        coords.push(unkey(q.1));
    }
    let v = exact(&coords);
    let mut sum = Big { neg: false, mag: vec![] };
    for i in 0..n {
        let j = (i + 1) % n;
        sum = sum.add(&v[2 * i].mul(&v[2 * j + 1]).sub(&v[2 * j].mul(&v[2 * i + 1])));
    }
    match sum.sign() {
        1 => Orientation::CounterClockwise,
        -1 => Orientation::Clockwise,
        _ => Orientation::Collinear,
    }
}

// Queries on results.

fn positions(t: &Triangulation2<K>) -> Vec<K> {
    t.vertices().into_iter().map(|(_, q)| q).collect()
}

fn triangles(t: &Triangulation2<K>) -> Vec<[K; 3]> {
    let pos = positions(t);
    t.faces()
        .into_iter()
        .map(|f| {
            let [a, b, c] = t.face_vertices(f);
            [pos[a.0 as usize], pos[b.0 as usize], pos[c.0 as usize]]
        })
        .collect()
}

fn tri_area(tri: [K; 3]) -> f64 {
    let (a, b, c) = (tri[0], tri[1], tri[2]);
    let (ax, ay, bx, by, cx, cy) = (unkey(a.0), unkey(a.1), unkey(b.0), unkey(b.1), unkey(c.0), unkey(c.1));
    ((bx - ax) * (cy - ay) - (cx - ax) * (by - ay)).abs() / 2.0
}

fn area(t: &Triangulation2<K>) -> f64 {
    triangles(t).into_iter().map(tri_area).sum()
}

fn all_ccw(t: &Triangulation2<K>) {
    for tri in triangles(t) {
        assert_eq!(orient(tri[0], tri[1], tri[2]), Orientation::CounterClockwise);
    }
}

/// Each face's counterclockwise flag, each edge's local-Delaunay
/// violation, and the Euler count expected from the vertices' hull.
fn topology_inputs(t: &Triangulation2<K>) -> (Vec<bool>, Vec<bool>, Option<isize>) {
    let pos = positions(t);
    let (ccw, violated) = topology_flags(t, &orient, &incircle);
    let hull = convex_hull2(&pos, HullBoundaryPoints::KeepAllOnBoundary, &orient);
    let euler = euler_face_count(pos.len(), &hull, &orient);
    (ccw, violated, euler)
}

fn validate(t: &Triangulation2<K>) -> Vec<TopologyError> {
    let (ccw, violated, euler) = topology_inputs(t);
    t.validate_topology(&ccw, &violated, euler)
}

fn validate_cdt(c: &ConstrainedTriangulation2<K>) -> Vec<TopologyError> {
    let (ccw, violated, euler) = topology_inputs(c.triangulation());
    validate_cdt_topology(c, &ccw, &violated, euler)
}

fn validate_ignoring_hull_coverage(t: &Triangulation2<K>) -> Vec<TopologyError> {
    validate(t).into_iter().filter(|e| !matches!(e, TopologyError::EulerFormulaViolated { .. })).collect()
}

fn dt(pts: &[K]) -> Triangulation2<K> {
    delaunay2(&pts.to_vec(), &orient, &incircle)
}

fn cdt(pts: &[K], constraints: &[(usize, usize)]) -> Result<ConstrainedTriangulation2<K>, CdtError> {
    constrained_delaunay2(&pts.to_vec(), &constraints.to_vec(), &orient, &incircle)
}

fn find_edge_by_coords(t: &Triangulation2<K>, a: K, b: K) -> Option<EdgeId> {
    let pos = positions(t);
    t.edges().into_iter().find(|&e| {
        let (u, v) = t.edge_vertices(e);
        let (pu, pv) = (pos[u.0 as usize], pos[v.0 as usize]);
        (pu == a && pv == b) || (pu == b && pv == a)
    })
}

fn polygon(ring: &[K]) -> Result<Triangulation2<K>, PolygonTriangulationError> {
    triangulate_polygon(&ring.to_vec(), winding(ring), &orient, &incircle)
}

fn polygon_with_holes(outer: &[K], holes: &[Vec<K>]) -> Result<Triangulation2<K>, PolygonTriangulationError> {
    let windings: Vec<Orientation> = holes.iter().map(|h| winding(h)).collect();
    triangulate_polygon_with_holes(&outer.to_vec(), winding(outer), &holes.to_vec(), &windings, &orient, &incircle)
}

// Delaunay triangulation.

fn empty_circumcircle_property(points: &[K], t: &Triangulation2<K>) {
    for tri in triangles(t) {
        for &q in points {
            assert_ne!(incircle(tri[0], tri[1], tri[2], q), Sign::Positive, "point {q:?} strictly inside circumcircle of {tri:?}");
        }
    }
}

fn every_vertex_is_an_input_point(points: &[K], t: &Triangulation2<K>) {
    for tri in triangles(t) {
        for v in tri {
            assert!(points.contains(&v), "triangle vertex {v:?} not in input");
        }
    }
}

#[test]
fn delaunay2_empty_input() {
    assert!(dt(&[]).is_empty());
}

#[test]
fn one_and_two_points() {
    assert!(dt(&[p(0.0, 0.0)]).is_empty());
    assert!(dt(&[p(0.0, 0.0), p(1.0, 1.0)]).is_empty());
}

#[test]
fn fully_collinear_input() {
    assert!(dt(&[p(0.0, 0.0), p(1.0, 0.0), p(2.0, 0.0), p(3.0, 0.0)]).is_empty());
}

#[test]
fn single_triangle() {
    let pts = [p(0.0, 0.0), p(4.0, 0.0), p(0.0, 4.0)];
    let t = dt(&pts);
    assert_eq!(t.len(), 1);
    all_ccw(&t);
    every_vertex_is_an_input_point(&pts, &t);
    empty_circumcircle_property(&pts, &t);
}

#[test]
fn square_gives_two_triangles() {
    let pts = [p(0.0, 0.0), p(4.0, 0.0), p(4.0, 4.0), p(0.0, 4.0)];
    let t = dt(&pts);
    assert_eq!(t.len(), 2);
    all_ccw(&t);
    every_vertex_is_an_input_point(&pts, &t);
    empty_circumcircle_property(&pts, &t);
}

#[test]
fn square_with_center_point_gives_four_triangles() {
    let pts = [p(0.0, 0.0), p(4.0, 0.0), p(4.0, 4.0), p(0.0, 4.0), p(2.0, 2.0)];
    let t = dt(&pts);
    assert_eq!(t.len(), 4);
    all_ccw(&t);
    every_vertex_is_an_input_point(&pts, &t);
    empty_circumcircle_property(&pts, &t);
}

#[test]
fn point_on_interior_edge_splits_both_adjacent_triangles() {
    let pts = [p(0.0, 0.0), p(4.0, 0.0), p(4.0, 4.0), p(0.0, 4.0), p(2.0, 2.0)];
    let t = dt(&pts);
    assert_eq!(t.len(), 4);
    all_ccw(&t);
    empty_circumcircle_property(&pts, &t);
}

#[test]
fn point_on_hull_boundary_edge_splits_one_triangle() {
    let pts = [p(0.0, 0.0), p(4.0, 0.0), p(0.0, 4.0), p(2.0, 0.0)];
    let t = dt(&pts);
    assert_eq!(t.len(), 2);
    all_ccw(&t);
    empty_circumcircle_property(&pts, &t);
}

#[test]
fn cocircular_square_plus_center_is_stable_across_permutations() {
    let pts = [p(0.0, 0.0), p(4.0, 0.0), p(4.0, 4.0), p(0.0, 4.0), p(1.0, 1.0)];
    let base = dt(&pts);
    empty_circumcircle_property(&pts, &base);
    all_ccw(&base);
    let mut shuffled = pts;
    shuffled.reverse();
    let other = dt(&shuffled);
    assert_eq!(triangles(&base), triangles(&other));
}

#[test]
fn triangulation_covers_the_convex_hull() {
    let pts = [p(0.0, 0.0), p(4.0, 0.0), p(4.0, 4.0), p(0.0, 4.0), p(1.0, 1.0), p(3.0, 1.0), p(2.0, 3.0)];
    let t = dt(&pts);
    for &q in &pts {
        let covered = triangles(&t).iter().any(|tri| {
            let (a, b, c) = (tri[0], tri[1], tri[2]);
            point_triangle_relation(a, b, c, q, orient(a, b, c), [orient(a, b, q), orient(b, c, q), orient(c, a, q)])
                != PointTriangleRelation::Outside
        });
        assert!(covered, "point {q:?} not covered by any triangle");
    }
}

#[test]
fn ghost_vertex_never_leaks_into_output() {
    let pts = [p(0.0, 0.0), p(4.0, 0.0), p(4.0, 4.0), p(0.0, 4.0), p(1.0, 1.0)];
    let t = dt(&pts);
    every_vertex_is_an_input_point(&pts, &t);
}

#[test]
fn topology_empty_and_single_triangle_do_not_panic() {
    let empty = dt(&[]);
    assert_eq!(empty.vertices().len(), 0);
    assert_eq!(empty.edges().len(), 0);
    assert_eq!(empty.faces().len(), 0);
    assert_eq!(empty.boundary_edges().len(), 0);
    assert!(validate(&empty).is_empty());

    let t = dt(&[p(0.0, 0.0), p(4.0, 0.0), p(0.0, 4.0)]);
    assert_eq!(t.vertices().len(), 3);
    assert_eq!(t.faces().len(), 1);
    assert_eq!(t.edges().len(), 3);
    assert_eq!(t.boundary_edges().len(), 3);
    let face = t.faces()[0];
    assert_eq!(t.neighboring_faces(face), [None, None, None]);
    assert!(validate(&t).is_empty());
}

#[test]
fn topology_square_with_center_has_one_shared_edge_per_interior_pair() {
    let t = dt(&[p(0.0, 0.0), p(4.0, 0.0), p(4.0, 4.0), p(0.0, 4.0), p(2.0, 2.0)]);
    assert_eq!(t.faces().len(), 4);
    assert_eq!(t.edges().len(), 8);
    assert_eq!(t.boundary_edges().len(), 4);
    for edge in t.edges() {
        if let [Some(fa), Some(fb)] = t.adjacent_faces(edge) {
            assert!(t.neighboring_faces(fa).contains(&Some(fb)));
            assert!(t.neighboring_faces(fb).contains(&Some(fa)));
        }
    }
    assert!(validate(&t).is_empty());
}

#[test]
fn face_vertices_matches_triangles_coordinates() {
    let t = dt(&[p(0.0, 0.0), p(4.0, 0.0), p(4.0, 4.0), p(0.0, 4.0), p(2.0, 2.0)]);
    let coords: Vec<(VertexId, K)> = t.vertices();
    for (face, tri) in t.faces().into_iter().zip(triangles(&t)) {
        let [v0, v1, v2] = t.face_vertices(face);
        assert_eq!(coords[v0.0 as usize].1, tri[0]);
        assert_eq!(coords[v1.0 as usize].1, tri[1]);
        assert_eq!(coords[v2.0 as usize].1, tri[2]);
    }
}

#[test]
fn delaunay_vertices_are_the_sorted_distinct_points() {
    let pts = [p(4.0, 4.0), p(0.0, 0.0), p(4.0, 0.0), p(0.0, 0.0), p(0.0, 4.0)];
    let t = dt(&pts);
    assert_eq!(positions(&t), vec![p(0.0, 0.0), p(0.0, 4.0), p(4.0, 0.0), p(4.0, 4.0)]);
}

// Constrained Delaunay triangulation.

#[test]
fn empty_input_and_no_constraints() {
    let c = cdt(&[], &[]).unwrap();
    assert!(c.triangulation().is_empty());
    assert!(validate_cdt(&c).is_empty());
}

#[test]
fn no_constraints_matches_plain_delaunay() {
    let pts = [p(0.0, 0.0), p(4.0, 0.0), p(4.0, 4.0), p(0.0, 4.0), p(2.0, 2.0)];
    let c = cdt(&pts, &[]).unwrap();
    let plain = dt(&pts);
    assert_eq!(c.triangulation().len(), plain.len());
    assert!(validate_cdt(&c).is_empty());
    assert!(validate(c.triangulation()).is_empty());
}

#[test]
fn invalid_vertex_index() {
    assert_eq!(cdt(&[p(0.0, 0.0), p(1.0, 0.0)], &[(0, 5)]).err(), Some(CdtError::InvalidVertexIndex));
}

#[test]
fn duplicate_point_is_invalid_vertex_index() {
    assert_eq!(cdt(&[p(0.0, 0.0), p(1.0, 0.0), p(0.0, 0.0)], &[]).err(), Some(CdtError::InvalidVertexIndex));
}

#[test]
fn zero_length_constraint() {
    assert_eq!(cdt(&[p(0.0, 0.0), p(1.0, 0.0)], &[(0, 0)]).err(), Some(CdtError::ZeroLengthConstraint));
}

#[test]
fn duplicate_constraint() {
    assert_eq!(cdt(&[p(0.0, 0.0), p(1.0, 0.0), p(0.0, 1.0)], &[(0, 1), (1, 0)]).err(), Some(CdtError::DuplicateConstraint));
}

#[test]
fn properly_crossing_constraints() {
    let pts = [p(0.0, 0.0), p(4.0, 0.0), p(4.0, 4.0), p(0.0, 4.0)];
    assert_eq!(cdt(&pts, &[(0, 2), (1, 3)]).err(), Some(CdtError::ProperlyCrossingConstraints));
}

#[test]
fn collinear_overlapping_constraints() {
    let pts = [p(0.0, 0.0), p(1.0, 0.0), p(2.0, 0.0), p(3.0, 0.0)];
    assert_eq!(cdt(&pts, &[(0, 2), (1, 3)]).err(), Some(CdtError::CollinearOverlappingConstraints));
}

#[test]
fn single_point_no_constraints_is_empty_ok() {
    let c = cdt(&[p(0.0, 0.0)], &[]).unwrap();
    assert!(c.triangulation().is_empty());
    assert_eq!(c.triangulation().vertices().len(), 0);
    assert!(validate_cdt(&c).is_empty());
}

#[test]
fn two_collinear_points_no_constraints_is_empty_ok() {
    let c = cdt(&[p(0.0, 0.0), p(1.0, 0.0)], &[]).unwrap();
    assert!(c.triangulation().is_empty());
    assert!(validate_cdt(&c).is_empty());
}

#[test]
fn four_collinear_points_no_constraints_is_empty_ok() {
    let c = cdt(&[p(0.0, 0.0), p(1.0, 0.0), p(2.0, 0.0), p(3.0, 0.0)], &[]).unwrap();
    assert!(c.triangulation().is_empty());
    assert!(validate_cdt(&c).is_empty());
}

#[test]
fn two_collinear_points_with_constraint_is_degenerate_point_set() {
    assert_eq!(cdt(&[p(0.0, 0.0), p(1.0, 0.0)], &[(0, 1)]).err(), Some(CdtError::DegeneratePointSet));
}

#[test]
fn four_collinear_points_with_constraint_is_degenerate_point_set() {
    let pts = [p(0.0, 0.0), p(1.0, 0.0), p(2.0, 0.0), p(3.0, 0.0)];
    assert_eq!(cdt(&pts, &[(0, 3)]).err(), Some(CdtError::DegeneratePointSet));
}

#[test]
fn shared_endpoint_constraints_are_allowed() {
    let pts = [p(0.0, 0.0), p(4.0, 0.0), p(0.0, 4.0)];
    let c = cdt(&pts, &[(0, 1), (1, 2), (2, 0)]).unwrap();
    assert!(validate_cdt(&c).is_empty());
}

#[test]
fn constrained_edge_survives_even_when_not_locally_delaunay() {
    let (a, b, c, d) = (p(0.0, 0.0), p(5.0, 1.0), p(4.0, 4.0), p(-1.0, 3.0));
    let pts = [a, b, c, d];
    let natural = dt(&pts);
    assert_eq!(natural.len(), 2, "expected a convex quad -> 2 triangles");
    let ac_exists = find_edge_by_coords(&natural, a, c).is_some();
    let (pair, x, y) = if ac_exists { ((1usize, 3usize), b, d) } else { ((0usize, 2usize), a, c) };
    let result = cdt(&pts, &[pair]).unwrap();
    let edge = find_edge_by_coords(result.triangulation(), x, y).expect("constrained diagonal must be present as an edge");
    assert!(result.is_constrained(edge), "the inserted diagonal must be marked constrained");
    assert!(validate_cdt(&result).is_empty(), "constrained-aware validator must not flag the constrained edge");
    let unconstrained = validate(result.triangulation());
    assert!(
        unconstrained.iter().any(|e| matches!(e, TopologyError::NotLocallyDelaunay { .. })),
        "test setup didn't actually pick a non-Delaunay diagonal: {unconstrained:?}"
    );
}

#[test]
fn multiple_constraints_each_needing_a_flip_all_survive() {
    let quad = |ox: f64, oy: f64| [p(0.0 + ox, 0.0 + oy), p(5.0 + ox, 1.0 + oy), p(4.0 + ox, 4.0 + oy), p(-1.0 + ox, 3.0 + oy)];
    let qa = quad(0.0, 0.0);
    let qb = quad(100.0, 0.0);
    let pts = [qa[0], qa[1], qa[2], qa[3], qb[0], qb[1], qb[2], qb[3]];
    let natural = dt(&pts);
    let pick = |q: [K; 4], idx: [usize; 4]| -> ((usize, usize), K, K) {
        if find_edge_by_coords(&natural, q[0], q[2]).is_some() {
            ((idx[1], idx[3]), q[1], q[3])
        } else {
            ((idx[0], idx[2]), q[0], q[2])
        }
    };
    let (constraint_a, ca0, ca1) = pick(qa, [0, 1, 2, 3]);
    let (constraint_b, cb0, cb1) = pick(qb, [4, 5, 6, 7]);
    let c = cdt(&pts, &[constraint_a, constraint_b]).unwrap();
    let edge_a = find_edge_by_coords(c.triangulation(), ca0, ca1).expect("quad A's constrained diagonal must be present");
    let edge_b = find_edge_by_coords(c.triangulation(), cb0, cb1).expect("quad B's constrained diagonal must be present");
    assert!(c.is_constrained(edge_a));
    assert!(c.is_constrained(edge_b));
    assert!(validate_cdt(&c).is_empty());
    let unconstrained = validate(c.triangulation());
    let pos = positions(c.triangulation());
    let flags_edge = |x: K, y: K| {
        unconstrained.iter().any(|e| match e {
            TopologyError::NotLocallyDelaunay { u, v } => {
                let (pu, pv) = (pos[u.0 as usize], pos[v.0 as usize]);
                (pu == x && pv == y) || (pu == y && pv == x)
            }
            _ => false,
        })
    };
    assert!(flags_edge(ca0, ca1), "quad A: {unconstrained:?}");
    assert!(flags_edge(cb0, cb1), "quad B: {unconstrained:?}");
}

#[test]
fn constraint_through_a_collinear_third_vertex_is_rejected() {
    let pts = [p(0.0, 0.0), p(2.0, 0.0), p(4.0, 0.0), p(2.0, 2.0), p(2.0, -2.0)];
    assert_eq!(cdt(&pts, &[(0, 2)]).err(), Some(CdtError::ConstraintInsertionFailed));
}

#[test]
fn constraint_already_a_delaunay_edge_is_a_noop_flip() {
    let pts = [p(0.0, 0.0), p(4.0, 0.0), p(0.0, 4.0)];
    let c = cdt(&pts, &[(0, 1)]).unwrap();
    let edge = find_edge_by_coords(c.triangulation(), pts[0], pts[1]).unwrap();
    assert!(c.is_constrained(edge));
}

#[test]
fn deterministic_regardless_of_constraint_order() {
    let pts = [p(0.0, 0.0), p(4.0, 0.0), p(4.0, 4.0), p(0.0, 4.0), p(2.0, 2.0)];
    let a = cdt(&pts, &[(0, 1), (2, 3)]).unwrap();
    let b = cdt(&pts, &[(2, 3), (0, 1)]).unwrap();
    assert_eq!(triangles(a.triangulation()), triangles(b.triangulation()));
}

#[test]
fn every_constraint_is_a_constrained_edge_between_its_points() {
    let pts = [p(0.0, 0.0), p(4.0, 0.0), p(4.0, 4.0), p(0.0, 4.0)];
    let constraints = [(0usize, 2usize)];
    let c = cdt(&pts, &constraints).unwrap();
    let count = c.triangulation().edges().into_iter().filter(|&e| c.is_constrained(e)).count();
    assert_eq!(count, constraints.len());
}

// Polygon triangulation.

#[test]
fn triangle_triangulates_to_itself() {
    let t = polygon(&[p(0.0, 0.0), p(4.0, 0.0), p(0.0, 4.0)]).unwrap();
    assert_eq!(t.len(), 1);
    assert!(validate(&t).is_empty());
}

#[test]
fn convex_square_triangulates_to_two_triangles() {
    let t = polygon(&[p(0.0, 0.0), p(4.0, 0.0), p(4.0, 4.0), p(0.0, 4.0)]).unwrap();
    assert_eq!(t.len(), 2);
    assert!(validate(&t).is_empty());
    all_ccw(&t);
}

#[test]
fn clockwise_input_triangulates_the_same_region() {
    let ccw = [p(0.0, 0.0), p(4.0, 0.0), p(4.0, 4.0), p(0.0, 4.0)];
    let cw = [p(0.0, 0.0), p(0.0, 4.0), p(4.0, 4.0), p(4.0, 0.0)];
    assert_eq!(winding(&ccw), Orientation::CounterClockwise);
    assert_eq!(winding(&cw), Orientation::Clockwise);
    let t_ccw = polygon(&ccw).unwrap();
    let t_cw = polygon(&cw).unwrap();
    assert_eq!(t_ccw.len(), 2);
    assert_eq!(t_cw.len(), 2);
    assert_eq!(area(&t_ccw), 16.0);
    assert_eq!(area(&t_cw), 16.0);
}

#[test]
fn l_shape_discards_the_concave_pocket() {
    let ring = [p(0.0, 0.0), p(4.0, 0.0), p(4.0, 2.0), p(2.0, 2.0), p(2.0, 4.0), p(0.0, 4.0)];
    let t = polygon(&ring).unwrap();
    let errs = validate_ignoring_hull_coverage(&t);
    assert!(errs.is_empty(), "{errs:?}");
    assert_eq!(t.len(), ring.len() - 2);
    assert_eq!(area(&t), 12.0);
    all_ccw(&t);
    for (_, v) in t.vertices() {
        assert!(ring.contains(&v));
    }
}

#[test]
fn too_few_vertices_is_rejected() {
    assert_eq!(polygon(&[p(0.0, 0.0), p(1.0, 0.0)]).err(), Some(PolygonTriangulationError::TooFewVertices));
}

#[test]
fn consecutive_duplicate_vertex_is_rejected() {
    let ring = [p(0.0, 0.0), p(0.0, 0.0), p(1.0, 0.0), p(0.0, 1.0)];
    assert_eq!(polygon(&ring).err(), Some(PolygonTriangulationError::DegenerateEdge));
}

#[test]
fn collinear_zero_area_is_rejected() {
    assert_eq!(polygon(&[p(0.0, 0.0), p(1.0, 0.0), p(2.0, 0.0)]).err(), Some(PolygonTriangulationError::ZeroArea));
}

#[test]
fn self_intersecting_bowtie_is_rejected() {
    let ring = [p(0.0, 0.0), p(6.0, 6.0), p(6.0, 0.0), p(0.0, 2.0)];
    assert_ne!(winding(&ring), Orientation::Collinear);
    match polygon(&ring) {
        Err(PolygonTriangulationError::SelfIntersecting(found)) => {
            assert_eq!(found.edge_a, 0);
            assert_eq!(found.edge_b, 2);
        },
        other => panic!("expected SelfIntersecting, got {other:?}"),
    }
}

#[test]
fn deterministic_regardless_of_starting_vertex() {
    let a = [p(0.0, 0.0), p(4.0, 0.0), p(4.0, 2.0), p(2.0, 2.0), p(2.0, 4.0), p(0.0, 4.0)];
    let b = [p(2.0, 2.0), p(2.0, 4.0), p(0.0, 4.0), p(0.0, 0.0), p(4.0, 0.0), p(4.0, 2.0)];
    assert_eq!(triangles(&polygon(&a).unwrap()), triangles(&polygon(&b).unwrap()));
}

#[test]
fn seed_edge_with_two_incident_faces_still_finds_the_interior_side() {
    let ring = [p(4.0, 2.0), p(2.0, 2.0), p(2.0, 4.0), p(0.0, 4.0), p(0.0, 0.0), p(4.0, 0.0)];
    let t = polygon(&ring).unwrap();
    assert_eq!(t.len(), ring.len() - 2);
    assert_eq!(area(&t), 12.0);
    let errs = validate_ignoring_hull_coverage(&t);
    assert!(errs.is_empty(), "{errs:?}");
}

#[test]
fn plus_shape_discards_all_four_separate_pockets() {
    let ring = [
        p(2.0, 0.0),
        p(4.0, 0.0),
        p(4.0, 2.0),
        p(6.0, 2.0),
        p(6.0, 4.0),
        p(4.0, 4.0),
        p(4.0, 6.0),
        p(2.0, 6.0),
        p(2.0, 4.0),
        p(0.0, 4.0),
        p(0.0, 2.0),
        p(2.0, 2.0),
    ];
    assert_eq!(winding(&ring), Orientation::CounterClockwise);
    let t = polygon(&ring).unwrap();
    assert_eq!(t.len(), ring.len() - 2);
    assert_eq!(area(&t), 20.0);
    let errs = validate_ignoring_hull_coverage(&t);
    assert!(errs.is_empty(), "{errs:?}");
}

// Polygons with holes.

fn rect(x0: f64, y0: f64, x1: f64, y1: f64) -> Vec<K> {
    vec![p(x0, y0), p(x1, y0), p(x1, y1), p(x0, y1)]
}

fn rect_cw(x0: f64, y0: f64, x1: f64, y1: f64) -> Vec<K> {
    vec![p(x0, y0), p(x0, y1), p(x1, y1), p(x1, y0)]
}

fn ring_area(ring: &[K]) -> f64 {
    let n = ring.len();
    let mut sum = 0.0;
    for i in 0..n {
        let j = (i + 1) % n;
        sum += unkey(ring[i].0) * unkey(ring[j].1) - unkey(ring[j].0) * unkey(ring[i].1);
    }
    (sum * 0.5).abs()
}

fn assert_boundary_edges_preserved(ring: &[K], t: &Triangulation2<K>) {
    for i in 0..ring.len() {
        let (a, b) = (ring[i], ring[(i + 1) % ring.len()]);
        assert!(find_edge_by_coords(t, a, b).is_some(), "boundary edge {i} missing from result");
    }
}

fn assert_valid_holes_result(outer: &[K], holes: &[Vec<K>], t: &Triangulation2<K>) {
    let n: usize = outer.len() + holes.iter().map(|h| h.len()).sum::<usize>();
    assert_eq!(t.len(), n + 2 * holes.len() - 2, "triangle count");
    all_ccw(t);
    let want = ring_area(outer) - holes.iter().map(|h| ring_area(h)).sum::<f64>();
    assert!((area(t) - want).abs() < 1e-6, "area conservation: got {}, want {want}", area(t));
    for tri in triangles(t) {
        let cx = (unkey(tri[0].0) + unkey(tri[1].0) + unkey(tri[2].0)) / 3.0;
        let cy = (unkey(tri[0].1) + unkey(tri[1].1) + unkey(tri[2].1)) / 3.0;
        let c = p(cx, cy);
        assert_eq!(point_ring_relation(&outer.to_vec(), c, &orient), PointPolygonRelation::Inside);
        for h in holes {
            assert_eq!(point_ring_relation(h, c, &orient), PointPolygonRelation::Outside);
        }
    }
    assert_boundary_edges_preserved(outer, t);
    for h in holes {
        assert_boundary_edges_preserved(h, t);
    }
    let errs = validate_ignoring_hull_coverage(t);
    assert!(errs.is_empty(), "{errs:?}");
}

#[test]
fn square_with_a_square_hole() {
    let outer = rect(0.0, 0.0, 4.0, 4.0);
    let holes = vec![rect(1.0, 1.0, 2.0, 2.0)];
    let t = polygon_with_holes(&outer, &holes).unwrap();
    assert_valid_holes_result(&outer, &holes, &t);
    assert_eq!(t.len(), 8);
}

#[test]
fn multiple_holes() {
    let outer = rect(0.0, 0.0, 10.0, 10.0);
    let holes = vec![rect(1.0, 1.0, 3.0, 3.0), rect(6.0, 6.0, 8.0, 8.0)];
    let t = polygon_with_holes(&outer, &holes).unwrap();
    assert_valid_holes_result(&outer, &holes, &t);
}

#[test]
fn narrow_channel_outer_boundary_with_a_hole() {
    let outer = vec![
        p(0.0, 0.0),
        p(10.0, 0.0),
        p(10.0, 10.0),
        p(7.0, 10.0),
        p(7.0, 3.0),
        p(3.0, 3.0),
        p(3.0, 10.0),
        p(0.0, 10.0),
    ];
    let holes = vec![rect(4.0, 0.5, 6.0, 1.5)];
    let t = polygon_with_holes(&outer, &holes).unwrap();
    assert_valid_holes_result(&outer, &holes, &t);
}

#[test]
fn hole_very_close_to_the_outer_boundary() {
    let outer = rect(0.0, 0.0, 10.0, 10.0);
    let holes = vec![rect(0.1, 0.1, 2.0, 2.0)];
    let t = polygon_with_holes(&outer, &holes).unwrap();
    assert_valid_holes_result(&outer, &holes, &t);
}

#[test]
fn cw_outer_ccw_hole() {
    let outer = rect_cw(0.0, 0.0, 4.0, 4.0);
    assert_eq!(winding(&outer), Orientation::Clockwise);
    let holes = vec![rect(1.0, 1.0, 2.0, 2.0)];
    assert_eq!(winding(&holes[0]), Orientation::CounterClockwise);
    let t = polygon_with_holes(&outer, &holes).unwrap();
    assert_valid_holes_result(&outer, &holes, &t);
}

#[test]
fn ccw_outer_cw_hole() {
    let outer = rect(0.0, 0.0, 4.0, 4.0);
    assert_eq!(winding(&outer), Orientation::CounterClockwise);
    let holes = vec![rect_cw(1.0, 1.0, 2.0, 2.0)];
    assert_eq!(winding(&holes[0]), Orientation::Clockwise);
    let t = polygon_with_holes(&outer, &holes).unwrap();
    assert_valid_holes_result(&outer, &holes, &t);
}

#[test]
fn hole_entirely_outside_outer_is_rejected() {
    let outer = rect(0.0, 0.0, 4.0, 4.0);
    let holes = vec![rect(10.0, 10.0, 12.0, 12.0)];
    assert_eq!(polygon_with_holes(&outer, &holes).err(), Some(PolygonTriangulationError::HoleOutsideOuter(0)));
}

#[test]
fn hole_touching_the_outer_boundary_is_rejected() {
    let outer = rect(0.0, 0.0, 4.0, 4.0);
    let holes = vec![vec![p(2.0, 0.0), p(3.0, 1.0), p(2.0, 2.0), p(1.0, 1.0)]];
    match polygon_with_holes(&outer, &holes) {
        Err(PolygonTriangulationError::HoleIntersectsOuter(0, SegmentIntersectionKind::EndpointTouch)) => {},
        other => panic!("expected HoleIntersectsOuter(0, EndpointTouch), got {other:?}"),
    }
}

#[test]
fn hole_crossing_the_outer_boundary_is_rejected() {
    let outer = rect(0.0, 0.0, 4.0, 4.0);
    let holes = vec![rect(-1.0, -1.0, 1.0, 1.0)];
    match polygon_with_holes(&outer, &holes) {
        Err(PolygonTriangulationError::HoleIntersectsOuter(0, SegmentIntersectionKind::Proper)) => {},
        other => panic!("expected HoleIntersectsOuter(0, Proper), got {other:?}"),
    }
}

#[test]
fn holes_touching_each_other_is_rejected() {
    let outer = rect(0.0, 0.0, 10.0, 10.0);
    let holes = vec![rect(1.0, 1.0, 3.0, 3.0), rect(3.0, 1.0, 5.0, 3.0)];
    match polygon_with_holes(&outer, &holes) {
        Err(PolygonTriangulationError::HolesIntersect(0, 1, SegmentIntersectionKind::CollinearTouch)) => {},
        other => panic!("expected HolesIntersect(0, 1, CollinearTouch), got {other:?}"),
    }
}

#[test]
fn holes_crossing_each_other_is_rejected() {
    let outer = rect(0.0, 0.0, 10.0, 10.0);
    let holes = vec![rect(1.0, 1.0, 3.0, 3.0), rect(2.0, 2.0, 4.0, 4.0)];
    match polygon_with_holes(&outer, &holes) {
        Err(PolygonTriangulationError::HolesIntersect(0, 1, SegmentIntersectionKind::Proper)) => {},
        other => panic!("expected HolesIntersect(0, 1, Proper), got {other:?}"),
    }
}

#[test]
fn nested_hole_is_rejected() {
    let outer = rect(0.0, 0.0, 10.0, 10.0);
    let holes = vec![rect(1.0, 1.0, 5.0, 5.0), rect(2.0, 2.0, 3.0, 3.0)];
    assert_eq!(polygon_with_holes(&outer, &holes).err(), Some(PolygonTriangulationError::NestedHole(1, 0)));
}

#[test]
fn hole_with_too_few_vertices_is_rejected() {
    let outer = rect(0.0, 0.0, 4.0, 4.0);
    let holes = vec![vec![p(1.0, 1.0), p(2.0, 1.0)]];
    assert_eq!(
        polygon_with_holes(&outer, &holes).err(),
        Some(PolygonTriangulationError::InvalidHole(0, PolygonBasicValidity::TooFewVertices))
    );
}

#[test]
fn self_intersecting_hole_is_rejected() {
    let outer = rect(0.0, 0.0, 10.0, 10.0);
    let holes = vec![vec![p(1.0, 1.0), p(7.0, 7.0), p(7.0, 1.0), p(1.0, 3.0)]];
    match polygon_with_holes(&outer, &holes) {
        Err(PolygonTriangulationError::HoleSelfIntersecting(0, found)) => {
            assert_eq!(found.edge_a, 0);
            assert_eq!(found.edge_b, 2);
        },
        other => panic!("expected HoleSelfIntersecting, got {other:?}"),
    }
}

#[test]
fn deterministic_regardless_of_hole_starting_vertex() {
    let outer = rect(0.0, 0.0, 10.0, 10.0);
    let hole_a = rect(2.0, 2.0, 4.0, 4.0);
    let hole_b = vec![p(4.0, 4.0), p(2.0, 4.0), p(2.0, 2.0), p(4.0, 2.0)];
    let t_a = polygon_with_holes(&outer, &[hole_a]).unwrap();
    let t_b = polygon_with_holes(&outer, &[hole_b]).unwrap();
    assert_eq!(triangles(&t_a), triangles(&t_b));
}

#[test]
fn no_holes_matches_triangulate_polygon() {
    let outer = [p(0.0, 0.0), p(4.0, 0.0), p(4.0, 2.0), p(2.0, 2.0), p(2.0, 4.0), p(0.0, 4.0)];
    let a = polygon(&outer).unwrap();
    let b = polygon_with_holes(&outer, &[]).unwrap();
    assert_eq!(triangles(&a), triangles(&b));
}

#[test]
fn point_in_ring_by_crossings() {
    let square = rect(0.0, 0.0, 4.0, 4.0);
    assert_eq!(point_ring_relation(&square, p(1.0, 1.0), &orient), PointPolygonRelation::Inside);
    assert_eq!(point_ring_relation(&square, p(4.0, 2.0), &orient), PointPolygonRelation::OnBoundary);
    assert_eq!(point_ring_relation(&square, p(0.0, 0.0), &orient), PointPolygonRelation::OnBoundary);
    assert_eq!(point_ring_relation(&square, p(5.0, 2.0), &orient), PointPolygonRelation::Outside);
    assert_eq!(point_ring_relation(&square, p(-1.0, 4.0), &orient), PointPolygonRelation::Outside);
    let l_shape = vec![p(0.0, 0.0), p(4.0, 0.0), p(4.0, 2.0), p(2.0, 2.0), p(2.0, 4.0), p(0.0, 4.0)];
    assert_eq!(point_ring_relation(&l_shape, p(3.0, 3.0), &orient), PointPolygonRelation::Outside);
    assert_eq!(point_ring_relation(&l_shape, p(1.0, 3.0), &orient), PointPolygonRelation::Inside);
}

#[test]
fn generic_position_random_points_pass_validation() {
    let mut state = 0x9e3779b97f4a7c15u64;
    let mut next_f64_in = |scale: f64| {
        let mut x = state;
        x ^= x << 13;
        x ^= x >> 7;
        x ^= x << 17;
        state = x;
        let unit = (x >> 11) as f64 * (1.0 / (1u64 << 53) as f64);
        (unit * 2.0 - 1.0) * scale
    };
    let pts: Vec<K> = (0..60).map(|_| {
        let x = next_f64_in(100.0);
        let y = next_f64_in(100.0);
        p(x, y)
    }).collect();
    let t = dt(&pts);
    let mut hull_sites: Vec<VertexId> = Vec::new();
    for e in t.boundary_edges() {
        let (a, b) = t.edge_vertices(e);
        hull_sites.push(a);
        hull_sites.push(b);
    }
    let flags = cocircular_flags(&t, &incircle);
    let v = voronoi2(t, &flags);
    assert!(!v.vertices().is_empty());
    assert_eq!(v.validate_voronoi_topology(), Vec::new());
    let mut saw_interior_cell = false;
    for cell in v.cells() {
        let expected_unbounded = hull_sites.contains(&v.cell_site(cell));
        assert_eq!(v.cell_is_unbounded(cell), expected_unbounded);
        if !expected_unbounded {
            saw_interior_cell = true;
            assert!(v.neighboring_cells(cell).len() >= 3);
        }
    }
    assert!(saw_interior_cell);
}

#[test]
fn locate_point_finds_vertices_edges_faces_and_outside() {
    let t = dt(&[p(0.0, 0.0), p(4.0, 0.0), p(4.0, 4.0), p(0.0, 4.0), p(2.0, 2.0)]);
    let pos = positions(&t);
    match locate_point(&t, p(2.0, 2.0), &orient) {
        PointLocation::Vertex(v) => assert_eq!(pos[v.0 as usize], p(2.0, 2.0)),
        other => panic!("expected a vertex, got {other:?}"),
    }
    match locate_point(&t, p(1.0, 1.0), &orient) {
        PointLocation::Edge(e) => {
            let (u, v) = t.edge_vertices(e);
            let mut ends = [pos[u.0 as usize], pos[v.0 as usize]];
            ends.sort();
            assert_eq!(ends, [p(0.0, 0.0), p(2.0, 2.0)]);
        },
        other => panic!("expected an edge, got {other:?}"),
    }
    match locate_point(&t, p(3.0, 2.0), &orient) {
        PointLocation::Face(f) => {
            let [a, b, c] = t.face_vertices(f);
            let (a, b, c) = (pos[a.0 as usize], pos[b.0 as usize], pos[c.0 as usize]);
            let q = p(3.0, 2.0);
            let rel = point_triangle_relation(a, b, c, q, orient(a, b, c), [orient(a, b, q), orient(b, c, q), orient(c, a, q)]);
            assert_eq!(rel, PointTriangleRelation::Inside);
        },
        other => panic!("expected a face, got {other:?}"),
    }
    assert_eq!(locate_point(&t, p(5.0, 5.0), &orient), PointLocation::Outside);
    assert_eq!(locate_point(&dt(&[]), p(0.0, 0.0), &orient), PointLocation::Outside);
}

#[test]
fn topology_flags_mark_the_illegal_diagonal_and_out_of_range_faces() {
    let pts = vec![p(0.0, 0.0), p(10.0, -1.0), p(20.0, 0.0), p(10.0, 1.0)];
    let faces = vec![[VertexId(0), VertexId(1), VertexId(2)], [VertexId(0), VertexId(2), VertexId(3)]];
    let t = assemble_triangulation(pts.clone(), faces);
    let (ccw, violated) = topology_flags(&t, &orient, &incircle);
    assert_eq!(ccw, vec![true, true]);
    let inc = edge_incidences(&t);
    assert_eq!(violated.len(), inc.len());
    let flagged: Vec<usize> = (0..violated.len()).filter(|&e| violated[e]).collect();
    assert_eq!(flagged.len(), 1);
    assert_eq!(inc[flagged[0]].0, 2);
    let (u, v) = t.edge_vertices(EdgeId(flagged[0] as u32));
    let mut ends = [pts[u.0 as usize], pts[v.0 as usize]];
    ends.sort();
    let mut want = [p(0.0, 0.0), p(20.0, 0.0)];
    want.sort();
    assert_eq!(ends, want);

    let clockwise = assemble_triangulation(pts.clone(), vec![[VertexId(0), VertexId(2), VertexId(1)], [VertexId(0), VertexId(9), VertexId(3)]]);
    let (ccw, violated) = topology_flags(&clockwise, &orient, &incircle);
    assert_eq!(ccw, vec![false, false]);
    assert!(violated.iter().all(|&x| !x));
}

#[test]
fn is_bad_single_ghost_arms_agree_under_rotation() {
    let mut rng = 0x1234_5678_9abc_def0_u64;
    let mut next = || {
        rng ^= rng << 13;
        rng ^= rng >> 7;
        rng ^= rng << 17;
        (rng >> 11) as f64 * (1.0 / (1u64 << 53) as f64) * 2.0 - 1.0
    };
    for _ in 0..200 {
        let pts = vec![p(next(), next()), p(next(), next()), p(next(), next())];
        let (a, b, q) = (0usize, 1usize, 2usize);
        let by_c = is_bad(&pts, [a, b, GHOST], q, &orient, &incircle);
        let by_a = is_bad(&pts, [GHOST, a, b], q, &orient, &incircle);
        let by_b = is_bad(&pts, [b, GHOST, a], q, &orient, &incircle);
        assert_eq!(by_c, by_a, "ghost-at-c vs ghost-at-a disagree");
        assert_eq!(by_c, by_b, "ghost-at-c vs ghost-at-b disagree");
    }
}

#[test]
fn euler_face_count_follows_the_hull() {
    let square = vec![p(0.0, 0.0), p(4.0, 0.0), p(4.0, 4.0), p(0.0, 4.0)];
    assert_eq!(euler_face_count(4, &square, &orient), Some(2));
    assert_eq!(euler_face_count(5, &square, &orient), Some(4));
    let line = vec![p(0.0, 0.0), p(1.0, 1.0), p(2.0, 2.0)];
    assert_eq!(euler_face_count(3, &line, &orient), None);
    assert_eq!(euler_face_count(0, &square, &orient), None);
    assert_eq!(euler_face_count(2, &square[..2].to_vec(), &orient), None);
}

#[test]
fn polygon_triangulation_repeats_exactly() {
    let l_shape = [p(0.0, 0.0), p(4.0, 0.0), p(4.0, 2.0), p(2.0, 2.0), p(2.0, 4.0), p(0.0, 4.0)];
    let a = polygon(&l_shape).unwrap();
    let b = polygon(&l_shape).unwrap();
    assert_eq!(positions(&a), positions(&b));
    assert_eq!(triangles(&a), triangles(&b));
    let bowtie = [p(0.0, 0.0), p(2.0, 2.0), p(2.0, 0.0), p(0.0, 2.0)];
    assert_eq!(polygon(&bowtie).err(), polygon(&bowtie).err());
}

#[test]
fn constrained_build_repeats_exactly() {
    let pts = [p(0.0, 0.0), p(5.0, 1.0), p(4.0, 4.0), p(-1.0, 3.0)];
    let a = cdt(&pts, &[(1, 3)]).unwrap();
    let b = cdt(&pts, &[(1, 3)]).unwrap();
    assert_eq!(triangles(a.triangulation()), triangles(b.triangulation()));
    let marked_a: Vec<EdgeId> = a.triangulation().edges().into_iter().filter(|&e| a.is_constrained(e)).collect();
    let marked_b: Vec<EdgeId> = b.triangulation().edges().into_iter().filter(|&e| b.is_constrained(e)).collect();
    assert_eq!(marked_a, marked_b);
    assert_eq!(marked_a.len(), 1);
}
