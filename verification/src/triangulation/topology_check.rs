use vstd::prelude::*;

use super::topology::{
    face_index, face_of_incidence, incidence_edge, incidences, incidences_upto, lemma_incidence_listed,
    lemma_incidences_congruent, lemma_incidences_sorted, lemma_incidences_step, lemma_listed_incidence_on_edge,
    lemma_same_edge_equivalence, lemma_well_formed_edge_bound, local_edge, local_edge_exec, same_edge, same_edge_exec,
    spec_neighbor, Triangulation2,
};
use super::cdt::ConstrainedTriangulation2;
use super::locate::face_in_range;
use super::topology::vertex_positions;
use crate::hull::orient_deterministic;
use crate::ids::{EdgeId, FaceId, VertexId};
use crate::sign::{Orientation, Sign};

verus! {

/// A structural invariant violated in a triangulation.
#[derive(Debug, Clone, Copy, PartialEq, Eq, Structural)]
pub enum TopologyError {
    /// A face is not counterclockwise (or is degenerate).
    FaceNotCcw(FaceId),
    /// An edge lies on a number of local edges of the faces other than 1
    /// or 2.
    NonManifoldEdge {
        /// The edge's smaller endpoint.
        u: VertexId,
        /// The edge's larger endpoint.
        v: VertexId,
        /// How many local edges of the faces lie on it.
        incident_faces: usize,
    },
    /// The neighbor tables are not reciprocal across this local edge.
    AdjacencyMismatch {
        /// The face on the first side.
        face: FaceId,
        /// Its local edge.
        local_edge: usize,
    },
    /// The face count differs from Euler's `2n - 2 - h`.
    EulerFormulaViolated {
        /// The number of faces.
        triangles: usize,
        /// The count Euler's formula gives.
        expected: isize,
    },
    /// An interior edge is not locally Delaunay.
    NotLocallyDelaunay {
        /// The edge's smaller endpoint.
        u: VertexId,
        /// The edge's larger endpoint.
        v: VertexId,
    },
}

/// The raw ids of `uv`'s endpoints, smaller first.
pub open spec fn spec_pair_key(uv: (VertexId, VertexId)) -> (u32, u32) {
    if uv.0.0 <= uv.1.0 {
        (uv.0.0, uv.1.0)
    } else {
        (uv.1.0, uv.0.0)
    }
}

/// How many local edges of `t`'s faces lie on edge `e`.
pub open spec fn incidence_count<P>(t: &Triangulation2<P>, e: int) -> int {
    incidences(t.spec_faces(), t.spec_edges()[e]).len() as int
}

/// Edge `e`, among the first `ne`, is named `(u, v)` smaller id first.
pub open spec fn edge_named<P>(t: &Triangulation2<P>, e: int, ne: int, u: VertexId, v: VertexId) -> bool {
    0 <= e < ne && spec_pair_key(t.spec_edges()[e]) == (u.0, v.0)
}

/// What the topology check reports, over the first `nf` faces, the first
/// `ne` edges, and the face count once `with_euler` holds: a face not
/// counterclockwise; an edge on other than one or two local edges; an
/// edge on two local edges, not excluded, flagged not locally Delaunay;
/// and a face count other than the one Euler's formula gives. Adjacency
/// is never reported: the neighbor tables are always reciprocal.
pub open spec fn topology_report_upto<P>(
    t: &Triangulation2<P>,
    face_ccw: Seq<bool>,
    delaunay_violated: Seq<bool>,
    excluded: Seq<bool>,
    euler_expected: Option<isize>,
    nf: int,
    ne: int,
    with_euler: bool,
    y: TopologyError,
) -> bool {
    match y {
        TopologyError::FaceNotCcw(f) => f.0 < nf && !face_ccw[f.0 as int],
        TopologyError::NonManifoldEdge { u, v, incident_faces } => exists|e: int|
            #[trigger] edge_named(t, e, ne, u, v) && incident_faces == incidence_count(t, e) && incidence_count(t, e) != 1
                && incidence_count(t, e) != 2,
        TopologyError::AdjacencyMismatch { .. } => false,
        TopologyError::EulerFormulaViolated { triangles, expected } => with_euler && euler_expected == Some(expected)
            && triangles == t.spec_faces().len() && triangles != expected,
        TopologyError::NotLocallyDelaunay { u, v } => exists|e: int|
            #[trigger] edge_named(t, e, ne, u, v) && incidence_count(t, e) == 2 && !excluded[e] && delaunay_violated[e],
    }
}

/// What the full topology check reports.
pub open spec fn topology_report<P>(
    t: &Triangulation2<P>,
    face_ccw: Seq<bool>,
    delaunay_violated: Seq<bool>,
    excluded: Seq<bool>,
    euler_expected: Option<isize>,
    y: TopologyError,
) -> bool {
    topology_report_upto(
        t,
        face_ccw,
        delaunay_violated,
        excluded,
        euler_expected,
        t.spec_faces().len() as int,
        t.spec_edges().len() as int,
        true,
        y,
    )
}

/// The reports on the first `f` faces: each face not counterclockwise,
/// in face order.
pub open spec fn face_reports(face_ccw: Seq<bool>, f: int) -> Seq<TopologyError>
    decreases f,
{
    if f <= 0 {
        Seq::empty()
    } else if !face_ccw[f - 1] {
        face_reports(face_ccw, f - 1).push(TopologyError::FaceNotCcw(FaceId((f - 1) as u32)))
    } else {
        face_reports(face_ccw, f - 1)
    }
}

/// The report on edge `e`, if any, named by its endpoints smaller id
/// first: on other than one or two local edges, its incidence count;
/// otherwise, on two, not excluded and flagged, not locally Delaunay.
pub open spec fn edge_report<P>(t: &Triangulation2<P>, delaunay_violated: Seq<bool>, excluded: Seq<bool>, e: int) -> Seq<
    TopologyError,
> {
    let (a, b) = spec_pair_key(t.spec_edges()[e]);
    let c = incidence_count(t, e);
    if c != 1 && c != 2 {
        seq![TopologyError::NonManifoldEdge { u: VertexId(a), v: VertexId(b), incident_faces: c as usize }]
    } else if c == 2 && !excluded[e] && delaunay_violated[e] {
        seq![TopologyError::NotLocallyDelaunay { u: VertexId(a), v: VertexId(b) }]
    } else {
        Seq::empty()
    }
}

/// The reports on the first `e` edges, in edge order.
pub open spec fn edge_reports<P>(t: &Triangulation2<P>, delaunay_violated: Seq<bool>, excluded: Seq<bool>, e: int) -> Seq<
    TopologyError,
>
    decreases e,
{
    if e <= 0 {
        Seq::empty()
    } else {
        edge_reports(t, delaunay_violated, excluded, e - 1) + edge_report(t, delaunay_violated, excluded, e - 1)
    }
}

/// The report on the face count `nf`, when Euler's count is given and
/// differs.
pub open spec fn euler_report(nf: int, euler_expected: Option<isize>) -> Seq<TopologyError> {
    match euler_expected {
        Some(x) => if nf != x {
            seq![TopologyError::EulerFormulaViolated { triangles: nf as usize, expected: x }]
        } else {
            Seq::empty()
        },
        None => Seq::empty(),
    }
}

/// Every report of the topology check, in the order it makes them:
/// faces, then edges, then the face count.
pub open spec fn topology_reports<P>(
    t: &Triangulation2<P>,
    face_ccw: Seq<bool>,
    delaunay_violated: Seq<bool>,
    excluded: Seq<bool>,
    euler_expected: Option<isize>,
) -> Seq<TopologyError> {
    face_reports(face_ccw, t.spec_faces().len() as int) + edge_reports(
        t,
        delaunay_violated,
        excluded,
        t.spec_edges().len() as int,
    ) + euler_report(t.spec_faces().len() as int, euler_expected)
}

/// How many local edges of the faces lie on `key`, and the first two of
/// them as incidence numbers (`3 * face + local edge`).
fn scan_incidences<P>(t: &Triangulation2<P>, key: (VertexId, VertexId)) -> (r: (usize, usize, usize))
    requires
        3 * t.spec_faces().len() <= u32::MAX,
    ensures
        r.0 == incidences(t.spec_faces(), key).len(),
        r.0 >= 1 ==> r.1 == incidences(t.spec_faces(), key)[0],
        r.0 >= 2 ==> r.2 == incidences(t.spec_faces(), key)[1],
{
    let ghost faces = t.spec_faces();
    let n = t.len();
    let mut count: usize = 0;
    let mut t0: usize = 0;
    let mut t1: usize = 0;
    let mut f: usize = 0;
    while f < n
        invariant
            faces == t.spec_faces(),
            n == faces.len(),
            3 * n <= u32::MAX,
            f <= n,
            count == incidences_upto(faces, key, 3 * f).len(),
            count >= 1 ==> t0 == incidences_upto(faces, key, 3 * f)[0],
            count >= 2 ==> t1 == incidences_upto(faces, key, 3 * f)[1],
        decreases n - f,
    {
        let tri = t.face_vertices(FaceId(f as u32));
        let mut k: usize = 0;
        while k < 3
            invariant
                faces == t.spec_faces(),
                n == faces.len(),
                3 * n <= u32::MAX,
                f < n,
                k <= 3,
                tri == faces[f as int],
                count == incidences_upto(faces, key, 3 * f + k).len(),
                count >= 1 ==> t0 == incidences_upto(faces, key, 3 * f + k)[0],
                count >= 2 ==> t1 == incidences_upto(faces, key, 3 * f + k)[1],
            decreases 3 - k,
        {
            let x = 3 * f + k;
            proof {
                lemma_incidences_step(faces, key, x as int);
                assert(x / 3 == f && x % 3 == k);
                assert(incidence_edge(faces, x as int) == local_edge(tri, k as int));
                lemma_incidences_sorted(faces, key, x as int);
            }
            if same_edge_exec(local_edge_exec(tri, k), key) {
                if count == 0 {
                    t0 = x;
                } else if count == 1 {
                    t1 = x;
                }
                count += 1;
            }
            k += 1;
        }
        f += 1;
    }
    (count, t0, t1)
}

/// For each edge: how many local edges of the faces lie on it, and the
/// first two of them, each as its face and local edge index (`None` past
/// the count). The faces are read directly, not through the edge table.
pub fn edge_incidences<P>(t: &Triangulation2<P>) -> (r: Vec<(usize, [Option<(FaceId, usize)>; 2])>)
    ensures
        r.len() == t.spec_edges().len(),
        forall|e: int| 0 <= e < r.len() ==> (#[trigger] r[e]).0 == incidence_count(t, e),
        forall|e: int|
            0 <= e < r.len() ==> ({
                let inc = incidences(t.spec_faces(), t.spec_edges()[e]);
                &&& (#[trigger] r[e]).1[0] == if inc.len() >= 1 {
                    Some((face_of_incidence(inc[0]), (inc[0] % 3) as usize))
                } else {
                    None
                }
                &&& r[e].1[1] == if inc.len() >= 2 {
                    Some((face_of_incidence(inc[1]), (inc[1] % 3) as usize))
                } else {
                    None
                }
            }),
{
    proof {
        use_type_invariant(t);
        lemma_well_formed_edge_bound(t.spec_faces(), t.spec_edges(), t.spec_edge_faces());
    }
    let m = t.edges().len();
    let mut r: Vec<(usize, [Option<(FaceId, usize)>; 2])> = Vec::new();
    let mut e: usize = 0;
    while e < m
        invariant
            3 * t.spec_faces().len() <= u32::MAX,
            m == t.spec_edges().len() <= u32::MAX,
            e <= m,
            r.len() == e,
            forall|x: int| 0 <= x < r.len() ==> (#[trigger] r[x]).0 == incidence_count(t, x),
            forall|x: int|
                0 <= x < r.len() ==> ({
                    let inc = incidences(t.spec_faces(), t.spec_edges()[x]);
                    &&& (#[trigger] r[x]).1[0] == if inc.len() >= 1 {
                        Some((face_of_incidence(inc[0]), (inc[0] % 3) as usize))
                    } else {
                        None
                    }
                    &&& r[x].1[1] == if inc.len() >= 2 {
                        Some((face_of_incidence(inc[1]), (inc[1] % 3) as usize))
                    } else {
                        None
                    }
                }),
        decreases m - e,
    {
        let key = t.edge_vertices(EdgeId(e as u32));
        let (count, t0, t1) = scan_incidences(t, key);
        proof {
            lemma_incidences_sorted(t.spec_faces(), key, 3 * t.spec_faces().len() as int);
        }
        let first = if count >= 1 {
            Some((FaceId((t0 / 3) as u32), t0 % 3))
        } else {
            None
        };
        let second = if count >= 2 {
            Some((FaceId((t1 / 3) as u32), t1 % 3))
        } else {
            None
        };
        r.push((count, [first, second]));
        e += 1;
    }
    r
}

/// Across an edge on exactly two local edges, each face's neighbor
/// through its local edge is the other face.
proof fn lemma_two_incidences_reciprocal<P>(t: &Triangulation2<P>, key: (VertexId, VertexId))
    requires
        t.well_formed(),
        incidences(t.spec_faces(), key).len() == 2,
    ensures
        ({
            let inc = incidences(t.spec_faces(), key);
            &&& 0 <= inc[0] < inc[1] < 3 * t.spec_faces().len()
            &&& t.spec_face_neighbors()[inc[0] / 3][inc[0] % 3] == Some(face_of_incidence(inc[1]))
            &&& t.spec_face_neighbors()[inc[1] / 3][inc[1] % 3] == Some(face_of_incidence(inc[0]))
        }),
{
    let faces = t.spec_faces();
    let n3 = 3 * faces.len() as int;
    let inc = incidences(faces, key);
    lemma_incidences_sorted(faces, key, n3);
    assert(inc[0] < inc[1]);
    lemma_listed_incidence_on_edge(faces, key, n3, 0);
    lemma_listed_incidence_on_edge(faces, key, n3, 1);
    let x0 = inc[0];
    let x1 = inc[1];
    assert(x0 == 3 * (x0 / 3) + x0 % 3);
    assert(x1 == 3 * (x1 / 3) + x1 % 3);
    assert(t.spec_face_neighbors()[x0 / 3][x0 % 3] == spec_neighbor(faces, 3 * (x0 / 3) + x0 % 3));
    assert(t.spec_face_neighbors()[x1 / 3][x1 % 3] == spec_neighbor(faces, 3 * (x1 / 3) + x1 % 3));
    lemma_same_edge_equivalence(incidence_edge(faces, x0), key, key);
    lemma_same_edge_equivalence(incidence_edge(faces, x1), key, key);
    lemma_incidences_congruent(faces, incidence_edge(faces, x0), key, n3);
    lemma_incidences_congruent(faces, incidence_edge(faces, x1), key, n3);
}

/// Appending a value not yet present keeps a sequence free of
/// duplicates.
proof fn lemma_push_distinct<T>(s: Seq<T>, x: T)
    requires
        s.no_duplicates(),
        !s.contains(x),
    ensures
        s.push(x).no_duplicates(),
{
    let t = s.push(x);
    assert forall|i: int, j: int| 0 <= i < t.len() && 0 <= j < t.len() && i != j implies t[i] != t[j] by {
        if j == s.len() as int {
            assert(s.contains(t[i]) || i == j);
        } else if i == s.len() as int {
            assert(s.contains(t[j]));
        }
    }
}

impl<P> Triangulation2<P> {
    /// Checks every structural invariant: each face counterclockwise
    /// (`face_ccw[f]`), each edge on one or two local edges of the faces,
    /// the neighbor tables reciprocal, each interior edge that is not
    /// `excluded` locally Delaunay (`delaunay_violated[e]` says one face's
    /// circumcircle strictly holds the other's opposite vertex), and the
    /// face count equal to `euler_expected` (Euler's `2n - 2 - h`, given
    /// when the vertices are not all collinear). Reports every violation,
    /// faces first, then edges in order, then the face count.
    pub fn validate_topology_excluding(
        &self,
        face_ccw: &Vec<bool>,
        delaunay_violated: &Vec<bool>,
        excluded: &Vec<bool>,
        euler_expected: Option<isize>,
    ) -> (r: Vec<TopologyError>)
        requires
            face_ccw.len() == self.spec_faces().len(),
            delaunay_violated.len() == self.spec_edges().len(),
            excluded.len() == self.spec_edges().len(),
        ensures
            forall|y: TopologyError| r@.contains(y) <==> topology_report(self, face_ccw@, delaunay_violated@, excluded@, euler_expected, y),
            r@.no_duplicates(),
            r@ == topology_reports(self, face_ccw@, delaunay_violated@, excluded@, euler_expected),
    {
        proof {
            use_type_invariant(self);
            lemma_well_formed_edge_bound(self.spec_faces(), self.spec_edges(), self.spec_edge_faces());
        }
        let n = self.len();
        let m = self.edges().len();
        let mut r: Vec<TopologyError> = Vec::new();
        let mut f: usize = 0;
        while f < n
            invariant
                n == self.spec_faces().len(),
                3 * n <= u32::MAX,
                face_ccw.len() == n,
                f <= n,
                forall|y: TopologyError| r@.contains(y) <==> topology_report_upto(self, face_ccw@, delaunay_violated@, excluded@, euler_expected, f as int, 0, false, y),
                r@.no_duplicates(),
                r@ == face_reports(face_ccw@, f as int),
            decreases n - f,
        {
            let ghost r0 = r@;
            proof {
                assert(!r0.contains(TopologyError::FaceNotCcw(FaceId(f as u32))));
            }
            if !face_ccw[f] {
                r.push(TopologyError::FaceNotCcw(FaceId(f as u32)));
            }
            proof {
                assert forall|y: TopologyError| r@.contains(y) <==> topology_report_upto(self, face_ccw@, delaunay_violated@, excluded@, euler_expected, f + 1, 0, false, y) by {
                    if !face_ccw[f as int] {
                        vstd::seq_lib::lemma_seq_contains_after_push(r0, TopologyError::FaceNotCcw(FaceId(f as u32)), y);
                    }
                }
            }
            f += 1;
        }
        let mut e: usize = 0;
        while e < m
            invariant
                self.well_formed(),
                n == self.spec_faces().len(),
                3 * n <= u32::MAX,
                m == self.spec_edges().len() <= u32::MAX,
                face_ccw.len() == n,
                delaunay_violated.len() == m,
                excluded.len() == m,
                e <= m,
                forall|y: TopologyError| r@.contains(y) <==> topology_report_upto(self, face_ccw@, delaunay_violated@, excluded@, euler_expected, n as int, e as int, false, y),
                r@.no_duplicates(),
                r@ == face_reports(face_ccw@, n as int) + edge_reports(self, delaunay_violated@, excluded@, e as int),
            decreases m - e,
        {
            let key = self.edge_vertices(EdgeId(e as u32));
            let (count, t0, t1) = scan_incidences(self, key);
            let (u, v) = if key.0.0 <= key.1.0 {
                (key.0, key.1)
            } else {
                (key.1, key.0)
            };
            let ghost r0 = r@;
            let ghost pushed: Option<TopologyError> = None;
            proof {
                let ei = e as int;
                assert(spec_pair_key(self.spec_edges()[ei]) == (u.0, v.0));
                assert forall|c: usize| !r0.contains(TopologyError::NonManifoldEdge { u, v, incident_faces: c }) by {
                    let y = TopologyError::NonManifoldEdge { u, v, incident_faces: c };
                    if r0.contains(y) {
                        let e2 = choose|e2: int|
                            #[trigger] edge_named(self, e2, e as int, u, v) && c == incidence_count(self, e2) && incidence_count(
                                self,
                                e2,
                            ) != 1 && incidence_count(self, e2) != 2;
                        assert(same_edge(self.spec_edges()[e2], self.spec_edges()[ei]));
                    }
                }
                if r0.contains(TopologyError::NotLocallyDelaunay { u, v }) {
                    let e2 = choose|e2: int|
                        #[trigger] edge_named(self, e2, e as int, u, v) && incidence_count(self, e2) == 2 && !excluded@[e2]
                            && delaunay_violated@[e2];
                    assert(same_edge(self.spec_edges()[e2], self.spec_edges()[ei]));
                }
            }
            if count != 1 && count != 2 {
                r.push(TopologyError::NonManifoldEdge { u, v, incident_faces: count });
                proof {
                    pushed = Some(TopologyError::NonManifoldEdge { u, v, incident_faces: count });
                }
            } else if count == 2 {
                proof {
                    lemma_two_incidences_reciprocal(self, key);
                }
                let fa = FaceId((t0 / 3) as u32);
                let ka = t0 % 3;
                let fb = FaceId((t1 / 3) as u32);
                let kb = t1 % 3;
                let na = self.neighboring_faces(fa);
                let nb = self.neighboring_faces(fb);
                let claims_a = match na[ka] {
                    Some(g) => g == fb,
                    None => false,
                };
                let claims_b = match nb[kb] {
                    Some(g) => g == fa,
                    None => false,
                };
                proof {
                    assert(claims_a && claims_b);
                }
                if !claims_a || !claims_b {
                    r.push(TopologyError::AdjacencyMismatch { face: fa, local_edge: ka });
                }
                if !excluded[e] && delaunay_violated[e] {
                    r.push(TopologyError::NotLocallyDelaunay { u, v });
                    proof {
                        pushed = Some(TopologyError::NotLocallyDelaunay { u, v });
                    }
                }
            }
            proof {
                let ei = e as int;
                assert(spec_pair_key(self.spec_edges()[ei]) == (u.0, v.0));
                assert(count as int == incidence_count(self, ei));
                if pushed is None {
                    assert(r@ =~= r0);
                    assert(edge_report(self, delaunay_violated@, excluded@, ei) =~= Seq::<TopologyError>::empty());
                } else {
                    assert(r@ =~= r0.push(pushed->0));
                    lemma_push_distinct(r0, pushed->0);
                    assert(edge_report(self, delaunay_violated@, excluded@, ei) =~= seq![pushed->0]);
                }
                assert(r@ =~= face_reports(face_ccw@, n as int) + edge_reports(self, delaunay_violated@, excluded@, e + 1));
                assert forall|y: TopologyError| r@.contains(y) <==> topology_report_upto(self, face_ccw@, delaunay_violated@, excluded@, euler_expected, n as int, e + 1, false, y) by {
                    if pushed is Some {
                        vstd::seq_lib::lemma_seq_contains_after_push(r0, pushed->0, y);
                    }
                    match y {
                        TopologyError::NonManifoldEdge { u: u2, v: v2, incident_faces } => {
                            if topology_report_upto(self, face_ccw@, delaunay_violated@, excluded@, euler_expected, n as int, e + 1, false, y) {
                                let e2 = choose|e2: int|
                                    #[trigger] edge_named(self, e2, e + 1, u2, v2) && incident_faces == incidence_count(self, e2)
                                        && incidence_count(self, e2) != 1 && incidence_count(self, e2) != 2;
                                if e2 < e {
                                    assert(edge_named(self, e2, e as int, u2, v2));
                                } else {
                                    assert(u2 == u && v2 == v);
                                }
                            }
                            if topology_report_upto(self, face_ccw@, delaunay_violated@, excluded@, euler_expected, n as int, e as int, false, y) {
                                let e2 = choose|e2: int|
                                    #[trigger] edge_named(self, e2, e as int, u2, v2) && incident_faces == incidence_count(self, e2)
                                        && incidence_count(self, e2) != 1 && incidence_count(self, e2) != 2;
                                assert(edge_named(self, e2, e + 1, u2, v2));
                            }
                            if y == (TopologyError::NonManifoldEdge { u, v, incident_faces: count }) {
                                assert(edge_named(self, ei, e + 1, u2, v2));
                            }
                        },
                        TopologyError::NotLocallyDelaunay { u: u2, v: v2 } => {
                            if topology_report_upto(self, face_ccw@, delaunay_violated@, excluded@, euler_expected, n as int, e + 1, false, y) {
                                let e2 = choose|e2: int|
                                    #[trigger] edge_named(self, e2, e + 1, u2, v2) && incidence_count(self, e2) == 2 && !excluded@[e2]
                                        && delaunay_violated@[e2];
                                if e2 < e {
                                    assert(edge_named(self, e2, e as int, u2, v2));
                                } else {
                                    assert(u2 == u && v2 == v);
                                }
                            }
                            if topology_report_upto(self, face_ccw@, delaunay_violated@, excluded@, euler_expected, n as int, e as int, false, y) {
                                let e2 = choose|e2: int|
                                    #[trigger] edge_named(self, e2, e as int, u2, v2) && incidence_count(self, e2) == 2 && !excluded@[e2]
                                        && delaunay_violated@[e2];
                                assert(edge_named(self, e2, e + 1, u2, v2));
                            }
                            if y == (TopologyError::NotLocallyDelaunay { u, v }) {
                                assert(edge_named(self, ei, e + 1, u2, v2));
                            }
                        },
                        _ => {},
                    }
                }
            }
            e += 1;
        }
        let ghost r0 = r@;
        proof {
            assert forall|x: usize, y: isize| !r0.contains(TopologyError::EulerFormulaViolated { triangles: x, expected: y }) by {
                if r0.contains(TopologyError::EulerFormulaViolated { triangles: x, expected: y }) {
                    assert(topology_report_upto(self, face_ccw@, delaunay_violated@, excluded@, euler_expected, n as int, m as int, false, TopologyError::EulerFormulaViolated { triangles: x, expected: y }));
                }
            }
        }
        if let Some(expected) = euler_expected {
            if n as isize != expected {
                r.push(TopologyError::EulerFormulaViolated { triangles: n, expected });
            }
        }
        proof {
            assert forall|y: TopologyError| r@.contains(y) <==> topology_report(self, face_ccw@, delaunay_violated@, excluded@, euler_expected, y) by {
                if r@.len() > r0.len() {
                    vstd::seq_lib::lemma_seq_contains_after_push(r0, r@[r0.len() as int], y);
                    assert(r@ =~= r0.push(r@[r0.len() as int]));
                } else {
                    assert(r@ =~= r0);
                }
            }
            if r@.len() > r0.len() {
                assert(r@ =~= r0.push(r@[r0.len() as int]));
                lemma_push_distinct(r0, r@[r0.len() as int]);
            } else {
                assert(r@ =~= r0);
            }
            assert(r@ =~= r0 + euler_report(n as int, euler_expected));
        }
        r
    }

    /// [`Triangulation2::validate_topology_excluding`] with no edge
    /// excluded from the local Delaunay check.
    pub fn validate_topology(&self, face_ccw: &Vec<bool>, delaunay_violated: &Vec<bool>, euler_expected: Option<isize>) -> (r: Vec<TopologyError>)
        requires
            face_ccw.len() == self.spec_faces().len(),
            delaunay_violated.len() == self.spec_edges().len(),
        ensures
            forall|y: TopologyError|
                r@.contains(y) <==> topology_report(
                    self,
                    face_ccw@,
                    delaunay_violated@,
                    Seq::new(self.spec_edges().len(), |e: int| false),
                    euler_expected,
                    y,
                ),
            r@.no_duplicates(),
            r@ == topology_reports(self, face_ccw@, delaunay_violated@, Seq::new(self.spec_edges().len(), |e: int| false), euler_expected),
    {
        let excluded = vec![false; delaunay_violated.len()];
        let r = self.validate_topology_excluding(face_ccw, delaunay_violated, &excluded, euler_expected);
        proof {
            assert(excluded@ =~= Seq::new(self.spec_edges().len(), |e: int| false));
        }
        r
    }
}

/// Checks a constrained triangulation's topology as
/// [`Triangulation2::validate_topology_excluding`] does, leaving its
/// constrained edges out of the local Delaunay check.
pub fn validate_cdt_topology<P>(
    cdt: &ConstrainedTriangulation2<P>,
    face_ccw: &Vec<bool>,
    delaunay_violated: &Vec<bool>,
    euler_expected: Option<isize>,
) -> (r: Vec<TopologyError>)
    requires
        face_ccw.len() == cdt.spec_triangulation().spec_faces().len(),
        delaunay_violated.len() == cdt.spec_triangulation().spec_edges().len(),
    ensures
        forall|y: TopologyError|
            r@.contains(y) <==> topology_report(
                cdt.spec_triangulation(),
                face_ccw@,
                delaunay_violated@,
                Seq::new(
                    cdt.spec_triangulation().spec_edges().len(),
                    |e: int| cdt.spec_constrained().contains(EdgeId(e as u32)),
                ),
                euler_expected,
                y,
            ),
        r@.no_duplicates(),
        r@ == topology_reports(
            cdt.spec_triangulation(),
            face_ccw@,
            delaunay_violated@,
            Seq::new(cdt.spec_triangulation().spec_edges().len(), |e: int| cdt.spec_constrained().contains(EdgeId(e as u32))),
            euler_expected,
        ),
{
    let t = cdt.triangulation();
    proof {
        use_type_invariant(t);
        lemma_well_formed_edge_bound(t.spec_faces(), t.spec_edges(), t.spec_edge_faces());
    }
    let m = t.edges().len();
    let mut excluded: Vec<bool> = Vec::new();
    let mut e: usize = 0;
    while e < m
        invariant
            m == t.spec_edges().len() <= u32::MAX,
            t == cdt.spec_triangulation(),
            e <= m,
            excluded@ == Seq::new(e as nat, |x: int| cdt.spec_constrained().contains(EdgeId(x as u32))),
        decreases m - e,
    {
        let c = cdt.is_constrained(EdgeId(e as u32));
        excluded.push(c);
        proof {
            assert(excluded@ =~= Seq::new((e + 1) as nat, |x: int| cdt.spec_constrained().contains(EdgeId(x as u32))));
        }
        e += 1;
    }
    t.validate_topology_excluding(face_ccw, delaunay_violated, &excluded, euler_expected)
}

/// The orientation oracle, asked about the first two points of `hull`
/// and each of its points, answered collinear every time exactly when
/// `flat` holds.
pub open spec fn flat_answer<F: Fn((i64, i64), (i64, i64), (i64, i64)) -> Orientation>(
    orient: F,
    hull: Seq<(i64, i64)>,
    flat: bool,
) -> bool {
    exists|os: Seq<Orientation>|
        os.len() == hull.len() && (forall|k: int| 0 <= k < hull.len() ==> #[trigger] orient.ensures((hull[0], hull[1], hull[k]), os[k]))
            && flat == (forall|k: int| 0 <= k < os.len() ==> #[trigger] os[k] == Orientation::Collinear)
}

/// The face count Euler's formula gives a triangulation of `n` vertices
/// whose hull, with every boundary point kept, is `hull`: `2n - 2 - h`
/// for `h` hull points; none when there is no vertex or the hull is
/// flat (fewer than three points, or every point answered collinear with
/// the first two).
pub fn euler_face_count<F: Fn((i64, i64), (i64, i64), (i64, i64)) -> Orientation>(
    n: usize,
    hull: &Vec<(i64, i64)>,
    orient: &F,
) -> (r: Option<isize>)
    requires
        forall|a: (i64, i64), b: (i64, i64), c: (i64, i64)| orient.requires((a, b, c)),
        2 * n + 2 <= isize::MAX,
        hull.len() <= isize::MAX,
    ensures
        n == 0 || hull.len() < 3 ==> r is None,
        n > 0 && hull.len() >= 3 ==> exists|flat: bool|
            #[trigger] flat_answer(*orient, hull@, flat) && r == if flat {
                None
            } else {
                Some((2 * n - 2 - hull.len()) as isize)
            },
{
    if n == 0 || hull.len() < 3 {
        return None;
    }
    let ghost mut os: Seq<Orientation> = Seq::empty();
    let mut flat = true;
    let mut k: usize = 0;
    while k < hull.len()
        invariant
            forall|a: (i64, i64), b: (i64, i64), c: (i64, i64)| orient.requires((a, b, c)),
            hull.len() >= 3,
            k <= hull.len(),
            os.len() == k,
            forall|x: int| 0 <= x < k ==> #[trigger] orient.ensures((hull@[0], hull@[1], hull@[x]), os[x]),
            flat == (forall|x: int| 0 <= x < os.len() ==> #[trigger] os[x] == Orientation::Collinear),
        decreases hull.len() - k,
    {
        let o = orient(hull[0], hull[1], hull[k]);
        let ghost old = os;
        proof {
            os = os.push(o);
            assert forall|x: int| 0 <= x < old.len() implies os[x] == old[x] by {}
        }
        if o != Orientation::Collinear {
            flat = false;
        }
        proof {
            if flat {
                assert forall|x: int| 0 <= x < os.len() implies #[trigger] os[x] == Orientation::Collinear by {
                    if x < old.len() {
                        assert(old[x] == Orientation::Collinear);
                    }
                }
            } else if o == Orientation::Collinear {
                let x = choose|x: int| 0 <= x < old.len() && !(#[trigger] old[x] == Orientation::Collinear);
                assert(os[x] == old[x]);
            } else {
                assert(os[k as int] == o);
            }
        }
        k += 1;
    }
    proof {
        assert(flat_answer(*orient, hull@, flat));
    }
    if flat {
        None
    } else {
        Some(2 * (n as isize) - 2 - hull.len() as isize)
    }
}

/// The position of vertex `k` of face `f`.
pub open spec fn corner(t: &Triangulation2<(i64, i64)>, f: int, k: int) -> (i64, i64) {
    t.spec_vertices()[t.spec_faces()[f][k].0 as int]
}

/// Edge `e` lies on exactly two local edges, both faces in range with all
/// their vertices in range; the local edge indices are `inc % 3`.
pub open spec fn pair_in_range(t: &Triangulation2<(i64, i64)>, e: int) -> bool {
    let inc = incidences(t.spec_faces(), t.spec_edges()[e]);
    &&& inc.len() == 2
    &&& inc[0] / 3 < t.spec_faces().len() && inc[1] / 3 < t.spec_faces().len()
    &&& face_in_range(t, inc[0] / 3, t.spec_vertices().len() as int)
    &&& face_in_range(t, inc[1] / 3, t.spec_vertices().len() as int)
}

/// `flag` is face `f`'s counterclockwise flag: set only for a face whose
/// vertices are in range, and then exactly when `orient` answers
/// counterclockwise for its corners in order.
pub open spec fn face_flag<F: Fn((i64, i64), (i64, i64), (i64, i64)) -> Orientation>(
    t: &Triangulation2<(i64, i64)>,
    orient: &F,
    f: int,
    flag: bool,
) -> bool {
    &&& flag ==> face_in_range(t, f, t.spec_vertices().len() as int)
    &&& face_in_range(t, f, t.spec_vertices().len() as int) ==> exists|o: Orientation|
        #[trigger] orient.ensures((corner(t, f, 0), corner(t, f, 1), corner(t, f, 2)), o) && flag == (o
            == Orientation::CounterClockwise)
}

/// With the counterclockwise flags [`topology_flags`] computes and one
/// orientation answer per triple, the topology check reports face `f` as
/// not counterclockwise exactly when the oracle does not answer
/// counterclockwise for its corners in order: a flat (collinear) face
/// and a clockwise one are reported, a counterclockwise one is not; a
/// face with a vertex out of range is always reported.
pub proof fn lemma_face_reported_unless_ccw<F: Fn((i64, i64), (i64, i64), (i64, i64)) -> Orientation>(
    t: &Triangulation2<(i64, i64)>,
    orient: &F,
    flags: Seq<bool>,
    delaunay_violated: Seq<bool>,
    excluded: Seq<bool>,
    euler_expected: Option<isize>,
    f: int,
)
    requires
        orient_deterministic(*orient),
        3 * t.spec_faces().len() <= u32::MAX,
        0 <= f < t.spec_faces().len(),
        flags.len() == t.spec_faces().len(),
        forall|g: int| 0 <= g < flags.len() ==> face_flag(t, orient, g, #[trigger] flags[g]),
    ensures
        !face_in_range(t, f, t.spec_vertices().len() as int) ==> topology_report(
            t,
            flags,
            delaunay_violated,
            excluded,
            euler_expected,
            TopologyError::FaceNotCcw(FaceId(f as u32)),
        ),
        forall|o: Orientation|
            face_in_range(t, f, t.spec_vertices().len() as int) && #[trigger] orient.ensures((corner(t, f, 0), corner(t, f, 1), corner(t, f, 2)), o)
                ==> (topology_report(t, flags, delaunay_violated, excluded, euler_expected, TopologyError::FaceNotCcw(FaceId(f as u32)))
                <==> o != Orientation::CounterClockwise),
{
    assert(face_flag(t, orient, f, flags[f]));
    assert((f as u32) as int == f);
    assert forall|o: Orientation|
        face_in_range(t, f, t.spec_vertices().len() as int) && #[trigger] orient.ensures((corner(t, f, 0), corner(t, f, 1), corner(t, f, 2)), o)
            implies (topology_report(t, flags, delaunay_violated, excluded, euler_expected, TopologyError::FaceNotCcw(FaceId(f as u32)))
            <==> o != Orientation::CounterClockwise) by {
        let o2 = choose|o2: Orientation|
            #[trigger] orient.ensures((corner(t, f, 0), corner(t, f, 1), corner(t, f, 2)), o2) && flags[f] == (o2
                == Orientation::CounterClockwise);
        assert(o2 == o);
    }
}

/// `flag` is edge `e`'s violation flag: set only for an edge of
/// [`pair_in_range`], and then exactly when `incircle` puts the vertex
/// opposite the edge in either face strictly inside the other face's
/// circle.
pub open spec fn edge_flag<G: Fn((i64, i64), (i64, i64), (i64, i64), (i64, i64)) -> Sign>(
    t: &Triangulation2<(i64, i64)>,
    incircle: &G,
    e: int,
    flag: bool,
) -> bool {
    let inc = incidences(t.spec_faces(), t.spec_edges()[e]);
    let (fa, ka, fb, kb) = (inc[0] / 3, inc[0] % 3, inc[1] / 3, inc[1] % 3);
    &&& flag ==> pair_in_range(t, e)
    &&& pair_in_range(t, e) ==> exists|s1: Sign, s2: Sign|
        #![trigger incircle.ensures((corner(t, fa, 0), corner(t, fa, 1), corner(t, fa, 2), corner(t, fb, kb)), s1), incircle.ensures((corner(t, fb, 0), corner(t, fb, 1), corner(t, fb, 2), corner(t, fa, ka)), s2)]
        incircle.ensures((corner(t, fa, 0), corner(t, fa, 1), corner(t, fa, 2), corner(t, fb, kb)), s1)
            && incircle.ensures((corner(t, fb, 0), corner(t, fb, 1), corner(t, fb, 2), corner(t, fa, ka)), s2)
            && flag == (s1 == Sign::Positive || s2 == Sign::Positive)
}

/// Each face's counterclockwise flag and each edge's local-Delaunay
/// violation flag, as [`Triangulation2::validate_topology`] takes them,
/// asked of `orient` and `incircle` on the vertex positions.
pub fn topology_flags<
    F: Fn((i64, i64), (i64, i64), (i64, i64)) -> Orientation,
    G: Fn((i64, i64), (i64, i64), (i64, i64), (i64, i64)) -> Sign,
>(t: &Triangulation2<(i64, i64)>, orient: &F, incircle: &G) -> (r: (Vec<bool>, Vec<bool>))
    requires
        forall|a: (i64, i64), b: (i64, i64), c: (i64, i64)| orient.requires((a, b, c)),
        forall|a: (i64, i64), b: (i64, i64), c: (i64, i64), d: (i64, i64)| incircle.requires((a, b, c, d)),
    ensures
        r.0.len() == t.spec_faces().len(),
        r.1.len() == t.spec_edges().len(),
        forall|f: int| 0 <= f < r.0.len() ==> face_flag(t, orient, f, #[trigger] r.0[f]),
        forall|e: int| 0 <= e < r.1.len() ==> edge_flag(t, incircle, e, #[trigger] r.1[e]),
{
    proof {
        use_type_invariant(t);
    }
    let pos = vertex_positions(t);
    let nv = pos.len();
    let nf = t.len();
    let mut ccw: Vec<bool> = Vec::new();
    let mut f: usize = 0;
    while f < nf
        invariant
            nf == t.spec_faces().len(),
            3 * nf <= u32::MAX,
            nv == pos.len(),
            pos@ == t.spec_vertices(),
            f <= nf,
            ccw.len() == f,
            forall|a: (i64, i64), b: (i64, i64), c: (i64, i64)| orient.requires((a, b, c)),
            forall|g: int| 0 <= g < f ==> face_flag(t, orient, g, #[trigger] ccw[g]),
        decreases nf - f,
    {
        let face = t.face_vertices(FaceId(f as u32));
        let flag = if (face[0].0 as usize) < nv && (face[1].0 as usize) < nv && (face[2].0 as usize) < nv {
            let o = orient(pos[face[0].0 as usize], pos[face[1].0 as usize], pos[face[2].0 as usize]);
            proof {
                assert(orient.ensures((corner(t, f as int, 0), corner(t, f as int, 1), corner(t, f as int, 2)), o));
            }
            o == Orientation::CounterClockwise
        } else {
            false
        };
        ccw.push(flag);
        proof {
            assert(face_flag(t, orient, f as int, ccw[f as int]));
        }
        f += 1;
    }
    let inc = edge_incidences(t);
    let ne = inc.len();
    let mut violated: Vec<bool> = Vec::new();
    let mut e: usize = 0;
    while e < ne
        invariant
            ne == inc.len() == t.spec_edges().len(),
            nf == t.spec_faces().len(),
            3 * nf <= u32::MAX,
            nv == pos.len(),
            pos@ == t.spec_vertices(),
            e <= ne,
            violated.len() == e,
            forall|x: int| 0 <= x < inc.len() ==> (#[trigger] inc[x]).0 == incidence_count(t, x),
            forall|x: int|
                0 <= x < inc.len() ==> ({
                    let i = incidences(t.spec_faces(), t.spec_edges()[x]);
                    &&& (#[trigger] inc[x]).1[0] == if i.len() >= 1 {
                        Some((face_of_incidence(i[0]), (i[0] % 3) as usize))
                    } else {
                        None
                    }
                    &&& inc[x].1[1] == if i.len() >= 2 {
                        Some((face_of_incidence(i[1]), (i[1] % 3) as usize))
                    } else {
                        None
                    }
                }),
            forall|a: (i64, i64), b: (i64, i64), c: (i64, i64), d: (i64, i64)| incircle.requires((a, b, c, d)),
            forall|x: int| 0 <= x < e ==> edge_flag(t, incircle, x, #[trigger] violated[x]),
        decreases ne - e,
    {
        let ghost i = incidences(t.spec_faces(), t.spec_edges()[e as int]);
        proof {
            lemma_incidences_sorted(t.spec_faces(), t.spec_edges()[e as int], 3 * nf as int);
        }
        let (count, sides) = inc[e];
        let mut flag = false;
        if count == 2 {
            assert(0 <= i[0] < 3 * nf && 0 <= i[1] < 3 * nf);
            if let (Some((fa, ka)), Some((fb, kb))) = (sides[0], sides[1]) {
                assert(fa.0 == i[0] / 3 && fb.0 == i[1] / 3);
                if (fa.0 as usize) < nf && (fb.0 as usize) < nf && ka < 3 && kb < 3 {
                    let ta = t.face_vertices(fa);
                    let tb = t.face_vertices(fb);
                    if (ta[0].0 as usize) < nv && (ta[1].0 as usize) < nv && (ta[2].0 as usize) < nv && (tb[0].0 as usize) < nv
                        && (tb[1].0 as usize) < nv && (tb[2].0 as usize) < nv {
                        let s1 = incircle(pos[ta[0].0 as usize], pos[ta[1].0 as usize], pos[ta[2].0 as usize], pos[tb[kb].0 as usize]);
                        let s2 = incircle(pos[tb[0].0 as usize], pos[tb[1].0 as usize], pos[tb[2].0 as usize], pos[ta[ka].0 as usize]);
                        flag = s1 == Sign::Positive || s2 == Sign::Positive;
                        proof {
                            let (gfa, gka, gfb, gkb) = (i[0] / 3, i[0] % 3, i[1] / 3, i[1] % 3);
                            assert(incircle.ensures((corner(t, gfa, 0), corner(t, gfa, 1), corner(t, gfa, 2), corner(t, gfb, gkb)), s1));
                            assert(incircle.ensures((corner(t, gfb, 0), corner(t, gfb, 1), corner(t, gfb, 2), corner(t, gfa, gka)), s2));
                        }
                    }
                }
            }
        }
        violated.push(flag);
        proof {
            assert(edge_flag(t, incircle, e as int, violated[e as int]));
        }
        e += 1;
    }
    (ccw, violated)
}

} // verus!
