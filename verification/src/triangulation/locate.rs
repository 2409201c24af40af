use vstd::prelude::*;

use super::topology::{lemma_well_formed_edge_bound, same_edge, vertex_positions, Triangulation2};
use crate::ids::{EdgeId, FaceId, VertexId};
use crate::kinds::{PointSegmentRelation, PointTriangleRelation};
use crate::segments::{point_segment_relation, point_triangle_relation, spec_point_segment_relation, spec_point_triangle_relation};
use crate::sign::Orientation;

verus! {

/// Where a query point falls relative to a triangulation.
#[derive(Debug, Clone, Copy, PartialEq, Eq, Hash, Structural)]
pub enum PointLocation {
    /// The point is a vertex.
    Vertex(VertexId),
    /// The point is on an edge, not at either endpoint.
    Edge(EdgeId),
    /// The point is strictly inside a face.
    Face(FaceId),
    /// No face covers the point.
    Outside,
}

/// The `i`-th side of `face`, from its corner `i` to the next corner.
pub open spec fn side(face: [VertexId; 3], i: int) -> (VertexId, VertexId) {
    (face[i], face[(i + 1) % 3])
}

/// Face `f` answered "on boundary", and its side `i` answered `rel`.
pub open spec fn boundary_side_said<P, F: Fn(FaceId) -> PointTriangleRelation, G: Fn(VertexId, VertexId) -> PointSegmentRelation>(
    t: &Triangulation2<P>,
    triangle_relation: F,
    segment_relation: G,
    f: int,
    i: int,
    rel: PointSegmentRelation,
) -> bool {
    let s = side(t.spec_faces()[f], i);
    &&& 0 <= f < t.spec_faces().len()
    &&& 0 <= i < 3
    &&& triangle_relation.ensures((FaceId(f as u32),), PointTriangleRelation::OnBoundary)
    &&& segment_relation.ensures((s.0, s.1), rel)
}

/// Side `i` of `face` does not place the point: its answer is "not on
/// the segment", or "interior" for a side that no listed edge joins.
pub open spec fn side_passed<P, G: Fn(VertexId, VertexId) -> PointSegmentRelation>(
    t: &Triangulation2<P>,
    segment_relation: G,
    face: [VertexId; 3],
    i: int,
) -> bool {
    exists|rel: PointSegmentRelation| #[trigger] side_passed_as(t, segment_relation, face, i, rel)
}

/// Side `i` of `face` answered `rel`, which does not place the point.
pub open spec fn side_passed_as<P, G: Fn(VertexId, VertexId) -> PointSegmentRelation>(
    t: &Triangulation2<P>,
    segment_relation: G,
    face: [VertexId; 3],
    i: int,
    rel: PointSegmentRelation,
) -> bool {
    let s = side(face, i);
    segment_relation.ensures((s.0, s.1), rel) && (rel == PointSegmentRelation::NotOnSegment || (rel
        == PointSegmentRelation::Interior && unlisted(t, s)))
}

/// No listed edge of `t` joins the two vertices of `s`.
pub open spec fn unlisted<P>(t: &Triangulation2<P>, s: (VertexId, VertexId)) -> bool {
    forall|e: int| 0 <= e < t.spec_edges().len() ==> !same_edge(#[trigger] t.spec_edges()[e], s)
}

/// Face `f` does not place the point: its answer is "outside", or "on
/// boundary" with every side passed over.
pub open spec fn face_passed<
    P,
    F: Fn(FaceId) -> PointTriangleRelation,
    G: Fn(VertexId, VertexId) -> PointSegmentRelation,
>(t: &Triangulation2<P>, triangle_relation: F, segment_relation: G, f: int) -> bool {
    exists|a: PointTriangleRelation|
        #[trigger] triangle_relation.ensures((FaceId(f as u32),), a) && (a == PointTriangleRelation::Outside || (a
            == PointTriangleRelation::OnBoundary && forall|i: int|
            0 <= i < 3 ==> #[trigger] side_passed(t, segment_relation, t.spec_faces()[f], i)))
}

/// Every face before `f`, and every side of face `f` before side `i`,
/// was passed over.
pub open spec fn passed_before<
    P,
    F: Fn(FaceId) -> PointTriangleRelation,
    G: Fn(VertexId, VertexId) -> PointSegmentRelation,
>(t: &Triangulation2<P>, triangle_relation: F, segment_relation: G, f: int, i: int) -> bool {
    &&& forall|g: int| 0 <= g < f ==> #[trigger] face_passed(t, triangle_relation, segment_relation, g)
    &&& forall|j: int| 0 <= j < i ==> #[trigger] side_passed(t, segment_relation, t.spec_faces()[f], j)
}

/// Face `f` gave an answer other than "inside".
pub open spec fn not_inside<F: Fn(FaceId) -> PointTriangleRelation>(triangle_relation: F, f: int) -> bool {
    exists|a: PointTriangleRelation| a != PointTriangleRelation::Inside && #[trigger] triangle_relation.ensures((FaceId(f as u32),), a)
}

impl<P> Triangulation2<P> {
    /// Locates a query point against the faces, edges and vertices, face
    /// by face. The oracles describe the point: `triangle_relation(f)` its
    /// relation to face `f`'s triangle, `segment_relation(a, b)` its
    /// relation to the segment from vertex `a` to vertex `b`, and
    /// `is_vertex(v)` whether it is vertex `v`. The first face holding the
    /// point strictly inside gives `Face`; a face with the point on its
    /// boundary gives `Vertex` at a side's endpoint, or `Edge` for the
    /// listed edge of a side holding it in its interior; otherwise
    /// `Outside`.
    pub fn locate<
        F: Fn(FaceId) -> PointTriangleRelation,
        G: Fn(VertexId, VertexId) -> PointSegmentRelation,
        H: Fn(VertexId) -> bool,
    >(&self, triangle_relation: &F, segment_relation: &G, is_vertex: &H) -> (r: PointLocation)
        requires
            forall|f: FaceId| triangle_relation.requires((f,)),
            forall|a: VertexId, b: VertexId| segment_relation.requires((a, b)),
            forall|v: VertexId| is_vertex.requires((v,)),
        ensures
            r matches PointLocation::Face(f) ==> f.0 < self.spec_faces().len() && triangle_relation.ensures(
                (f,),
                PointTriangleRelation::Inside,
            ) && passed_before(self, *triangle_relation, *segment_relation, f.0 as int, 0),
            r matches PointLocation::Edge(e) ==> e.0 < self.spec_edges().len() && exists|f: int, i: int|
                #[trigger] boundary_side_said(self, *triangle_relation, *segment_relation, f, i, PointSegmentRelation::Interior)
                    && same_edge(self.spec_edges()[e.0 as int], side(self.spec_faces()[f], i))
                    && (forall|x: int| 0 <= x < e.0 ==> !same_edge(#[trigger] self.spec_edges()[x], side(self.spec_faces()[f], i)))
                    && passed_before(self, *triangle_relation, *segment_relation, f, i),
            r matches PointLocation::Vertex(v) ==> exists|f: int, i: int|
                #[trigger] boundary_side_said(self, *triangle_relation, *segment_relation, f, i, PointSegmentRelation::Endpoint)
                    && ({
                    let s = side(self.spec_faces()[f], i);
                    (v == s.0 && is_vertex.ensures((s.0,), true)) || (v == s.1 && is_vertex.ensures((s.0,), false))
                }) && passed_before(self, *triangle_relation, *segment_relation, f, i),
            r is Outside ==> forall|f: int| 0 <= f < self.spec_faces().len() ==> #[trigger] not_inside(*triangle_relation, f),
            r is Outside ==> forall|f: int|
                0 <= f < self.spec_faces().len() ==> #[trigger] face_passed(self, *triangle_relation, *segment_relation, f),
    {
        proof {
            use_type_invariant(self);
            lemma_well_formed_edge_bound(self.spec_faces(), self.spec_edges(), self.spec_edge_faces());
        }
        let n = self.len();
        let m = self.edges().len();
        let mut f: usize = 0;
        while f < n
            invariant
                n == self.spec_faces().len(),
                3 * n <= u32::MAX,
                m == self.spec_edges().len() <= u32::MAX,
                forall|f: FaceId| triangle_relation.requires((f,)),
                forall|a: VertexId, b: VertexId| segment_relation.requires((a, b)),
                forall|v: VertexId| is_vertex.requires((v,)),
                f <= n,
                forall|g: int| 0 <= g < f ==> #[trigger] not_inside(*triangle_relation, g),
                forall|g: int| 0 <= g < f ==> #[trigger] face_passed(self, *triangle_relation, *segment_relation, g),
            decreases n - f,
        {
            let face = FaceId(f as u32);
            let rel = triangle_relation(face);
            match rel {
                PointTriangleRelation::Inside => {
                    proof {
                        assert(passed_before(self, *triangle_relation, *segment_relation, f as int, 0));
                    }
                    return PointLocation::Face(face);
                },
                PointTriangleRelation::Outside => {},
                PointTriangleRelation::OnBoundary => {
                    let tri = self.face_vertices(face);
                    let mut i: usize = 0;
                    while i < 3
                        invariant
                            n == self.spec_faces().len(),
                            m == self.spec_edges().len() <= u32::MAX,
                            f < n,
                            3 * n <= u32::MAX,
                            tri == self.spec_faces()[f as int],
                            triangle_relation.ensures((FaceId(f as u32),), PointTriangleRelation::OnBoundary),
                            forall|a: VertexId, b: VertexId| segment_relation.requires((a, b)),
                            forall|v: VertexId| is_vertex.requires((v,)),
                            i <= 3,
                            forall|g: int| 0 <= g < f ==> #[trigger] face_passed(self, *triangle_relation, *segment_relation, g),
                            forall|j: int| 0 <= j < i ==> #[trigger] side_passed(self, *segment_relation, tri, j),
                        decreases 3 - i,
                    {
                        let ua = tri[i];
                        let ub = tri[(i + 1) % 3];
                        proof {
                            assert((ua, ub) == side(tri, i as int));
                        }
                        let sr = segment_relation(ua, ub);
                        match sr {
                            PointSegmentRelation::Endpoint => {
                                let vid = if is_vertex(ua) {
                                    ua
                                } else {
                                    ub
                                };
                                proof {
                                    assert(boundary_side_said(self, *triangle_relation, *segment_relation, f as int, i as int, PointSegmentRelation::Endpoint));
                                    assert(passed_before(self, *triangle_relation, *segment_relation, f as int, i as int));
                                }
                                return PointLocation::Vertex(vid);
                            },
                            PointSegmentRelation::Interior => {
                                let mut e: usize = 0;
                                while e < m
                                    invariant
                                        m == self.spec_edges().len() <= u32::MAX,
                                        e <= m,
                                        n == self.spec_faces().len(),
                                        f < n,
                                        i < 3,
                                        3 * n <= u32::MAX,
                                        tri == self.spec_faces()[f as int],
                                        (ua, ub) == side(tri, i as int),
                                        triangle_relation.ensures((FaceId(f as u32),), PointTriangleRelation::OnBoundary),
                                        segment_relation.ensures((ua, ub), PointSegmentRelation::Interior),
                                        (*segment_relation).ensures((ua, ub), PointSegmentRelation::Interior),
                                        forall|g: int| 0 <= g < f ==> #[trigger] face_passed(self, *triangle_relation, *segment_relation, g),
                                        forall|j: int| 0 <= j < i ==> #[trigger] side_passed(self, *segment_relation, tri, j),
                                        forall|x: int| 0 <= x < e ==> !same_edge(#[trigger] self.spec_edges()[x], (ua, ub)),
                                    decreases m - e,
                                {
                                    let (x, y) = self.edge_vertices(EdgeId(e as u32));
                                    if (x == ua && y == ub) || (x == ub && y == ua) {
                                        proof {
                                            assert(boundary_side_said(self, *triangle_relation, *segment_relation, f as int, i as int, PointSegmentRelation::Interior));
                                            assert(same_edge(self.spec_edges()[e as int], side(self.spec_faces()[f as int], i as int)));
                                            assert(passed_before(self, *triangle_relation, *segment_relation, f as int, i as int));
                                        }
                                        return PointLocation::Edge(EdgeId(e as u32));
                                    }
                                    e += 1;
                                }
                                proof {
                                    let sd = side(tri, i as int);
                                    assert(sd == (ua, ub));
                                    assert(segment_relation.ensures((sd.0, sd.1), PointSegmentRelation::Interior));
                                    assert forall|x: int| 0 <= x < self.spec_edges().len() implies !same_edge(
                                        #[trigger] self.spec_edges()[x],
                                        sd,
                                    ) by {
                                        assert(x < e);
                                    }
                                    assert(unlisted(self, sd));
                                    assert((*segment_relation).ensures((sd.0, sd.1), PointSegmentRelation::Interior));
                                    assert(sd == side(self.spec_faces()[f as int], i as int));
                                    assert(side_passed_as(self, *segment_relation, tri, i as int, PointSegmentRelation::Interior));
                                    assert(side_passed(self, *segment_relation, tri, i as int));
                                }
                            },
                            PointSegmentRelation::NotOnSegment => {
                                proof {
                                    assert(side_passed_as(self, *segment_relation, tri, i as int, PointSegmentRelation::NotOnSegment));
                                    assert(side_passed(self, *segment_relation, tri, i as int));
                                }
                            },
                        }
                        i += 1;
                    }
                    proof {
                        assert(face_passed(self, *triangle_relation, *segment_relation, f as int));
                    }
                },
            }
            proof {
                assert(rel != PointTriangleRelation::Inside);
                assert(triangle_relation.ensures((FaceId(f as u32),), rel));
                assert(not_inside(*triangle_relation, f as int));
                assert(face_passed(self, *triangle_relation, *segment_relation, f as int));
            }
            f += 1;
        }
        PointLocation::Outside
    }
}

/// The orientation oracle, asked about triangle `abc` and the point `q`,
/// answered so that `q` relates to the triangle as `rel`.
pub open spec fn triangle_answer<F: Fn((i64, i64), (i64, i64), (i64, i64)) -> Orientation>(
    orient: F,
    a: (i64, i64),
    b: (i64, i64),
    c: (i64, i64),
    q: (i64, i64),
    rel: PointTriangleRelation,
) -> bool {
    exists|abc: Orientation, o0: Orientation, o1: Orientation, o2: Orientation|
        #![trigger orient.ensures((a, b, c), abc), orient.ensures((a, b, q), o0), orient.ensures((b, c, q), o1), orient.ensures((c, a, q), o2)]
        orient.ensures((a, b, c), abc) && orient.ensures((a, b, q), o0) && orient.ensures((b, c, q), o1) && orient.ensures(
            (c, a, q),
            o2,
        ) && rel == spec_point_triangle_relation(a, b, c, q, abc, [o0, o1, o2])
}

/// The orientation oracle, asked about segment `ab` and the point `q`,
/// answered so that `q` relates to the segment as `rel`.
pub open spec fn segment_answer<F: Fn((i64, i64), (i64, i64), (i64, i64)) -> Orientation>(
    orient: F,
    a: (i64, i64),
    b: (i64, i64),
    q: (i64, i64),
    rel: PointSegmentRelation,
) -> bool {
    exists|o: Orientation| #[trigger] orient.ensures((a, b, q), o) && rel == spec_point_segment_relation(a, b, q, o)
}

/// Side `i` of `face` answered `rel` to `orient` for the point `q`, which
/// does not place it.
pub open spec fn point_side_passed_as<F: Fn((i64, i64), (i64, i64), (i64, i64)) -> Orientation>(
    t: &Triangulation2<(i64, i64)>,
    orient: F,
    q: (i64, i64),
    face: [VertexId; 3],
    i: int,
    rel: PointSegmentRelation,
) -> bool {
    let s = side(face, i);
    let pos = t.spec_vertices();
    segment_answer(orient, pos[s.0.0 as int], pos[s.1.0 as int], q, rel) && (rel == PointSegmentRelation::NotOnSegment || (
    rel == PointSegmentRelation::Interior && unlisted(t, s)))
}

/// Side `i` of `face` does not place the point `q`.
pub open spec fn point_side_passed<F: Fn((i64, i64), (i64, i64), (i64, i64)) -> Orientation>(
    t: &Triangulation2<(i64, i64)>,
    orient: F,
    q: (i64, i64),
    face: [VertexId; 3],
    i: int,
) -> bool {
    exists|rel: PointSegmentRelation| #[trigger] point_side_passed_as(t, orient, q, face, i, rel)
}

/// Face `f` answered `rel` to `orient` for the point `q`, which does not
/// place it: "outside", or "on boundary" with every side passed over.
pub open spec fn point_face_passed_as<F: Fn((i64, i64), (i64, i64), (i64, i64)) -> Orientation>(
    t: &Triangulation2<(i64, i64)>,
    orient: F,
    q: (i64, i64),
    f: int,
    rel: PointTriangleRelation,
) -> bool {
    let face = t.spec_faces()[f];
    let pos = t.spec_vertices();
    triangle_answer(orient, pos[face[0].0 as int], pos[face[1].0 as int], pos[face[2].0 as int], q, rel) && (rel
        == PointTriangleRelation::Outside || (rel == PointTriangleRelation::OnBoundary && forall|i: int|
        0 <= i < 3 ==> #[trigger] point_side_passed(t, orient, q, face, i)))
}

/// Face `f` does not place the point `q`.
pub open spec fn point_face_passed<F: Fn((i64, i64), (i64, i64), (i64, i64)) -> Orientation>(
    t: &Triangulation2<(i64, i64)>,
    orient: F,
    q: (i64, i64),
    f: int,
) -> bool {
    exists|rel: PointTriangleRelation| #[trigger] point_face_passed_as(t, orient, q, f, rel)
}

/// Every vertex of face `f` names one of the `n` vertices.
pub open spec fn face_in_range<P>(t: &Triangulation2<P>, f: int, n: int) -> bool {
    let face = t.spec_faces()[f];
    face[0].0 < n && face[1].0 < n && face[2].0 < n
}

/// Locates the point `q` (by the order keys of its coordinates) in a
/// triangulation over such points, by [`Triangulation2::locate`] with the
/// relations computed from `orient`: a face when `q` is strictly inside
/// it; the vertex at `q`; the edge holding `q` in its interior;
/// otherwise outside.
pub fn locate_point<F: Fn((i64, i64), (i64, i64), (i64, i64)) -> Orientation>(
    t: &Triangulation2<(i64, i64)>,
    q: (i64, i64),
    orient: &F,
) -> (r: PointLocation)
    requires
        forall|a: (i64, i64), b: (i64, i64), c: (i64, i64)| orient.requires((a, b, c)),
    ensures
        r matches PointLocation::Face(f) ==> forall|g: int|
            0 <= g < f.0 && face_in_range(t, g, t.spec_vertices().len() as int) ==> #[trigger] point_face_passed(t, *orient, q, g),
        r is Outside ==> forall|g: int|
            0 <= g < t.spec_faces().len() && face_in_range(t, g, t.spec_vertices().len() as int) ==> #[trigger] point_face_passed(
                t,
                *orient,
                q,
                g,
            ),
        r matches PointLocation::Face(f) ==> ({
            let face = t.spec_faces()[f.0 as int];
            let pos = t.spec_vertices();
            &&& f.0 < t.spec_faces().len()
            &&& face_in_range(t, f.0 as int, pos.len() as int)
            &&& triangle_answer(
                *orient,
                pos[face[0].0 as int],
                pos[face[1].0 as int],
                pos[face[2].0 as int],
                q,
                PointTriangleRelation::Inside,
            )
        }),
        r matches PointLocation::Vertex(v) ==> v.0 < t.spec_vertices().len() && t.spec_vertices()[v.0 as int] == q,
        r matches PointLocation::Edge(e) ==> ({
            let (u, v) = t.spec_edges()[e.0 as int];
            let pos = t.spec_vertices();
            &&& e.0 < t.spec_edges().len()
            &&& u.0 < pos.len() && v.0 < pos.len()
            &&& segment_answer(*orient, pos[u.0 as int], pos[v.0 as int], q, PointSegmentRelation::Interior) || segment_answer(
                *orient,
                pos[v.0 as int],
                pos[u.0 as int],
                q,
                PointSegmentRelation::Interior,
            )
        }),
        r is Outside ==> forall|f: int|
            0 <= f < t.spec_faces().len() && face_in_range(t, f, t.spec_vertices().len() as int) ==> exists|rel: PointTriangleRelation|
                rel != PointTriangleRelation::Inside && #[trigger] triangle_answer(
                    *orient,
                    t.spec_vertices()[t.spec_faces()[f][0].0 as int],
                    t.spec_vertices()[t.spec_faces()[f][1].0 as int],
                    t.spec_vertices()[t.spec_faces()[f][2].0 as int],
                    q,
                    rel,
                ),
{
    let pos = vertex_positions(t);
    let n = pos.len();
    let nf = t.len();
    let triangle_relation = |f: FaceId| -> (rel: PointTriangleRelation)
        requires
            forall|a: (i64, i64), b: (i64, i64), c: (i64, i64)| orient.requires((a, b, c)),
            nf == t.spec_faces().len(),
            n == pos.len(),
            pos@ == t.spec_vertices(),
        ensures
            (f.0 < t.spec_faces().len() && face_in_range(t, f.0 as int, t.spec_vertices().len() as int)) ==> triangle_answer(
                *orient,
                t.spec_vertices()[t.spec_faces()[f.0 as int][0].0 as int],
                t.spec_vertices()[t.spec_faces()[f.0 as int][1].0 as int],
                t.spec_vertices()[t.spec_faces()[f.0 as int][2].0 as int],
                q,
                rel,
            ),
            !(f.0 < t.spec_faces().len() && face_in_range(t, f.0 as int, t.spec_vertices().len() as int)) ==> rel
                == PointTriangleRelation::Outside,
        {
            if (f.0 as usize) < nf {
                let face = t.face_vertices(f);
                if (face[0].0 as usize) < n && (face[1].0 as usize) < n && (face[2].0 as usize) < n {
                    let (a, b, c) = (pos[face[0].0 as usize], pos[face[1].0 as usize], pos[face[2].0 as usize]);
                    let abc = orient(a, b, c);
                    let o = [orient(a, b, q), orient(b, c, q), orient(c, a, q)];
                    let rel = point_triangle_relation(a, b, c, q, abc, o);
                    proof {
                        assert(o =~= [o[0], o[1], o[2]]);
                    }
                    return rel;
                }
            }
            PointTriangleRelation::Outside
        };
    let segment_relation = |x: VertexId, y: VertexId| -> (rel: PointSegmentRelation)
        requires
            forall|a: (i64, i64), b: (i64, i64), c: (i64, i64)| orient.requires((a, b, c)),
            n == pos.len(),
            pos@ == t.spec_vertices(),
        ensures
            (x.0 < t.spec_vertices().len() && y.0 < t.spec_vertices().len()) ==> segment_answer(
                *orient,
                t.spec_vertices()[x.0 as int],
                t.spec_vertices()[y.0 as int],
                q,
                rel,
            ),
            !(x.0 < t.spec_vertices().len() && y.0 < t.spec_vertices().len()) ==> rel == PointSegmentRelation::NotOnSegment,
        {
            if (x.0 as usize) < n && (y.0 as usize) < n {
                let (a, b) = (pos[x.0 as usize], pos[y.0 as usize]);
                let o = orient(a, b, q);
                point_segment_relation(a, b, q, o)
            } else {
                PointSegmentRelation::NotOnSegment
            }
        };
    let is_vertex = |v: VertexId| -> (r: bool)
        requires
            n == pos.len(),
            pos@ == t.spec_vertices(),
        ensures
            r == (v.0 < t.spec_vertices().len() && t.spec_vertices()[v.0 as int] == q),
        {
            if (v.0 as usize) < n {
                let x = pos[v.0 as usize];
                x.0 == q.0 && x.1 == q.1
            } else {
                false
            }
        };
    let r = t.locate(&triangle_relation, &segment_relation, &is_vertex);
    proof {
        use_type_invariant(t);
        assert forall|g: int|
            0 <= g < t.spec_faces().len() && face_in_range(t, g, t.spec_vertices().len() as int) && #[trigger] face_passed(
                t,
                triangle_relation,
                segment_relation,
                g,
            ) implies point_face_passed(t, *orient, q, g) by {
            let a = choose|a: PointTriangleRelation|
                #[trigger] triangle_relation.ensures((FaceId(g as u32),), a) && (a == PointTriangleRelation::Outside || (a
                    == PointTriangleRelation::OnBoundary && forall|i: int|
                    0 <= i < 3 ==> #[trigger] side_passed(t, segment_relation, t.spec_faces()[g], i)));
            assert((FaceId(g as u32)).0 as int == g);
            let face = t.spec_faces()[g];
            if a == PointTriangleRelation::OnBoundary {
                assert forall|i: int| 0 <= i < 3 implies #[trigger] point_side_passed(t, *orient, q, face, i) by {
                    assert(side_passed(t, segment_relation, face, i));
                    let rel = choose|rel: PointSegmentRelation| #[trigger] side_passed_as(t, segment_relation, face, i, rel);
                    assert(point_side_passed_as(t, *orient, q, face, i, rel));
                }
            }
            assert(point_face_passed_as(t, *orient, q, g, a));
        }
        if r is Outside {
            assert forall|g: int|
                0 <= g < t.spec_faces().len() && face_in_range(t, g, t.spec_vertices().len() as int) implies #[trigger] point_face_passed(
                t,
                *orient,
                q,
                g,
            ) by {
                assert(face_passed(t, triangle_relation, segment_relation, g));
            }
        }
        if let PointLocation::Face(f) = r {
            assert(passed_before(t, triangle_relation, segment_relation, f.0 as int, 0));
            assert forall|g: int|
                0 <= g < f.0 && face_in_range(t, g, t.spec_vertices().len() as int) implies #[trigger] point_face_passed(t, *orient, q, g) by {
                assert(face_passed(t, triangle_relation, segment_relation, g));
            }
        }
        if let PointLocation::Vertex(v) = r {
            let (f, i) = choose|f: int, i: int|
                #[trigger] boundary_side_said(t, triangle_relation, segment_relation, f, i, PointSegmentRelation::Endpoint) && ({
                    let s = side(t.spec_faces()[f], i);
                    (v == s.0 && is_vertex.ensures((s.0,), true)) || (v == s.1 && is_vertex.ensures((s.0,), false))
                });
            let s = side(t.spec_faces()[f], i);
            assert(segment_relation.ensures((s.0, s.1), PointSegmentRelation::Endpoint));
        }
        if let PointLocation::Edge(e) = r {
            let (f, i) = choose|f: int, i: int|
                #[trigger] boundary_side_said(t, triangle_relation, segment_relation, f, i, PointSegmentRelation::Interior)
                    && same_edge(t.spec_edges()[e.0 as int], side(t.spec_faces()[f], i));
            let s = side(t.spec_faces()[f], i);
            assert(segment_relation.ensures((s.0, s.1), PointSegmentRelation::Interior));
        }
        if r is Outside {
            assert forall|f: int|
                0 <= f < t.spec_faces().len() && face_in_range(t, f, t.spec_vertices().len() as int) implies exists|rel: PointTriangleRelation|
                rel != PointTriangleRelation::Inside && #[trigger] triangle_answer(
                    *orient,
                    t.spec_vertices()[t.spec_faces()[f][0].0 as int],
                    t.spec_vertices()[t.spec_faces()[f][1].0 as int],
                    t.spec_vertices()[t.spec_faces()[f][2].0 as int],
                    q,
                    rel,
                ) by {
                assert(not_inside(triangle_relation, f));
                let rel = choose|a: PointTriangleRelation|
                    a != PointTriangleRelation::Inside && #[trigger] triangle_relation.ensures((FaceId(f as u32),), a);
                assert((FaceId(f as u32)).0 as int == f);
            }
        }
    }
    r
}

} // verus!
