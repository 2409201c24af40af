use vstd::prelude::*;

use super::cdt::{CdtError, ConstrainedTriangulation2};
use super::cdt_build::{cdt_outcome, constrained_delaunay2, segment_kind, segment_kind_answer};
use super::polygon::{
    hole_alone_passes, hole_outer_passes, hole_pair_passes, interior_seed_face, keep_interior, keep_result, lemma_seed_result_within,
    ring_edges, seed_result, side_answers_of, validate_holes, PolygonTriangulationError,
};
use super::topology::Triangulation2;
use crate::geometry::{
    basic_validity, edges_share_vertex, find_ring_intersection, first_self_intersection, lemma_adjacent_iff_share_vertex, pair_before,
    pair_clear, ring_adjacent,
};
use crate::hull::{dedup_sorted, lemma_sorted_dedup_unique, sorted_dedup_of};
use crate::ids::{FaceId, VertexId};
use crate::kinds::{PolygonBasicValidity, PolygonSelfIntersection, SegmentIntersectionKind};
use crate::segments::{point_ring_relation, ring_edge, spec_point_ring_relation, PointPolygonRelation};
use crate::sign::{Orientation, Sign};

verus! {

/// Some vertex of the ring equals the next one, wrapping around.
pub open spec fn consecutive_duplicate(ring: Seq<(i64, i64)>) -> bool {
    exists|i: int| 0 <= i < ring.len() && #[trigger] ring[i] == ring[(i + 1) % ring.len() as int]
}

/// A ring's cheap structural validity, given its winding (the exact sign
/// of its signed area): too few vertices below three; a consecutive
/// duplicate; zero area when the winding is collinear; valid otherwise.
pub open spec fn spec_ring_validity(ring: Seq<(i64, i64)>, winding: Orientation) -> PolygonBasicValidity {
    if ring.len() < 3 {
        PolygonBasicValidity::TooFewVertices
    } else if consecutive_duplicate(ring) {
        PolygonBasicValidity::ConsecutiveDuplicateVertices
    } else if winding == Orientation::Collinear {
        PolygonBasicValidity::ZeroArea
    } else {
        PolygonBasicValidity::Valid
    }
}

/// The cheap structural validity of `ring`, whose winding is `winding`.
pub fn ring_validity(ring: &Vec<(i64, i64)>, winding: Orientation) -> (r: PolygonBasicValidity)
    ensures
        r == spec_ring_validity(ring@, winding),
{
    let n = ring.len();
    let equal_to_next = |i: usize| -> (r: bool)
        requires
            i < n,
            n == ring@.len(),
        ensures
            r == (ring@[i as int] == ring@[(i + 1) % n as int]),
        {
            let j = (i + 1) % n;
            ring[i].0 == ring[j].0 && ring[i].1 == ring[j].1
        };
    let area_sign = || -> (r: Orientation)
        ensures
            r == winding,
        { winding };
    let r = basic_validity(n, &equal_to_next, &area_sign);
    proof {
        if r is ConsecutiveDuplicateVertices {
            let i = choose|i: int| 0 <= i < n && #[trigger] equal_to_next.ensures((i as usize,), true);
            assert(ring@[i] == ring@[(i + 1) % n as int]);
        }
        if r is ZeroArea || r is Valid {
            assert forall|i: int| 0 <= i < n implies #[trigger] ring@[i] != ring@[(i + 1) % n as int] by {
                assert(equal_to_next.ensures((i as usize,), false));
            }
        }
    }
    r
}

/// The orientation oracle classified edge `i` of ring `a` against edge
/// `j` of ring `b` as meeting as `k`.
pub open spec fn ring_pair_answer<F: Fn((i64, i64), (i64, i64), (i64, i64)) -> Orientation>(
    orient: F,
    a: Seq<(i64, i64)>,
    b: Seq<(i64, i64)>,
    i: int,
    j: int,
    k: SegmentIntersectionKind,
) -> bool {
    segment_kind_answer(orient, ring_edge(a, i).0, ring_edge(a, i).1, ring_edge(b, j).0, ring_edge(b, j).1, k)
}

fn ring_pair_kind<F: Fn((i64, i64), (i64, i64), (i64, i64)) -> Orientation>(
    a: &Vec<(i64, i64)>,
    b: &Vec<(i64, i64)>,
    i: usize,
    j: usize,
    orient: &F,
) -> (k: SegmentIntersectionKind)
    requires
        i < a.len(),
        j < b.len(),
        forall|x: (i64, i64), y: (i64, i64), z: (i64, i64)| orient.requires((x, y, z)),
    ensures
        ring_pair_answer(*orient, a@, b@, i as int, j as int, k),
{
    let na = a.len();
    let nb = b.len();
    segment_kind(a[i], a[(i + 1) % na], b[j], b[(j + 1) % nb], orient)
}

/// `r` is the first self-intersection of `ring` by the orientation
/// oracle's answers: the first pair of non-adjacent edges, in
/// lexicographic order, classified as meeting, with how; `None` when
/// every non-adjacent pair is classified disjoint.
pub open spec fn self_intersection_answer<F: Fn((i64, i64), (i64, i64), (i64, i64)) -> Orientation>(
    orient: F,
    ring: Seq<(i64, i64)>,
    r: Option<PolygonSelfIntersection>,
) -> bool {
    let n = ring.len() as int;
    &&& r matches Some(x) ==> {
        &&& x.edge_a < x.edge_b < n
        &&& !ring_adjacent(n, x.edge_a as int, x.edge_b as int)
        &&& x.kind != SegmentIntersectionKind::Disjoint
        &&& ring_pair_answer(orient, ring, ring, x.edge_a as int, x.edge_b as int, x.kind)
        &&& forall|i: int, j: int|
            0 <= i < j < n && !ring_adjacent(n, i, j) && pair_before(i, j, x.edge_a as int, x.edge_b as int)
                ==> #[trigger] ring_pair_answer(orient, ring, ring, i, j, SegmentIntersectionKind::Disjoint)
    }
    &&& r is None ==> forall|i: int, j: int|
        0 <= i < j < n && !ring_adjacent(n, i, j) ==> #[trigger] ring_pair_answer(
            orient,
            ring,
            ring,
            i,
            j,
            SegmentIntersectionKind::Disjoint,
        )
}

/// A ring reported free of self-intersections has every pair of edges
/// that share no vertex answered disjoint, and a reported one names two
/// edges that share no vertex, every such pair before it answered
/// disjoint; in particular a crossing involving the last edge is found.
pub proof fn lemma_self_intersection_pairs<F: Fn((i64, i64), (i64, i64), (i64, i64)) -> Orientation>(
    orient: F,
    ring: Seq<(i64, i64)>,
    r: Option<PolygonSelfIntersection>,
)
    requires
        self_intersection_answer(orient, ring, r),
    ensures
        r is None ==> forall|i: int, j: int|
            0 <= i < j < ring.len() && !edges_share_vertex(ring.len() as int, i, j) ==> #[trigger] ring_pair_answer(
                orient,
                ring,
                ring,
                i,
                j,
                SegmentIntersectionKind::Disjoint,
            ),
        r matches Some(x) ==> !edges_share_vertex(ring.len() as int, x.edge_a as int, x.edge_b as int) && forall|i: int, j: int|
            0 <= i < j < ring.len() && !edges_share_vertex(ring.len() as int, i, j) && pair_before(
                i,
                j,
                x.edge_a as int,
                x.edge_b as int,
            ) ==> #[trigger] ring_pair_answer(orient, ring, ring, i, j, SegmentIntersectionKind::Disjoint),
{
    let n = ring.len() as int;
    assert forall|i: int, j: int| 0 <= i < j < n implies #[trigger] ring_adjacent(n, i, j) == edges_share_vertex(n, i, j) by {
        lemma_adjacent_iff_share_vertex(n, i, j);
    }
    if let Some(x) = r {
        lemma_adjacent_iff_share_vertex(n, x.edge_a as int, x.edge_b as int);
    }
}

/// The first self-intersection of `ring`; see [`self_intersection_answer`].
pub fn ring_self_intersection<F: Fn((i64, i64), (i64, i64), (i64, i64)) -> Orientation>(ring: &Vec<(i64, i64)>, orient: &F) -> (r:
    Option<PolygonSelfIntersection>)
    requires
        forall|x: (i64, i64), y: (i64, i64), z: (i64, i64)| orient.requires((x, y, z)),
    ensures
        self_intersection_answer(*orient, ring@, r),
{
    let n = ring.len();
    let kind = |i: usize, j: usize| -> (k: SegmentIntersectionKind)
        requires
            i < n,
            j < n,
            n == ring@.len(),
            forall|x: (i64, i64), y: (i64, i64), z: (i64, i64)| orient.requires((x, y, z)),
        ensures
            ring_pair_answer(*orient, ring@, ring@, i as int, j as int, k),
        { ring_pair_kind(ring, ring, i, j, orient) };
    let r = first_self_intersection(n, &kind);
    proof {
        if r is None {
            assert forall|i: int, j: int| 0 <= i < j < n && !ring_adjacent(n as int, i, j) implies #[trigger] ring_pair_answer(
                *orient,
                ring@,
                ring@,
                i,
                j,
                SegmentIntersectionKind::Disjoint,
            ) by {
                assert(pair_clear(kind, i, j));
            }
        }
        if let Some(x) = r {
            assert forall|i: int, j: int|
                0 <= i < j < n && !ring_adjacent(n as int, i, j) && pair_before(i, j, x.edge_a as int, x.edge_b as int) implies #[trigger] ring_pair_answer(
                *orient,
                ring@,
                ring@,
                i,
                j,
                SegmentIntersectionKind::Disjoint,
            ) by {
                assert(pair_clear(kind, i, j));
            }
        }
    }
    r
}

/// `r` is the first meeting of an edge of ring `a` with an edge of ring
/// `b` by the orientation oracle's answers, pairs tried in row-major
/// order; `None` when every pair is classified disjoint.
pub open spec fn ring_crossing_answer<F: Fn((i64, i64), (i64, i64), (i64, i64)) -> Orientation>(
    orient: F,
    a: Seq<(i64, i64)>,
    b: Seq<(i64, i64)>,
    r: Option<SegmentIntersectionKind>,
) -> bool {
    &&& r matches Some(k) ==> k != SegmentIntersectionKind::Disjoint && exists|i: int, j: int|
        0 <= i < a.len() && 0 <= j < b.len() && #[trigger] ring_pair_answer(orient, a, b, i, j, k) && forall|p: int, q: int|
            0 <= p < a.len() && 0 <= q < b.len() && pair_before(p, q, i, j) ==> #[trigger] ring_pair_answer(
                orient,
                a,
                b,
                p,
                q,
                SegmentIntersectionKind::Disjoint,
            )
    &&& r is None ==> forall|i: int, j: int|
        0 <= i < a.len() && 0 <= j < b.len() ==> #[trigger] ring_pair_answer(orient, a, b, i, j, SegmentIntersectionKind::Disjoint)
}

/// The first meeting of the edges of rings `a` and `b`; see
/// [`ring_crossing_answer`].
pub fn rings_crossing<F: Fn((i64, i64), (i64, i64), (i64, i64)) -> Orientation>(
    a: &Vec<(i64, i64)>,
    b: &Vec<(i64, i64)>,
    orient: &F,
) -> (r: Option<SegmentIntersectionKind>)
    requires
        forall|x: (i64, i64), y: (i64, i64), z: (i64, i64)| orient.requires((x, y, z)),
    ensures
        ring_crossing_answer(*orient, a@, b@, r),
{
    let na = a.len();
    let nb = b.len();
    let kind = |i: usize, j: usize| -> (k: SegmentIntersectionKind)
        requires
            i < na,
            j < nb,
            na == a@.len(),
            nb == b@.len(),
            forall|x: (i64, i64), y: (i64, i64), z: (i64, i64)| orient.requires((x, y, z)),
        ensures
            ring_pair_answer(*orient, a@, b@, i as int, j as int, k),
        { ring_pair_kind(a, b, i, j, orient) };
    let r = find_ring_intersection(na, nb, &kind);
    proof {
        if r is None {
            assert forall|i: int, j: int| 0 <= i < na && 0 <= j < nb implies #[trigger] ring_pair_answer(
                *orient,
                a@,
                b@,
                i,
                j,
                SegmentIntersectionKind::Disjoint,
            ) by {
                assert(pair_clear(kind, i, j));
            }
        }
        if let Some(k) = r {
            let (i, j) = choose|i: int, j: int|
                0 <= i < na && 0 <= j < nb && #[trigger] kind.ensures((i as usize, j as usize), k) && forall|p: int, q: int|
                    0 <= p < na && 0 <= q < nb && pair_before(p, q, i, j) ==> #[trigger] pair_clear(kind, p, q);
            assert(ring_pair_answer(*orient, a@, b@, i, j, k));
            assert forall|p: int, q: int| 0 <= p < na && 0 <= q < nb && pair_before(p, q, i, j) implies #[trigger] ring_pair_answer(
                *orient,
                a@,
                b@,
                p,
                q,
                SegmentIntersectionKind::Disjoint,
            ) by {
                assert(pair_clear(kind, p, q));
            }
        }
    }
    r
}

/// The orientation oracle placed `p` strictly inside ring `container`
/// (`inside`), or not, by [`point_ring_relation`].
pub open spec fn inside_answer<F: Fn((i64, i64), (i64, i64), (i64, i64)) -> Orientation>(
    orient: F,
    container: Seq<(i64, i64)>,
    p: (i64, i64),
    inside: bool,
) -> bool {
    exists|o: Seq<Orientation>|
        o.len() == container.len() && (forall|j: int|
            0 <= j < container.len() ==> #[trigger] orient.ensures((ring_edge(container, j).0, ring_edge(container, j).1, p), o[j]))
            && inside == (spec_point_ring_relation(container, p, o) == PointPolygonRelation::Inside)
}

/// Ring `container` holds ring `inner` (`r`), judged by `inner`'s first
/// vertex, which suffices when the two rings share no point; an empty
/// `inner` is held by nothing.
pub open spec fn contains_answer<F: Fn((i64, i64), (i64, i64), (i64, i64)) -> Orientation>(
    orient: F,
    container: Seq<(i64, i64)>,
    inner: Seq<(i64, i64)>,
    r: bool,
) -> bool {
    if inner.len() == 0 {
        !r
    } else {
        inside_answer(orient, container, inner[0], r)
    }
}

/// Whether `container` holds `inner`; see [`contains_answer`].
pub fn ring_contains_ring<F: Fn((i64, i64), (i64, i64), (i64, i64)) -> Orientation>(
    container: &Vec<(i64, i64)>,
    inner: &Vec<(i64, i64)>,
    orient: &F,
) -> (r: bool)
    requires
        forall|x: (i64, i64), y: (i64, i64), z: (i64, i64)| orient.requires((x, y, z)),
    ensures
        contains_answer(*orient, container@, inner@, r),
{
    if inner.len() == 0 {
        return false;
    }
    point_ring_relation(container, inner[0], orient) == PointPolygonRelation::Inside
}

/// The first position of `p` in `pts`, or `None` when `p` is not there.
fn find_position(pts: &Vec<(i64, i64)>, p: (i64, i64)) -> (r: Option<usize>)
    ensures
        r matches Some(i) ==> i < pts.len() && pts@[i as int] == p && forall|j: int| 0 <= j < i ==> pts@[j] != p,
        r is None <==> !pts@.contains(p),
{
    let mut i: usize = 0;
    while i < pts.len()
        invariant
            i <= pts.len(),
            forall|j: int| 0 <= j < i ==> pts@[j] != p,
        decreases pts.len() - i,
    {
        if pts[i].0 == p.0 && pts[i].1 == p.1 {
            return Some(i);
        }
        i += 1;
    }
    None
}

/// The interior-side answers over the points `d` for the boundary edge
/// from `p0` to `p1` of a ring of winding `winding`: a vertex is on the
/// interior side when `orient` turns `p0`, `p1`, it the ring's way; never
/// for a collinear winding or a vertex out of range.
pub open spec fn interior_side_answers<F: Fn((i64, i64), (i64, i64), (i64, i64)) -> Orientation>(
    d: Seq<(i64, i64)>,
    p0: (i64, i64),
    p1: (i64, i64),
    winding: Orientation,
    orient: F,
) -> spec_fn(VertexId, bool) -> bool {
    |x: VertexId, b: bool|
        if x.0 < d.len() {
            exists|o: Orientation|
                #[trigger] orient.ensures((p0, p1, d[x.0 as int]), o) && b == match winding {
                    Orientation::CounterClockwise => o == Orientation::CounterClockwise,
                    Orientation::Clockwise => o == Orientation::Clockwise,
                    Orientation::Collinear => false,
                }
        } else {
            !b
        }
}

/// What [`keep_polygon_interior`] gives for `cdt`: a failed insertion when
/// it has no vertex or lacks `p0` or `p1`; otherwise, with `u`, `v` the
/// vertices at `p0`, `p1`, the faces reachable from the interior seed of
/// the edge from `u` to `v` (by the interior-side answers) without
/// crossing a constrained edge, when there are exactly `expected` of
/// them, and a failed insertion when there is no seed or another count.
pub open spec fn keep_outcome<F: Fn((i64, i64), (i64, i64), (i64, i64)) -> Orientation>(
    cdt: ConstrainedTriangulation2<(i64, i64)>,
    p0: (i64, i64),
    p1: (i64, i64),
    winding: Orientation,
    orient: F,
    expected: int,
    r: Result<Triangulation2<(i64, i64)>, PolygonTriangulationError>,
) -> bool {
    let t = cdt.spec_triangulation();
    let d = t.spec_vertices();
    if d.len() == 0 || !d.contains(p0) || !d.contains(p1) {
        r == Err::<Triangulation2<(i64, i64)>, PolygonTriangulationError>(PolygonTriangulationError::ConstraintInsertionFailed)
    } else {
        exists|u: int, v: int, seed: Option<FaceId>|
            #![trigger seed_result(t, VertexId(u as u32), VertexId(v as u32), interior_side_answers(d, p0, p1, winding, orient), seed)]
            0 <= u < d.len() && d[u] == p0 && 0 <= v < d.len() && d[v] == p1 && seed_result(
                t,
                VertexId(u as u32),
                VertexId(v as u32),
                interior_side_answers(d, p0, p1, winding, orient),
                seed,
            ) && match seed {
                None => r == Err::<Triangulation2<(i64, i64)>, PolygonTriangulationError>(
                    PolygonTriangulationError::ConstraintInsertionFailed,
                ),
                Some(f) => keep_result(cdt, f, expected, r),
            }
    }
}

/// What triangulating the rings with vertices `points` and edges
/// `constraints` gives past the checks: the constrained Delaunay outcome
/// over them, a failed insertion when it fails, and otherwise the faces
/// kept inside the outer ring, entered along its edge from `points[0]` to
/// `points[1]`, when there are `expected` of them.
pub open spec fn polygon_outcome<
    F: Fn((i64, i64), (i64, i64), (i64, i64)) -> Orientation,
    G: Fn((i64, i64), (i64, i64), (i64, i64), (i64, i64)) -> Sign,
>(
    points: Seq<(i64, i64)>,
    constraints: Seq<(usize, usize)>,
    winding: Orientation,
    orient: F,
    incircle: G,
    expected: int,
    r: Result<Triangulation2<(i64, i64)>, PolygonTriangulationError>,
) -> bool {
    exists|rc: Result<ConstrainedTriangulation2<(i64, i64)>, CdtError>|
        #[trigger] cdt_outcome(points, constraints, orient, incircle, rc) && (rc is Err ==> r == Err::<
            Triangulation2<(i64, i64)>,
            PolygonTriangulationError,
        >(PolygonTriangulationError::ConstraintInsertionFailed)) && (rc matches Ok(c) ==> keep_outcome(
            c,
            points[0],
            points[1],
            winding,
            orient,
            expected,
            r,
        ))
}

/// Keeps the faces of `cdt` (built over `points`) on the interior side of
/// the boundary edge from `p0` to `p1` for a ring of winding `winding`:
/// the seed face is the face at that edge whose third vertex lies on the
/// interior side, and the faces reachable from it without crossing a
/// constrained edge are kept, when there are exactly `expected` of them.
fn keep_polygon_interior<F: Fn((i64, i64), (i64, i64), (i64, i64)) -> Orientation>(
    cdt: ConstrainedTriangulation2<(i64, i64)>,
    points: &Vec<(i64, i64)>,
    p0: (i64, i64),
    p1: (i64, i64),
    winding: Orientation,
    orient: &F,
    expected: usize,
) -> (r: Result<Triangulation2<(i64, i64)>, PolygonTriangulationError>)
    requires
        points.len() <= u32::MAX,
        cdt.spec_triangulation().spec_vertices().len() == 0 || sorted_dedup_of(cdt.spec_triangulation().spec_vertices(), points@),
        forall|x: (i64, i64), y: (i64, i64), z: (i64, i64)| orient.requires((x, y, z)),
    ensures
        r matches Ok(t) ==> t.spec_faces().len() == expected && sorted_dedup_of(t.spec_vertices(), points@),
        r is Err ==> r == Err::<Triangulation2<(i64, i64)>, PolygonTriangulationError>(
            PolygonTriangulationError::ConstraintInsertionFailed,
        ),
        keep_outcome(cdt, p0, p1, winding, *orient, expected as int, r),
{
    let ghost gc = cdt;
    let pts = dedup_sorted(points);
    let nv = cdt.triangulation().vertex_count();
    proof {
        if nv > 0 {
            lemma_sorted_dedup_unique(cdt.spec_triangulation().spec_vertices(), pts@, points@);
        }
    }
    if nv != pts.len() || nv == 0 {
        return Err(PolygonTriangulationError::ConstraintInsertionFailed);
    }
    proof {
        lemma_sorted_dedup_unique(cdt.spec_triangulation().spec_vertices(), pts@, points@);
    }
    let u = match find_position(&pts, p0) {
        Some(i) => i,
        None => {
            return Err(PolygonTriangulationError::ConstraintInsertionFailed);
        },
    };
    let v = match find_position(&pts, p1) {
        Some(i) => i,
        None => {
            return Err(PolygonTriangulationError::ConstraintInsertionFailed);
        },
    };
    let n = pts.len();
    let interior_side = |x: VertexId| -> (r: bool)
        requires
            forall|a: (i64, i64), b: (i64, i64), c: (i64, i64)| orient.requires((a, b, c)),
        ensures
            interior_side_answers(pts@, p0, p1, winding, *orient)(x, r),
        {
            if (x.0 as usize) < n && n == pts.len() {
                let side = orient(p0, p1, pts[x.0 as usize]);
                match winding {
                    Orientation::CounterClockwise => side == Orientation::CounterClockwise,
                    Orientation::Clockwise => side == Orientation::Clockwise,
                    Orientation::Collinear => false,
                }
            } else {
                false
            }
        };
    let seed = interior_seed_face(cdt.triangulation(), VertexId(u as u32), VertexId(v as u32), &interior_side);
    proof {
        let d = gc.spec_triangulation().spec_vertices();
        assert(d == pts@);
        assert forall|x: VertexId, b: bool| #[trigger] side_answers_of(interior_side)(x, b) implies interior_side_answers(
            d,
            p0,
            p1,
            winding,
            *orient,
        )(x, b) by {
            assert(interior_side.ensures((x,), b));
        }
        lemma_seed_result_within(
            gc.spec_triangulation(),
            VertexId(u as u32),
            VertexId(v as u32),
            side_answers_of(interior_side),
            interior_side_answers(d, p0, p1, winding, *orient),
            seed,
        );
        assert(d[u as int] == p0 && d[v as int] == p1);
    }
    match seed {
        Some(f) => keep_interior(cdt, f, expected),
        None => Err(PolygonTriangulationError::ConstraintInsertionFailed),
    }
}

/// What [`triangulate_polygon`] gives for the ring `ring` of winding
/// `winding`: each cheap structural failure as its own error; past them,
/// the first self-intersection by the orientation answers, if any; past
/// that, the polygon outcome over the ring's vertices and edges; and on
/// success a valid, non-self-intersecting ring, `n - 2` faces over its
/// sorted distinct vertices.
pub open spec fn polygon_contract<
    F: Fn((i64, i64), (i64, i64), (i64, i64)) -> Orientation,
    G: Fn((i64, i64), (i64, i64), (i64, i64), (i64, i64)) -> Sign,
>(
    ring: Seq<(i64, i64)>,
    winding: Orientation,
    orient: F,
    incircle: G,
    r: Result<Triangulation2<(i64, i64)>, PolygonTriangulationError>,
) -> bool {
    &&& spec_ring_validity(ring, winding) is TooFewVertices ==> r == Err::<Triangulation2<(i64, i64)>, PolygonTriangulationError>(
        PolygonTriangulationError::TooFewVertices,
    )
    &&& spec_ring_validity(ring, winding) is ConsecutiveDuplicateVertices ==> r == Err::<
        Triangulation2<(i64, i64)>,
        PolygonTriangulationError,
    >(PolygonTriangulationError::DegenerateEdge)
    &&& spec_ring_validity(ring, winding) is ZeroArea ==> r == Err::<Triangulation2<(i64, i64)>, PolygonTriangulationError>(
        PolygonTriangulationError::ZeroArea,
    )
    &&& spec_ring_validity(ring, winding) is Valid ==> exists|x: Option<PolygonSelfIntersection>|
        #[trigger] self_intersection_answer(orient, ring, x) && (x matches Some(f) ==> r == Err::<
            Triangulation2<(i64, i64)>,
            PolygonTriangulationError,
        >(PolygonTriangulationError::SelfIntersecting(f))) && (x is None ==> r is Ok || r == Err::<
            Triangulation2<(i64, i64)>,
            PolygonTriangulationError,
        >(PolygonTriangulationError::ConstraintInsertionFailed)) && (x is None ==> polygon_outcome(
            ring,
            ring_edge_seq(0, ring.len() as int),
            winding,
            orient,
            incircle,
            ring.len() - 2,
            r,
        ))
    &&& r matches Ok(t) ==> spec_ring_validity(ring, winding) is Valid && self_intersection_answer(orient, ring, None)
        && t.spec_faces().len() + 2 == ring.len() && sorted_dedup_of(t.spec_vertices(), ring)
}

/// Triangulates a simple polygon, given as its ring of vertices with
/// winding `winding` (the exact sign of its signed area), without new
/// points: the ring must pass the cheap structural checks (too few
/// vertices, a consecutive duplicate, zero area, each its own error) and
/// have no self-intersection by the orientation answers; its edges are
/// then the constraints of a constrained Delaunay triangulation of its
/// vertices, from which the faces inside the ring are kept. Any failure
/// past the checks, including a face count other than `n - 2`, is
/// [`PolygonTriangulationError::ConstraintInsertionFailed`].
pub fn triangulate_polygon<
    F: Fn((i64, i64), (i64, i64), (i64, i64)) -> Orientation,
    G: Fn((i64, i64), (i64, i64), (i64, i64), (i64, i64)) -> Sign,
>(ring: &Vec<(i64, i64)>, winding: Orientation, orient: &F, incircle: &G) -> (r: Result<
    Triangulation2<(i64, i64)>,
    PolygonTriangulationError,
>)
    requires
        ring.len() <= u32::MAX,
        forall|a: (i64, i64), b: (i64, i64), c: (i64, i64)| orient.requires((a, b, c)),
        forall|a: (i64, i64), b: (i64, i64), c: (i64, i64), d: (i64, i64)| incircle.requires((a, b, c, d)),
    ensures
        polygon_contract(ring@, winding, *orient, *incircle, r),
{
    match ring_validity(ring, winding) {
        PolygonBasicValidity::TooFewVertices => {
            return Err(PolygonTriangulationError::TooFewVertices);
        },
        PolygonBasicValidity::ConsecutiveDuplicateVertices => {
            return Err(PolygonTriangulationError::DegenerateEdge);
        },
        PolygonBasicValidity::ZeroArea => {
            return Err(PolygonTriangulationError::ZeroArea);
        },
        PolygonBasicValidity::Valid => {},
    }
    let found = ring_self_intersection(ring, orient);
    if let Some(f) = found {
        return Err(PolygonTriangulationError::SelfIntersecting(f));
    }
    let n = ring.len();
    let constraints = ring_edges(0, n);
    proof {
        assert(constraints@ =~= ring_edge_seq(0, n as int));
    }
    let rc = constrained_delaunay2(ring, &constraints, orient, incircle);
    let cdt = match rc {
        Ok(c) => c,
        Err(_) => {
            proof {
                assert(cdt_outcome(ring@, constraints@, *orient, *incircle, rc));
            }
            return Err(PolygonTriangulationError::ConstraintInsertionFailed);
        },
    };
    let r = keep_polygon_interior(cdt, ring, ring[0], ring[1], winding, orient, n - 2);
    proof {
        assert(cdt_outcome(ring@, constraints@, *orient, *incircle, rc));
    }
    r
}

/// The outer ring's vertices followed by those of the first `k` holes.
pub open spec fn joined(outer: Seq<(i64, i64)>, holes: Seq<Vec<(i64, i64)>>, k: int) -> Seq<(i64, i64)>
    decreases k,
{
    if k <= 0 {
        outer
    } else {
        joined(outer, holes, k - 1) + holes[k - 1]@
    }
}

/// The outer ring passed its own checks: valid, and no self-intersection
/// by the orientation answers.
pub open spec fn outer_ok<F: Fn((i64, i64), (i64, i64), (i64, i64)) -> Orientation>(
    orient: F,
    outer: Seq<(i64, i64)>,
    winding: Orientation,
) -> bool {
    spec_ring_validity(outer, winding) is Valid && self_intersection_answer(orient, outer, None)
}

/// Every hole passed its checks: each is valid, has no self-intersection,
/// does not meet the outer ring and lies inside it; no two holes meet,
/// and neither of two holes holds the other.
pub open spec fn holes_ok<F: Fn((i64, i64), (i64, i64), (i64, i64)) -> Orientation>(
    orient: F,
    outer: Seq<(i64, i64)>,
    holes: Seq<Vec<(i64, i64)>>,
    windings: Seq<Orientation>,
) -> bool {
    &&& forall|i: int| 0 <= i < holes.len() ==> #[trigger] spec_ring_validity(holes[i]@, windings[i]) is Valid
    &&& forall|i: int| 0 <= i < holes.len() ==> #[trigger] self_intersection_answer(orient, holes[i]@, None)
    &&& forall|i: int| 0 <= i < holes.len() ==> #[trigger] ring_crossing_answer(orient, outer, holes[i]@, None)
    &&& forall|i: int| 0 <= i < holes.len() ==> #[trigger] contains_answer(orient, outer, holes[i]@, true)
    &&& forall|i: int, j: int| 0 <= i < j < holes.len() ==> #[trigger] ring_crossing_answer(orient, holes[i]@, holes[j]@, None)
    &&& forall|i: int, j: int|
        0 <= i < j < holes.len() ==> #[trigger] contains_answer(orient, holes[j]@, holes[i]@, false) && contains_answer(
            orient,
            holes[i]@,
            holes[j]@,
            false,
        )
}

/// Hole `i` passes its own checks: valid, and no self-intersection by
/// the orientation answers.
pub open spec fn hole_alone_ok<F: Fn((i64, i64), (i64, i64), (i64, i64)) -> Orientation>(
    orient: F,
    holes: Seq<Vec<(i64, i64)>>,
    windings: Seq<Orientation>,
    i: int,
) -> bool {
    spec_ring_validity(holes[i]@, windings[i]) is Valid && self_intersection_answer(orient, holes[i]@, None)
}

/// Hole `i` passes its checks against the outer ring: they do not meet,
/// and the outer ring holds it.
pub open spec fn hole_outer_ok<F: Fn((i64, i64), (i64, i64), (i64, i64)) -> Orientation>(
    orient: F,
    outer: Seq<(i64, i64)>,
    holes: Seq<Vec<(i64, i64)>>,
    i: int,
) -> bool {
    ring_crossing_answer(orient, outer, holes[i]@, None) && contains_answer(orient, outer, holes[i]@, true)
}

/// Holes `a` and `b` pass their pair checks: they do not meet, and
/// neither holds the other.
pub open spec fn hole_pair_ok<F: Fn((i64, i64), (i64, i64), (i64, i64)) -> Orientation>(
    orient: F,
    holes: Seq<Vec<(i64, i64)>>,
    a: int,
    b: int,
) -> bool {
    &&& ring_crossing_answer(orient, holes[a]@, holes[b]@, None)
    &&& contains_answer(orient, holes[b]@, holes[a]@, false)
    &&& contains_answer(orient, holes[a]@, holes[b]@, false)
}

/// Every pair of holes checked before the pair `(i, j)` passes: those
/// whose first hole comes before `i`, and those of `i` with a hole
/// before `j`.
pub open spec fn hole_pairs_ok_before<F: Fn((i64, i64), (i64, i64), (i64, i64)) -> Orientation>(
    orient: F,
    holes: Seq<Vec<(i64, i64)>>,
    i: int,
    j: int,
) -> bool {
    &&& forall|a: int, b: int| 0 <= a < i && a < b < holes.len() ==> #[trigger] hole_pair_ok(orient, holes, a, b)
    &&& forall|b: int| i < b < j ==> #[trigger] hole_pair_ok(orient, holes, i, b)
}

/// Every hole passes its own checks, and every one passes those against
/// the outer ring.
pub open spec fn all_alone_and_outer_ok<F: Fn((i64, i64), (i64, i64), (i64, i64)) -> Orientation>(
    orient: F,
    outer: Seq<(i64, i64)>,
    holes: Seq<Vec<(i64, i64)>>,
    windings: Seq<Orientation>,
) -> bool {
    &&& forall|x: int| 0 <= x < holes.len() ==> #[trigger] hole_alone_ok(orient, holes, windings, x)
    &&& forall|x: int| 0 <= x < holes.len() ==> #[trigger] hole_outer_ok(orient, outer, holes, x)
}

/// What checking the holes gives, per [`validate_holes`] over the rings'
/// own checks: each hole alone first, then each against the outer ring,
/// then each pair in order; the error names the first check that fails,
/// every check before it having passed.
pub open spec fn holes_outcome<F: Fn((i64, i64), (i64, i64), (i64, i64)) -> Orientation>(
    orient: F,
    outer: Seq<(i64, i64)>,
    holes: Seq<Vec<(i64, i64)>>,
    windings: Seq<Orientation>,
    r: Result<(), PolygonTriangulationError>,
) -> bool {
    &&& r is Ok ==> holes_ok(orient, outer, holes, windings)
    &&& r matches Err(e) ==> match e {
        PolygonTriangulationError::InvalidHole(i, v) => i < holes.len() && v != PolygonBasicValidity::Valid && v
            == spec_ring_validity(holes[i as int]@, windings[i as int]) && forall|x: int|
            0 <= x < i ==> #[trigger] hole_alone_ok(orient, holes, windings, x),
        PolygonTriangulationError::HoleSelfIntersecting(i, f) => i < holes.len() && spec_ring_validity(
            holes[i as int]@,
            windings[i as int],
        ) is Valid && self_intersection_answer(orient, holes[i as int]@, Some(f)) && forall|x: int|
            0 <= x < i ==> #[trigger] hole_alone_ok(orient, holes, windings, x),
        PolygonTriangulationError::HoleIntersectsOuter(i, k) => i < holes.len() && ring_crossing_answer(
            orient,
            outer,
            holes[i as int]@,
            Some(k),
        ) && (forall|x: int| 0 <= x < holes.len() ==> #[trigger] hole_alone_ok(orient, holes, windings, x)) && forall|x: int|
            0 <= x < i ==> #[trigger] hole_outer_ok(orient, outer, holes, x),
        PolygonTriangulationError::HoleOutsideOuter(i) => i < holes.len() && ring_crossing_answer(
            orient,
            outer,
            holes[i as int]@,
            None,
        ) && contains_answer(orient, outer, holes[i as int]@, false) && (forall|x: int|
            0 <= x < holes.len() ==> #[trigger] hole_alone_ok(orient, holes, windings, x)) && forall|x: int|
            0 <= x < i ==> #[trigger] hole_outer_ok(orient, outer, holes, x),
        PolygonTriangulationError::HolesIntersect(i, j, k) => i < j < holes.len() && ring_crossing_answer(
            orient,
            holes[i as int]@,
            holes[j as int]@,
            Some(k),
        ) && all_alone_and_outer_ok(orient, outer, holes, windings) && hole_pairs_ok_before(orient, holes, i as int, j as int),
        PolygonTriangulationError::NestedHole(a, b) => a < holes.len() && b < holes.len() && a != b && contains_answer(
            orient,
            holes[b as int]@,
            holes[a as int]@,
            true,
        ) && all_alone_and_outer_ok(orient, outer, holes, windings) && if a < b {
            ring_crossing_answer(orient, holes[a as int]@, holes[b as int]@, None) && hole_pairs_ok_before(
                orient,
                holes,
                a as int,
                b as int,
            )
        } else {
            ring_crossing_answer(orient, holes[b as int]@, holes[a as int]@, None) && contains_answer(
                orient,
                holes[a as int]@,
                holes[b as int]@,
                false,
            ) && hole_pairs_ok_before(orient, holes, b as int, a as int)
        },
        _ => false,
    }
}

/// Checks each hole alone, then against `outer`, then each pair of holes;
/// see [`validate_holes`].
#[verifier::spinoff_prover]
pub fn check_holes<F: Fn((i64, i64), (i64, i64), (i64, i64)) -> Orientation>(
    outer: &Vec<(i64, i64)>,
    holes: &Vec<Vec<(i64, i64)>>,
    hole_windings: &Vec<Orientation>,
    orient: &F,
) -> (r: Result<(), PolygonTriangulationError>)
    requires
        hole_windings.len() == holes.len(),
        forall|a: (i64, i64), b: (i64, i64), c: (i64, i64)| orient.requires((a, b, c)),
    ensures
        holes_outcome(*orient, outer@, holes@, hole_windings@, r),
{
    let h = holes.len();
    let validity = |i: usize| -> (v: PolygonBasicValidity)
        requires
            i < h,
            h == holes@.len(),
            h == hole_windings@.len(),
        ensures
            v == spec_ring_validity(holes@[i as int]@, hole_windings@[i as int]),
        { ring_validity(&holes[i], hole_windings[i]) };
    let self_crossing = |i: usize| -> (x: Option<PolygonSelfIntersection>)
        requires
            i < h,
            h == holes@.len(),
            forall|a: (i64, i64), b: (i64, i64), c: (i64, i64)| orient.requires((a, b, c)),
        ensures
            self_intersection_answer(*orient, holes@[i as int]@, x),
        { ring_self_intersection(&holes[i], orient) };
    let outer_crossing = |i: usize| -> (x: Option<SegmentIntersectionKind>)
        requires
            i < h,
            h == holes@.len(),
            forall|a: (i64, i64), b: (i64, i64), c: (i64, i64)| orient.requires((a, b, c)),
        ensures
            ring_crossing_answer(*orient, outer@, holes@[i as int]@, x),
        { rings_crossing(outer, &holes[i], orient) };
    let outer_contains = |i: usize| -> (x: bool)
        requires
            i < h,
            h == holes@.len(),
            forall|a: (i64, i64), b: (i64, i64), c: (i64, i64)| orient.requires((a, b, c)),
        ensures
            contains_answer(*orient, outer@, holes@[i as int]@, x),
        { ring_contains_ring(outer, &holes[i], orient) };
    let holes_crossing = |i: usize, j: usize| -> (x: Option<SegmentIntersectionKind>)
        requires
            i < h,
            j < h,
            h == holes@.len(),
            forall|a: (i64, i64), b: (i64, i64), c: (i64, i64)| orient.requires((a, b, c)),
        ensures
            ring_crossing_answer(*orient, holes@[i as int]@, holes@[j as int]@, x),
        { rings_crossing(&holes[i], &holes[j], orient) };
    let hole_contains = |a: usize, b: usize| -> (x: bool)
        requires
            a < h,
            b < h,
            h == holes@.len(),
            forall|p: (i64, i64), q: (i64, i64), c: (i64, i64)| orient.requires((p, q, c)),
        ensures
            contains_answer(*orient, holes@[a as int]@, holes@[b as int]@, x),
        { ring_contains_ring(&holes[a], &holes[b], orient) };
    let r = validate_holes(h, &validity, &self_crossing, &outer_crossing, &outer_contains, &holes_crossing, &hole_contains);
    proof {
        assert forall|x: int| 0 <= x < h && hole_alone_passes(validity, self_crossing, x) implies #[trigger] hole_alone_ok(
            *orient,
            holes@,
            hole_windings@,
            x,
        ) by {
            assert(validity.ensures((x as usize,), PolygonBasicValidity::Valid));
            assert(self_crossing.ensures((x as usize,), None));
        }
        assert forall|x: int| 0 <= x < h && hole_outer_passes(outer_crossing, outer_contains, x) implies #[trigger] hole_outer_ok(
            *orient,
            outer@,
            holes@,
            x,
        ) by {
            assert(outer_crossing.ensures((x as usize,), None));
            assert(outer_contains.ensures((x as usize,), true));
        }
        assert forall|a: int, b: int|
            0 <= a < h && 0 <= b < h && hole_pair_passes(holes_crossing, hole_contains, a, b) implies #[trigger] hole_pair_ok(
            *orient,
            holes@,
            a,
            b,
        ) by {
            assert(holes_crossing.ensures((a as usize, b as usize), None));
            assert(hole_contains.ensures((b as usize, a as usize), false));
            assert(hole_contains.ensures((a as usize, b as usize), false));
        }
        if let Err(e) = r {
            match e {
                PolygonTriangulationError::InvalidHole(i, v) => {
                    assert(v == spec_ring_validity(holes@[i as int]@, hole_windings@[i as int])) by {
                        assert(validity.ensures((i,), v));
                    }
                    assert(holes_outcome(*orient, outer@, holes@, hole_windings@, r));
                },
                PolygonTriangulationError::HoleSelfIntersecting(i, f) => {
                    assert(validity.ensures((i,), PolygonBasicValidity::Valid));
                    assert(self_crossing.ensures((i,), Some(f)));
                    assert(holes_outcome(*orient, outer@, holes@, hole_windings@, r));
                },
                PolygonTriangulationError::HoleIntersectsOuter(i, k) => {
                    assert(outer_crossing.ensures((i,), Some(k)));
                    assert(holes_outcome(*orient, outer@, holes@, hole_windings@, r));
                },
                PolygonTriangulationError::HoleOutsideOuter(i) => {
                    assert(outer_crossing.ensures((i,), None));
                    assert(outer_contains.ensures((i,), false));
                    assert(holes_outcome(*orient, outer@, holes@, hole_windings@, r));
                },
                PolygonTriangulationError::HolesIntersect(i, j, k) => {
                    assert(holes_crossing.ensures((i, j), Some(k)));
                    assert(all_alone_and_outer_ok(*orient, outer@, holes@, hole_windings@));
                    assert(hole_pairs_ok_before(*orient, holes@, i as int, j as int));
                    assert(holes_outcome(*orient, outer@, holes@, hole_windings@, r));
                },
                PolygonTriangulationError::NestedHole(a, b) => {
                    assert(hole_contains.ensures((b, a), true));
                    assert(all_alone_and_outer_ok(*orient, outer@, holes@, hole_windings@));
                    if a < b {
                        assert(holes_crossing.ensures((a, b), None));
                        assert(hole_pairs_ok_before(*orient, holes@, a as int, b as int));
                    } else {
                        assert(holes_crossing.ensures((b, a), None));
                        assert(hole_contains.ensures((a, b), false));
                        assert(hole_pairs_ok_before(*orient, holes@, b as int, a as int));
                    }
                    assert(holes_outcome(*orient, outer@, holes@, hole_windings@, r));
                },
                _ => {
                    assert(false);
                },
            }
        }
        if r is Ok {
            assert forall|i: int| 0 <= i < h implies #[trigger] spec_ring_validity(holes@[i]@, hole_windings@[i]) is Valid by {
                assert(validity.ensures((i as usize,), PolygonBasicValidity::Valid));
            }
            assert forall|i: int| 0 <= i < h implies #[trigger] self_intersection_answer(*orient, holes@[i]@, None) by {
                assert(self_crossing.ensures((i as usize,), None));
            }
            assert forall|i: int| 0 <= i < h implies #[trigger] ring_crossing_answer(*orient, outer@, holes@[i]@, None) by {
                assert(outer_crossing.ensures((i as usize,), None));
            }
            assert forall|i: int| 0 <= i < h implies #[trigger] contains_answer(*orient, outer@, holes@[i]@, true) by {
                assert(outer_contains.ensures((i as usize,), true));
            }
            assert forall|i: int, j: int| 0 <= i < j < h implies #[trigger] ring_crossing_answer(
                *orient,
                holes@[i]@,
                holes@[j]@,
                None,
            ) by {
                assert(holes_crossing.ensures((i as usize, j as usize), None));
            }
            assert forall|i: int, j: int| 0 <= i < j < h implies #[trigger] contains_answer(*orient, holes@[j]@, holes@[i]@, false)
                && contains_answer(*orient, holes@[i]@, holes@[j]@, false) by {
                assert(hole_contains.ensures((j as usize, i as usize), false));
                assert(hole_contains.ensures((i as usize, j as usize), false));
            }
            assert(holes_ok(*orient, outer@, holes@, hole_windings@));
        }
        assert(holes_outcome(*orient, outer@, holes@, hole_windings@, r));
    }
    r
}

/// All rings' vertices, outer first, and all rings' edges as index
/// pairs into them.
/// The edges of a ring of `n` vertices numbered from `offset`: each
/// vertex to the next, the last to the first.
pub open spec fn ring_edge_seq(offset: int, n: int) -> Seq<(usize, usize)> {
    Seq::new(n as nat, |i: int| ((offset + i) as usize, (offset + (i + 1) % n) as usize))
}

/// The edges of the outer ring followed by those of the first `k` holes,
/// each numbered as the rings' vertices are joined.
pub open spec fn joined_edges(outer: Seq<(i64, i64)>, holes: Seq<Vec<(i64, i64)>>, k: int) -> Seq<(usize, usize)>
    decreases k,
{
    if k <= 0 {
        ring_edge_seq(0, outer.len() as int)
    } else {
        joined_edges(outer, holes, k - 1) + ring_edge_seq(joined(outer, holes, k - 1).len() as int, holes[k - 1]@.len() as int)
    }
}

fn join_rings(outer: &Vec<(i64, i64)>, holes: &Vec<Vec<(i64, i64)>>) -> (r: (Vec<(i64, i64)>, Vec<(usize, usize)>))
    requires
        joined(outer@, holes@, holes.len() as int).len() <= u32::MAX,
    ensures
        r.0@ == joined(outer@, holes@, holes.len() as int),
        r.1@ == joined_edges(outer@, holes@, holes.len() as int),
{
    let mut points: Vec<(i64, i64)> = Vec::new();
    let mut k: usize = 0;
    while k < outer.len()
        invariant
            k <= outer.len(),
            points@ == outer@.take(k as int),
        decreases outer.len() - k,
    {
        points.push(outer[k]);
        proof {
            assert(outer@.take(k + 1) =~= outer@.take(k as int).push(outer@[k as int]));
        }
        k += 1;
    }
    proof {
        assert(outer@.take(outer.len() as int) =~= outer@);
    }
    let mut constraints = ring_edges(0, outer.len());
    proof {
        assert(constraints@ =~= joined_edges(outer@, holes@, 0));
    }
    let h = holes.len();
    let mut i: usize = 0;
    while i < h
        invariant
            i <= h,
            h == holes@.len(),
            points@ == joined(outer@, holes@, i as int),
            constraints@ == joined_edges(outer@, holes@, i as int),
            joined(outer@, holes@, h as int).len() <= u32::MAX,
        decreases h - i,
    {
        proof {
            lemma_joined_grows(outer@, holes@, i + 1, h as int);
            assert(joined(outer@, holes@, i + 1) == joined(outer@, holes@, i as int) + holes@[i as int]@);
        }
        let offset = points.len();
        let hole = &holes[i];
        let ghost base = points@;
        let mut k: usize = 0;
        while k < hole.len()
            invariant
                k <= hole.len(),
                points@ == base + hole@.take(k as int),
            decreases hole.len() - k,
        {
            points.push(hole[k]);
            proof {
                assert(hole@.take(k + 1) =~= hole@.take(k as int).push(hole@[k as int]));
            }
            k += 1;
        }
        proof {
            assert(hole@.take(hole.len() as int) =~= hole@);
        }
        let mut edges = ring_edges(offset, hole.len());
        proof {
            assert(edges@ =~= ring_edge_seq(offset as int, hole@.len() as int));
            assert(joined(outer@, holes@, i as int).len() == offset);
        }
        let ghost before = constraints@;
        constraints.append(&mut edges);
        proof {
            assert(constraints@ =~= joined_edges(outer@, holes@, i + 1));
        }
        i += 1;
    }
    (points, constraints)
}

/// What [`triangulate_polygon_with_holes`] gives for the outer ring
/// `outer` (winding `outer_winding`) and the rings `holes` (windings
/// `hole_windings`): the outer ring's own failures as for
/// [`triangulate_polygon`]; past them, the holes' first failure as
/// [`holes_outcome`] says; past those, the polygon outcome over all the
/// rings' vertices and edges; and on success `n + 2h - 2` faces over the
/// sorted distinct vertices of all the rings.
pub open spec fn polygon_with_holes_contract<
    F: Fn((i64, i64), (i64, i64), (i64, i64)) -> Orientation,
    G: Fn((i64, i64), (i64, i64), (i64, i64), (i64, i64)) -> Sign,
>(
    outer: Seq<(i64, i64)>,
    outer_winding: Orientation,
    holes: Seq<Vec<(i64, i64)>>,
    hole_windings: Seq<Orientation>,
    orient: F,
    incircle: G,
    r: Result<Triangulation2<(i64, i64)>, PolygonTriangulationError>,
) -> bool {
    &&& spec_ring_validity(outer, outer_winding) is TooFewVertices ==> r == Err::<Triangulation2<(i64, i64)>, PolygonTriangulationError>(
        PolygonTriangulationError::TooFewVertices,
    )
    &&& spec_ring_validity(outer, outer_winding) is ConsecutiveDuplicateVertices ==> r == Err::<
        Triangulation2<(i64, i64)>,
        PolygonTriangulationError,
    >(PolygonTriangulationError::DegenerateEdge)
    &&& spec_ring_validity(outer, outer_winding) is ZeroArea ==> r == Err::<Triangulation2<(i64, i64)>, PolygonTriangulationError>(
        PolygonTriangulationError::ZeroArea,
    )
    &&& spec_ring_validity(outer, outer_winding) is Valid ==> exists|x: Option<PolygonSelfIntersection>|
        #[trigger] self_intersection_answer(orient, outer, x) && (x matches Some(f) ==> r == Err::<
            Triangulation2<(i64, i64)>,
            PolygonTriangulationError,
        >(PolygonTriangulationError::SelfIntersecting(f)))
    &&& r matches Err(e) ==> match e {
        PolygonTriangulationError::InvalidHole(_, _) => outer_ok(orient, outer, outer_winding) && holes_outcome(orient, outer, holes, hole_windings, Err::<(), PolygonTriangulationError>(e)),
        PolygonTriangulationError::HoleSelfIntersecting(_, _) => outer_ok(orient, outer, outer_winding) && holes_outcome(orient, outer, holes, hole_windings, Err::<(), PolygonTriangulationError>(e)),
        PolygonTriangulationError::HoleIntersectsOuter(_, _) => outer_ok(orient, outer, outer_winding) && holes_outcome(orient, outer, holes, hole_windings, Err::<(), PolygonTriangulationError>(e)),
        PolygonTriangulationError::HoleOutsideOuter(_) => outer_ok(orient, outer, outer_winding) && holes_outcome(orient, outer, holes, hole_windings, Err::<(), PolygonTriangulationError>(e)),
        PolygonTriangulationError::HolesIntersect(_, _, _) => outer_ok(orient, outer, outer_winding) && holes_outcome(orient, outer, holes, hole_windings, Err::<(), PolygonTriangulationError>(e)),
        PolygonTriangulationError::NestedHole(_, _) => outer_ok(orient, outer, outer_winding) && holes_outcome(orient, outer, holes, hole_windings, Err::<(), PolygonTriangulationError>(e)),
        PolygonTriangulationError::ConstraintInsertionFailed => outer_ok(orient, outer, outer_winding) && holes_ok(
            orient,
            outer,
            holes,
            hole_windings,
        ),
        PolygonTriangulationError::TooFewVertices => spec_ring_validity(outer, outer_winding) is TooFewVertices,
        PolygonTriangulationError::DegenerateEdge => spec_ring_validity(outer, outer_winding) is ConsecutiveDuplicateVertices,
        PolygonTriangulationError::ZeroArea => spec_ring_validity(outer, outer_winding) is ZeroArea,
        PolygonTriangulationError::SelfIntersecting(f) => spec_ring_validity(outer, outer_winding) is Valid
            && self_intersection_answer(orient, outer, Some(f)),
    }
    &&& r is Ok || r == Err::<Triangulation2<(i64, i64)>, PolygonTriangulationError>(
        PolygonTriangulationError::ConstraintInsertionFailed,
    ) ==> polygon_outcome(
        joined(outer, holes, holes.len() as int),
        joined_edges(outer, holes, holes.len() as int),
        outer_winding,
        orient,
        incircle,
        joined(outer, holes, holes.len() as int).len() + 2 * holes.len() - 2,
        r,
    )
    &&& r matches Ok(t) ==> outer_ok(orient, outer, outer_winding) && holes_ok(orient, outer, holes, hole_windings)
        && t.spec_faces().len() + 2 == joined(outer, holes, holes.len() as int).len() + 2 * holes.len()
        && sorted_dedup_of(t.spec_vertices(), joined(outer, holes, holes.len() as int))
}

/// Triangulates the region inside the ring `outer` (winding
/// `outer_winding`) and outside each ring of `holes` (windings
/// `hole_windings`), without new points. `outer` is checked as by
/// [`triangulate_polygon`]; then each hole alone (cheap checks, then
/// self-intersection), then each hole against `outer` (they may not meet,
/// and the hole must lie inside), then each pair of holes (they may not
/// meet, nor one hold the other), the first failure deciding the error.
/// All rings' edges are then the constraints of one constrained Delaunay
/// triangulation over all their vertices, from which the faces inside
/// `outer` and outside every hole are kept; any failure past the checks,
/// including a face count other than `n + 2h - 2` for `n` vertices and
/// `h` holes, is [`PolygonTriangulationError::ConstraintInsertionFailed`].
pub fn triangulate_polygon_with_holes<
    F: Fn((i64, i64), (i64, i64), (i64, i64)) -> Orientation,
    G: Fn((i64, i64), (i64, i64), (i64, i64), (i64, i64)) -> Sign,
>(
    outer: &Vec<(i64, i64)>,
    outer_winding: Orientation,
    holes: &Vec<Vec<(i64, i64)>>,
    hole_windings: &Vec<Orientation>,
    orient: &F,
    incircle: &G,
) -> (r: Result<Triangulation2<(i64, i64)>, PolygonTriangulationError>)
    requires
        hole_windings.len() == holes.len(),
        joined(outer@, holes@, holes.len() as int).len() + 2 * holes.len() <= u32::MAX,
        forall|a: (i64, i64), b: (i64, i64), c: (i64, i64)| orient.requires((a, b, c)),
        forall|a: (i64, i64), b: (i64, i64), c: (i64, i64), d: (i64, i64)| incircle.requires((a, b, c, d)),
    ensures
        polygon_with_holes_contract(outer@, outer_winding, holes@, hole_windings@, *orient, *incircle, r),
{
    match ring_validity(outer, outer_winding) {
        PolygonBasicValidity::TooFewVertices => {
            return Err(PolygonTriangulationError::TooFewVertices);
        },
        PolygonBasicValidity::ConsecutiveDuplicateVertices => {
            return Err(PolygonTriangulationError::DegenerateEdge);
        },
        PolygonBasicValidity::ZeroArea => {
            return Err(PolygonTriangulationError::ZeroArea);
        },
        PolygonBasicValidity::Valid => {},
    }
    let found = ring_self_intersection(outer, orient);
    if let Some(f) = found {
        return Err(PolygonTriangulationError::SelfIntersecting(f));
    }
    let h = holes.len();
    match check_holes(outer, holes, hole_windings, orient) {
        Ok(()) => {},
        Err(e) => {
            return Err(e);
        },
    }
    let (points, constraints) = join_rings(outer, holes);
    let n = points.len();
    let rc = constrained_delaunay2(&points, &constraints, orient, incircle);
    let cdt = match rc {
        Ok(c) => c,
        Err(_) => {
            proof {
                assert(cdt_outcome(points@, constraints@, *orient, *incircle, rc));
            }
            return Err(PolygonTriangulationError::ConstraintInsertionFailed);
        },
    };
    proof {
        lemma_joined_prefix(outer@, holes@, h as int);
        assert(points@[0] == outer@[0] && points@[1] == outer@[1]);
    }
    let r = keep_polygon_interior(cdt, &points, outer[0], outer[1], outer_winding, orient, n + 2 * h - 2);
    proof {
        assert(cdt_outcome(points@, constraints@, *orient, *incircle, rc));
    }
    r
}

/// With no holes, the rings triangulated past the checks are the outer
/// ring alone, with its own edges and the same face count, so a result
/// [`triangulate_polygon_with_holes`] may give past the checks is one
/// [`triangulate_polygon`] may give, and back.
pub proof fn lemma_no_holes_same_outcome<
    F: Fn((i64, i64), (i64, i64), (i64, i64)) -> Orientation,
    G: Fn((i64, i64), (i64, i64), (i64, i64), (i64, i64)) -> Sign,
>(
    outer: Seq<(i64, i64)>,
    winding: Orientation,
    orient: F,
    incircle: G,
    r: Result<Triangulation2<(i64, i64)>, PolygonTriangulationError>,
)
    ensures
        joined(outer, Seq::<Vec<(i64, i64)>>::empty(), 0) == outer,
        joined_edges(outer, Seq::<Vec<(i64, i64)>>::empty(), 0) == ring_edge_seq(0, outer.len() as int),
        polygon_outcome(
            joined(outer, Seq::<Vec<(i64, i64)>>::empty(), 0),
            joined_edges(outer, Seq::<Vec<(i64, i64)>>::empty(), 0),
            winding,
            orient,
            incircle,
            joined(outer, Seq::<Vec<(i64, i64)>>::empty(), 0).len() + 2 * 0 - 2,
            r,
        ) == polygon_outcome(outer, ring_edge_seq(0, outer.len() as int), winding, orient, incircle, outer.len() - 2, r),
{
}

/// The joined vertex list starts with the outer ring.
proof fn lemma_joined_prefix(outer: Seq<(i64, i64)>, holes: Seq<Vec<(i64, i64)>>, k: int)
    ensures
        forall|i: int| 0 <= i < outer.len() ==> #[trigger] joined(outer, holes, k)[i] == outer[i],
        joined(outer, holes, k).len() >= outer.len(),
    decreases k,
{
    if k > 0 {
        lemma_joined_prefix(outer, holes, k - 1);
        assert forall|i: int| 0 <= i < outer.len() implies #[trigger] joined(outer, holes, k)[i] == outer[i] by {
            assert(joined(outer, holes, k - 1)[i] == outer[i]);
        }
    }
}

/// The joined vertex list only grows as holes are added.
proof fn lemma_joined_grows(outer: Seq<(i64, i64)>, holes: Seq<Vec<(i64, i64)>>, i: int, k: int)
    requires
        0 <= i <= k,
    ensures
        joined(outer, holes, i).len() <= joined(outer, holes, k).len(),
        joined(outer, holes, i).len() >= outer.len(),
    decreases k,
{
    if k > i {
        lemma_joined_grows(outer, holes, i, k - 1);
    }
    if i > 0 {
        lemma_joined_grows(outer, holes, i - 1, i - 1);
    }
}

} // verus!
