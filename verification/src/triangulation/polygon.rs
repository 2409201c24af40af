use vstd::prelude::*;

use super::cdt::ConstrainedTriangulation2;
use super::topology::{assemble_triangulation, face_index, lemma_edge_faces_contain_edge, lemma_well_formed_edge_bound, same_edge, Triangulation2};
use super::voronoi::spec_third_vertex;
use crate::ids::{EdgeId, FaceId, VertexId};
use crate::kinds::{PolygonBasicValidity, PolygonSelfIntersection, SegmentIntersectionKind};

verus! {

/// Why triangulating a polygon rejected its input or failed to build a
/// result.
#[derive(Debug, Clone, Copy, PartialEq, Eq, Structural)]
pub enum PolygonTriangulationError {
    /// Fewer than 3 vertices.
    TooFewVertices,
    /// Two consecutive vertices are exactly equal.
    DegenerateEdge,
    /// The exact signed area is zero.
    ZeroArea,
    /// The polygon boundary self-intersects.
    SelfIntersecting(PolygonSelfIntersection),
    /// The polygon boundary could not be realized, or no interior seed
    /// face was found.
    ConstraintInsertionFailed,
    /// A hole ring fails the cheap structural checks: `(hole_index,
    /// validity)`.
    InvalidHole(usize, PolygonBasicValidity),
    /// A hole ring self-intersects: `(hole_index, found)`.
    HoleSelfIntersecting(usize, PolygonSelfIntersection),
    /// A hole's boundary intersects the outer boundary: `(hole_index,
    /// kind)`.
    HoleIntersectsOuter(usize, SegmentIntersectionKind),
    /// A hole lies entirely outside the outer boundary.
    HoleOutsideOuter(usize),
    /// Two holes' boundaries intersect: `(hole_a, hole_b, kind)` with
    /// `hole_a < hole_b`.
    HolesIntersect(usize, usize, SegmentIntersectionKind),
    /// One hole is nested inside another: `(inner_hole, outer_hole)`.
    NestedHole(usize, usize),
}

/// The face pair `ef` of an edge is exactly `{f, g}`.
pub open spec fn link_at(ef: [Option<FaceId>; 2], f: int, g: int) -> bool {
    &&& ef[0] is Some
    &&& ef[1] is Some
    &&& (face_index(ef[0]) == f && face_index(ef[1]) == g) || (face_index(ef[0]) == g && face_index(ef[1]) == f)
}

/// Faces `f` and `g` are joined across some unconstrained edge whose
/// two incident faces are `f` and `g`.
pub open spec fn linked<P>(cdt: &ConstrainedTriangulation2<P>, f: int, g: int) -> bool {
    let t = cdt.spec_triangulation();
    exists|e: int|
        0 <= e < t.spec_edges().len() && !cdt.spec_constrained().contains(EdgeId(e as u32)) && #[trigger] link_at(
            t.spec_edge_faces()[e],
            f,
            g,
        )
}

/// `path` walks from face to face across links.
pub open spec fn is_walk<P>(cdt: &ConstrainedTriangulation2<P>, path: Seq<int>) -> bool {
    &&& path.len() >= 1
    &&& forall|j: int| 0 <= j < path.len() - 1 ==> #[trigger] linked(cdt, path[j], path[j + 1])
}

/// Face `f` can be reached from `seed` without crossing a constrained
/// edge.
pub open spec fn reachable<P>(cdt: &ConstrainedTriangulation2<P>, seed: int, f: int) -> bool {
    exists|path: Seq<int>| #[trigger] is_walk(cdt, path) && path[0] == seed && path.last() == f
}

/// A walk extended by one more link is a walk.
proof fn lemma_walk_extend<P>(cdt: &ConstrainedTriangulation2<P>, path: Seq<int>, g: int)
    requires
        is_walk(cdt, path),
        linked(cdt, path.last(), g),
    ensures
        is_walk(cdt, path.push(g)),
{
    let p2 = path.push(g);
    assert forall|j: int| 0 <= j < p2.len() - 1 implies #[trigger] linked(cdt, p2[j], p2[j + 1]) by {
        if j < path.len() - 1 {
            assert(p2[j] == path[j] && p2[j + 1] == path[j + 1]);
        }
    }
}

/// If the visited set contains `seed` and is closed under links, every
/// face on a walk from `seed` is visited.
proof fn lemma_closed_contains_walk<P>(cdt: &ConstrainedTriangulation2<P>, visited: Seq<bool>, path: Seq<int>, j: int)
    requires
        is_walk(cdt, path),
        0 <= path[0] < visited.len(),
        visited[path[0]],
        forall|f: int, g: int|
            0 <= f < visited.len() && visited[f] && #[trigger] linked(cdt, f, g) ==> 0 <= g < visited.len() && visited[g],
        0 <= j < path.len(),
    ensures
        0 <= path[j] < visited.len() && visited[path[j]],
    decreases j,
{
    if j > 0 {
        lemma_closed_contains_walk(cdt, visited, path, j - 1);
        assert(linked(cdt, path[j - 1], path[j - 1 + 1]));
    }
}

/// Every face reachable from `seed` without crossing a constrained edge,
/// as a membership table indexed by face: a breadth-first walk across
/// the unconstrained edges that have two incident faces.
pub fn flood_fill_interior<P>(cdt: &ConstrainedTriangulation2<P>, seed: FaceId) -> (r: Vec<bool>)
    requires
        (seed.0 as int) < cdt.spec_triangulation().spec_faces().len(),
    ensures
        r@.len() == cdt.spec_triangulation().spec_faces().len(),
        forall|f: int| 0 <= f < r@.len() ==> (#[trigger] r@[f] <==> reachable(cdt, seed.0 as int, f)),
{
    let t = cdt.triangulation();
    proof {
        use_type_invariant(t);
        lemma_well_formed_edge_bound(t.spec_faces(), t.spec_edges(), t.spec_edge_faces());
    }
    let n = t.len();
    let n_edges = t.edges().len();
    let ghost s = seed.0 as int;
    let mut visited: Vec<bool> = Vec::new();
    let mut i: usize = 0;
    while i < n
        invariant
            i <= n,
            visited@.len() == i,
            forall|j: int| 0 <= j < i ==> !(#[trigger] visited@[j]),
        decreases n - i,
    {
        visited.push(false);
        i += 1;
    }
    let mut queue: Vec<usize> = Vec::new();
    visited.set(seed.0 as usize, true);
    queue.push(seed.0 as usize);
    proof {
        assert forall|f: int| 0 <= f < n && #[trigger] visited@[f] implies queue@.contains(f as usize) by {
            if f != s {
                assert(!visited@[f]);
            }
            assert(queue@[0] == seed.0 as usize);
        }
        let p = seq![s];
        assert(is_walk(cdt, p));
        assert(reachable(cdt, s, s));
    }
    let mut head: usize = 0;
    while head < queue.len()
        invariant
            t == cdt.spec_triangulation(),
            n == t.spec_faces().len(),
            3 * n <= u32::MAX,
            n_edges == t.spec_edges().len(),
            n_edges <= u32::MAX,
            t.well_formed(),
            visited@.len() == n,
            0 <= s < n,
            visited@[s],
            head <= queue.len(),
            queue.len() <= n,
            forall|j: int| 0 <= j < queue.len() ==> (#[trigger] queue@[j]) < n && visited@[queue@[j] as int],
            forall|j1: int, j2: int| 0 <= j1 < j2 < queue.len() ==> #[trigger] queue@[j1] != #[trigger] queue@[j2],
            forall|f: int| 0 <= f < n && #[trigger] visited@[f] ==> queue@.contains(f as usize),
            forall|f: int| 0 <= f < n && #[trigger] visited@[f] ==> reachable(cdt, s, f),
            forall|j: int, g: int|
                0 <= j < head && #[trigger] linked(cdt, queue@[j] as int, g) ==> 0 <= g < n && visited@[g],
        decreases n - head,
    {
        let f = queue[head];
        proof {
            assert(reachable(cdt, s, f as int));
        }
        let mut e: usize = 0;
        while e < n_edges
            invariant
                t == cdt.spec_triangulation(),
                n == t.spec_faces().len(),
                3 * n <= u32::MAX,
                n_edges == t.spec_edges().len(),
                n_edges <= u32::MAX,
                t.well_formed(),
                visited@.len() == n,
                0 <= s < n,
                visited@[s],
                head < queue.len(),
                f == queue@[head as int],
                f < n,
                visited@[f as int],
                queue.len() <= n,
                e <= n_edges,
                forall|j: int| 0 <= j < queue.len() ==> (#[trigger] queue@[j]) < n && visited@[queue@[j] as int],
                forall|j1: int, j2: int| 0 <= j1 < j2 < queue.len() ==> #[trigger] queue@[j1] != #[trigger] queue@[j2],
                forall|f2: int| 0 <= f2 < n && #[trigger] visited@[f2] ==> queue@.contains(f2 as usize),
                forall|f2: int| 0 <= f2 < n && #[trigger] visited@[f2] ==> reachable(cdt, s, f2),
                forall|j: int, g: int|
                    0 <= j < head && #[trigger] linked(cdt, queue@[j] as int, g) ==> 0 <= g < n && visited@[g],
                forall|e2: int, g: int|
                    0 <= e2 < e && !cdt.spec_constrained().contains(EdgeId(e2 as u32)) && #[trigger] link_at(
                        t.spec_edge_faces()[e2],
                        f as int,
                        g,
                    ) ==> 0 <= g < n && visited@[g],
            decreases n_edges - e,
        {
            let id = EdgeId(e as u32);
            assert(id.0 as int == e as int);
            let ef = t.adjacent_faces(id);
            let constrained = cdt.is_constrained(id);
            let ghost old_visited = visited@;
            let ghost old_queue = queue@;
            if !constrained {
                if let (Some(x), Some(y)) = (ef[0], ef[1]) {
                    proof {
                        lemma_edge_faces_contain_edge(t.spec_faces(), t.spec_edges(), t.spec_edge_faces(), e as int, 0);
                        lemma_edge_faces_contain_edge(t.spec_faces(), t.spec_edges(), t.spec_edge_faces(), e as int, 1);
                    }
                    let other: Option<usize> = if x.0 as usize == f {
                        Some(y.0 as usize)
                    } else if y.0 as usize == f {
                        Some(x.0 as usize)
                    } else {
                        None
                    };
                    if let Some(g) = other {
                        proof {
                            assert(link_at(t.spec_edge_faces()[e as int], f as int, g as int));
                            assert(linked(cdt, f as int, g as int));
                        }
                        if !visited[g] {
                            proof {
                                let pf = choose|path: Seq<int>| #[trigger] is_walk(cdt, path) && path[0] == s && path.last() == f as int;
                                lemma_walk_extend(cdt, pf, g as int);
                                assert(is_walk(cdt, pf.push(g as int)) && pf.push(g as int)[0] == s && pf.push(g as int).last() == g as int);
                                if queue@.len() >= n {
                                    lemma_distinct_bounded(queue@, n as int, g);
                                }
                            }
                            visited.set(g, true);
                            queue.push(g);
                            proof {
                                assert forall|f2: int| 0 <= f2 < n && #[trigger] visited@[f2] implies queue@.contains(f2 as usize) by {
                                    if f2 != g as int {
                                        assert(old_visited[f2]);
                                        let j = choose|j: int| 0 <= j < old_queue.len() && old_queue[j] == f2 as usize;
                                        assert(queue@[j] == f2 as usize);
                                    } else {
                                        assert(queue@[queue@.len() - 1] == g);
                                    }
                                }
                                assert forall|j1: int, j2: int| 0 <= j1 < j2 < queue.len() implies #[trigger] queue@[j1] != #[trigger] queue@[j2] by {
                                    if j2 == queue.len() - 1 {
                                        if queue@[j1] == g {
                                            assert(old_visited[queue@[j1] as int]);
                                        }
                                    }
                                }
                            }
                        }
                    }
                }
            }
            proof {
                assert forall|e2: int, g: int|
                    0 <= e2 < e + 1 && !cdt.spec_constrained().contains(EdgeId(e2 as u32)) && #[trigger] link_at(
                        t.spec_edge_faces()[e2],
                        f as int,
                        g,
                    ) implies 0 <= g < n && visited@[g] by {
                    if e2 == e {
                        assert(EdgeId(e2 as u32) == id);
                        lemma_edge_faces_contain_edge(t.spec_faces(), t.spec_edges(), t.spec_edge_faces(), e as int, 0);
                        lemma_edge_faces_contain_edge(t.spec_faces(), t.spec_edges(), t.spec_edge_faces(), e as int, 1);
                    }
                }
            }
            e += 1;
        }
        proof {
            assert forall|j: int, g: int|
                0 <= j < head + 1 && #[trigger] linked(cdt, queue@[j] as int, g) implies 0 <= g < n && visited@[g] by {
                if j == head {
                    let e2 = choose|e2: int|
                        0 <= e2 < t.spec_edges().len() && !cdt.spec_constrained().contains(EdgeId(e2 as u32)) && #[trigger] link_at(
                            t.spec_edge_faces()[e2],
                            f as int,
                            g,
                        );
                }
            }
        }
        head += 1;
    }
    proof {
        assert forall|f: int| 0 <= f < visited@.len() implies (#[trigger] visited@[f] <==> reachable(cdt, s, f)) by {
            if reachable(cdt, s, f) {
                let path = choose|path: Seq<int>| #[trigger] is_walk(cdt, path) && path[0] == s && path.last() == f;
                assert forall|f1: int, g: int|
                    0 <= f1 < visited@.len() && visited@[f1] && #[trigger] linked(cdt, f1, g) implies 0 <= g < visited@.len()
                        && visited@[g] by {
                    let j = choose|j: int| 0 <= j < queue@.len() && queue@[j] == f1 as usize;
                    assert(queue@[j] as int == f1);
                }
                lemma_closed_contains_walk(cdt, visited@, path, path.len() - 1);
            }
        }
    }
    visited
}

/// A sequence of distinct values below `n` has fewer than `n` entries
/// when some value `g < n` is missing from it.
proof fn lemma_distinct_bounded(q: Seq<usize>, n: int, g: usize)
    requires
        forall|j1: int, j2: int| 0 <= j1 < j2 < q.len() ==> #[trigger] q[j1] != #[trigger] q[j2],
        forall|j: int| 0 <= j < q.len() ==> (#[trigger] q[j]) < n,
        g < n <= usize::MAX + 1,
        !q.contains(g),
    ensures
        q.len() < n,
{
    let s = q.to_set();
    q.unique_seq_to_set();
    let full = Set::new(|x: usize| x < n);
    assert(s.subset_of(full.remove(g)));
    lemma_usize_range_finite_len(n);
    vstd::set_lib::lemma_len_subset(s, full.remove(g));
}

/// The set of `usize` values below `n` is finite with `n` elements.
proof fn lemma_usize_range_finite_len(n: int)
    requires
        0 <= n <= usize::MAX + 1,
    ensures
        Set::new(|x: usize| x < n).finite(),
        Set::new(|x: usize| x < n).len() == n,
    decreases n,
{
    if n == 0 {
        assert(Set::new(|x: usize| x < n) =~= Set::empty());
    } else {
        lemma_usize_range_finite_len(n - 1);
        assert(Set::new(|x: usize| x < n) =~= Set::new(|x: usize| x < n - 1).insert((n - 1) as usize));
    }
}

/// The faces among the first `m` whose flag in `keep` is set, in order.
pub open spec fn faces_where(faces: Seq<[VertexId; 3]>, keep: Seq<bool>, m: int) -> Seq<[VertexId; 3]>
    decreases m,
{
    if m <= 0 {
        Seq::empty()
    } else if keep[m - 1] {
        faces_where(faces, keep, m - 1).push(faces[m - 1])
    } else {
        faces_where(faces, keep, m - 1)
    }
}

/// What [`keep_interior`] gives for `cdt`, `seed` and `expected`: the
/// faces reachable from `seed` without crossing a constrained edge, over
/// the same vertices, when there are exactly `expected` of them; a
/// failed constraint insertion otherwise.
pub open spec fn keep_result<P>(
    cdt: ConstrainedTriangulation2<P>,
    seed: FaceId,
    expected: int,
    r: Result<Triangulation2<P>, PolygonTriangulationError>,
) -> bool {
    let t = cdt.spec_triangulation();
    let fill = Seq::new(t.spec_faces().len(), |f: int| reachable(&cdt, seed.0 as int, f));
    let kept = faces_where(t.spec_faces(), fill, t.spec_faces().len() as int);
    &&& r is Ok <==> kept.len() == expected
    &&& r matches Ok(res) ==> res.spec_faces() == kept && res.spec_vertices() == t.spec_vertices()
    &&& r is Err ==> r == Err::<Triangulation2<P>, PolygonTriangulationError>(PolygonTriangulationError::ConstraintInsertionFailed)
}

/// The triangulation, over the same vertices, of the faces reachable from
/// `seed` without crossing a constrained edge, when there are exactly
/// `expected` of them; a failed constraint insertion otherwise.
pub fn keep_interior<P>(cdt: ConstrainedTriangulation2<P>, seed: FaceId, expected: usize) -> (r: Result<
    Triangulation2<P>,
    PolygonTriangulationError,
>)
    requires
        (seed.0 as int) < cdt.spec_triangulation().spec_faces().len(),
    ensures
        ({
            let t = cdt.spec_triangulation();
            let fill = Seq::new(t.spec_faces().len(), |f: int| reachable(&cdt, seed.0 as int, f));
            let kept = faces_where(t.spec_faces(), fill, t.spec_faces().len() as int);
            &&& r is Ok <==> kept.len() == expected
            &&& r matches Ok(res) ==> res.spec_faces() == kept && res.spec_vertices() == t.spec_vertices()
            &&& r is Err ==> r == Err::<Triangulation2<P>, PolygonTriangulationError>(
                PolygonTriangulationError::ConstraintInsertionFailed,
            )
        }),
        keep_result(cdt, seed, expected as int, r),
{
    let interior = flood_fill_interior(&cdt, seed);
    let ghost fill = interior@;
    let t = cdt.into_triangulation();
    proof {
        use_type_invariant(&t);
    }
    let all = t.face_table();
    let n = all.len();
    let mut faces: Vec<[VertexId; 3]> = Vec::new();
    let mut i: usize = 0;
    while i < n
        invariant
            n == all.len() == interior.len(),
            i <= n,
            faces@ == faces_where(all@, interior@, i as int),
            faces.len() <= i,
        decreases n - i,
    {
        if interior[i] {
            faces.push(all[i]);
        }
        i += 1;
    }
    proof {
        let tt = cdt.spec_triangulation();
        let spec_fill = Seq::new(tt.spec_faces().len(), |f: int| reachable(&cdt, seed.0 as int, f));
        assert(interior@ =~= spec_fill);
    }
    if faces.len() != expected {
        return Err(PolygonTriangulationError::ConstraintInsertionFailed);
    }
    let pts = t.into_vertices();
    Ok(assemble_triangulation(pts, faces))
}

/// The first edge at or after `e` joining `u` and `v`, if any.
pub open spec fn first_edge_joining(edges: Seq<(VertexId, VertexId)>, u: VertexId, v: VertexId, e: int) -> Option<int>
    decreases edges.len() - e,
{
    if e < 0 || e >= edges.len() {
        None
    } else if same_edge(edges[e], (u, v)) {
        Some(e)
    } else {
        first_edge_joining(edges, u, v, e + 1)
    }
}

/// `tri` has a vertex other than `u` and `v`.
pub open spec fn has_third(tri: [VertexId; 3], u: VertexId, v: VertexId) -> bool {
    exists|k: int| 0 <= k < 3 && #[trigger] tri[k] != u && tri[k] != v
}

/// Face `f` (as stored in slot `j` of the edge's face pair `ef`) is an
/// interior seed: it has a vertex off the edge, and the oracle puts that
/// vertex on the interior side.
pub open spec fn seed_in_slot<P, F: Fn(VertexId) -> bool>(
    t: &Triangulation2<P>,
    ef: [Option<FaceId>; 2],
    j: int,
    u: VertexId,
    v: VertexId,
    on_interior_side: F,
) -> bool {
    &&& ef[j] is Some
    &&& has_third(t.spec_faces()[face_index(ef[j])], u, v)
    &&& on_interior_side.ensures((spec_third_vertex(t.spec_faces()[face_index(ef[j])], u, v),), true)
}

/// The answers the closure `f` may give, as a predicate on its argument
/// and answer.
pub open spec fn side_answers_of<F: Fn(VertexId) -> bool>(f: F) -> spec_fn(VertexId, bool) -> bool {
    |x: VertexId, b: bool| f.ensures((x,), b)
}

/// Face `f` (as stored in slot `j` of the edge's face pair `ef`) is an
/// interior seed by the answers `side`.
pub open spec fn seed_in_slot_by<P>(
    t: &Triangulation2<P>,
    ef: [Option<FaceId>; 2],
    j: int,
    u: VertexId,
    v: VertexId,
    side: spec_fn(VertexId, bool) -> bool,
) -> bool {
    &&& ef[j] is Some
    &&& has_third(t.spec_faces()[face_index(ef[j])], u, v)
    &&& side(spec_third_vertex(t.spec_faces()[face_index(ef[j])], u, v), true)
}

/// What [`interior_seed_face`] gives by the answers `side`: a face of the
/// first edge joining `u` and `v` that is an interior seed; none only
/// when no edge joins them or neither face is one.
pub open spec fn seed_result<P>(
    t: &Triangulation2<P>,
    u: VertexId,
    v: VertexId,
    side: spec_fn(VertexId, bool) -> bool,
    r: Option<FaceId>,
) -> bool {
    let e = first_edge_joining(t.spec_edges(), u, v, 0);
    &&& r matches Some(f) ==> e is Some && (f.0 as int) < t.spec_faces().len() && exists|j: int|
        0 <= j < 2 && t.spec_edge_faces()[e->0][j] == Some(f) && #[trigger] seed_in_slot_by(
            t,
            t.spec_edge_faces()[e->0],
            j,
            u,
            v,
            side,
        ) && forall|i: int|
            0 <= i < j ==> !(t.spec_edge_faces()[e->0][i] is Some && has_third(
                t.spec_faces()[face_index(#[trigger] t.spec_edge_faces()[e->0][i])],
                u,
                v,
            )) || side(spec_third_vertex(t.spec_faces()[face_index(t.spec_edge_faces()[e->0][i])], u, v), false)
    &&& r is None ==> e is None || ({
        let ef = t.spec_edge_faces()[e->0];
        forall|j: int|
            0 <= j < 2 ==> !(ef[j] is Some && has_third(t.spec_faces()[face_index(#[trigger] ef[j])], u, v)) || side(
                spec_third_vertex(t.spec_faces()[face_index(ef[j])], u, v),
                false,
            )
    })
}

/// A seed found by some side answers is one by any answers that admit
/// them.
pub proof fn lemma_seed_result_within<P>(
    t: &Triangulation2<P>,
    u: VertexId,
    v: VertexId,
    side1: spec_fn(VertexId, bool) -> bool,
    side2: spec_fn(VertexId, bool) -> bool,
    r: Option<FaceId>,
)
    requires
        forall|x: VertexId, b: bool| #[trigger] side1(x, b) ==> side2(x, b),
        seed_result(t, u, v, side1, r),
    ensures
        seed_result(t, u, v, side2, r),
{
    let e = first_edge_joining(t.spec_edges(), u, v, 0);
    if let Some(f) = r {
        let ef = t.spec_edge_faces()[e->0];
        let j = choose|j: int|
            0 <= j < 2 && t.spec_edge_faces()[e->0][j] == Some(f) && #[trigger] seed_in_slot_by(
                t,
                t.spec_edge_faces()[e->0],
                j,
                u,
                v,
                side1,
            ) && forall|i: int|
                0 <= i < j ==> !(t.spec_edge_faces()[e->0][i] is Some && has_third(
                    t.spec_faces()[face_index(#[trigger] t.spec_edge_faces()[e->0][i])],
                    u,
                    v,
                )) || side1(spec_third_vertex(t.spec_faces()[face_index(t.spec_edge_faces()[e->0][i])], u, v), false);
        assert(side1(spec_third_vertex(t.spec_faces()[face_index(ef[j])], u, v), true));
        assert(seed_in_slot_by(t, ef, j, u, v, side2));
        if j == 1 {
            if ef[0] is Some && has_third(t.spec_faces()[face_index(ef[0])], u, v) {
                assert(side1(spec_third_vertex(t.spec_faces()[face_index(ef[0])], u, v), false));
            }
        }
    } else if e is Some {
        let ef = t.spec_edge_faces()[e->0];
        assert forall|j: int|
            0 <= j < 2 implies !(ef[j] is Some && has_third(t.spec_faces()[face_index(#[trigger] ef[j])], u, v)) || side2(
            spec_third_vertex(t.spec_faces()[face_index(ef[j])], u, v),
            false,
        ) by {
            if ef[j] is Some && has_third(t.spec_faces()[face_index(ef[j])], u, v) {
                assert(side1(spec_third_vertex(t.spec_faces()[face_index(ef[j])], u, v), false));
            }
        }
    }
}

/// The face on the interior side of the boundary edge from `u` to `v`:
/// of the first edge joining them, the first incident face whose vertex
/// off the edge the oracle puts on the interior side; `None` when no edge
/// joins them or neither face qualifies.
pub fn interior_seed_face<P, F: Fn(VertexId) -> bool>(
    t: &Triangulation2<P>,
    u: VertexId,
    v: VertexId,
    on_interior_side: &F,
) -> (r: Option<FaceId>)
    requires
        forall|x: VertexId| on_interior_side.requires((x,)),
    ensures
        r matches Some(f) ==> ({
            let e = first_edge_joining(t.spec_edges(), u, v, 0);
            &&& e is Some
            &&& (f.0 as int) < t.spec_faces().len()
            &&& exists|j: int|
                0 <= j < 2 && t.spec_edge_faces()[e->0][j] == Some(f) && #[trigger] seed_in_slot(
                    t,
                    t.spec_edge_faces()[e->0],
                    j,
                    u,
                    v,
                    *on_interior_side,
                )
        }),
        r is None ==> first_edge_joining(t.spec_edges(), u, v, 0) is None || ({
            let ef = t.spec_edge_faces()[first_edge_joining(t.spec_edges(), u, v, 0)->0];
            forall|j: int| 0 <= j < 2 ==> !(ef[j] is Some && has_third(t.spec_faces()[face_index(#[trigger] ef[j])], u, v)) || on_interior_side.ensures(
                (spec_third_vertex(t.spec_faces()[face_index(ef[j])], u, v),),
                false,
            )
        }),
        seed_result(t, u, v, side_answers_of(*on_interior_side), r),
{
    proof {
        use_type_invariant(t);
        lemma_well_formed_edge_bound(t.spec_faces(), t.spec_edges(), t.spec_edge_faces());
    }
    let m = t.edges().len();
    let mut e: usize = 0;
    while e < m
        invariant
            m == t.spec_edges().len() <= u32::MAX,
            e <= m,
            first_edge_joining(t.spec_edges(), u, v, 0) == first_edge_joining(t.spec_edges(), u, v, e as int),
        ensures
            e <= m,
            first_edge_joining(t.spec_edges(), u, v, 0) == first_edge_joining(t.spec_edges(), u, v, e as int),
            e < m ==> same_edge(t.spec_edges()[e as int], (u, v)),
        decreases m - e,
    {
        let (a, b) = t.edge_vertices(EdgeId(e as u32));
        if (a == u && b == v) || (a == v && b == u) {
            break;
        }
        e += 1;
    }
    if e >= m {
        return None;
    }
    let ef = t.adjacent_faces(EdgeId(e as u32));
    let mut j: usize = 0;
    while j < 2
        invariant
            t.well_formed(),
            e < m == t.spec_edges().len(),
            first_edge_joining(t.spec_edges(), u, v, 0) == Some(e as int),
            ef == t.spec_edge_faces()[e as int],
            forall|x: VertexId| on_interior_side.requires((x,)),
            j <= 2,
            forall|i: int| 0 <= i < j ==> !(ef[i] is Some && has_third(t.spec_faces()[face_index(#[trigger] ef[i])], u, v)) || on_interior_side.ensures(
                (spec_third_vertex(t.spec_faces()[face_index(ef[i])], u, v),),
                false,
            ),
        decreases 2 - j,
    {
        if let Some(face) = ef[j] {
            proof {
                lemma_edge_faces_contain_edge(t.spec_faces(), t.spec_edges(), t.spec_edge_faces(), e as int, j as int);
            }
            let tri = t.face_vertices(face);
            let has = (tri[0] != u && tri[0] != v) || (tri[1] != u && tri[1] != v) || (tri[2] != u && tri[2] != v);
            proof {
                if has {
                    if tri[0] != u && tri[0] != v {
                        assert(tri[0] != u && tri[0] != v);
                    } else if tri[1] != u && tri[1] != v {
                        assert(tri[1] != u && tri[1] != v);
                    } else {
                        assert(tri[2] != u && tri[2] != v);
                    }
                    assert(has_third(tri, u, v));
                } else {
                    assert(!has_third(tri, u, v));
                }
            }
            if has {
                let apex = if tri[0] != u && tri[0] != v {
                    tri[0]
                } else if tri[1] != u && tri[1] != v {
                    tri[1]
                } else {
                    tri[2]
                };
                let inside = on_interior_side(apex);
                if inside {
                    proof {
                        assert(seed_in_slot(t, ef, j as int, u, v, *on_interior_side));
                        assert(seed_in_slot_by(t, ef, j as int, u, v, side_answers_of(*on_interior_side)));
                        if j == 1 {
                            let ef0 = ef[0];
                            if ef0 is Some && has_third(t.spec_faces()[face_index(ef0)], u, v) {
                                assert(on_interior_side.ensures((spec_third_vertex(t.spec_faces()[face_index(ef0)], u, v),), false));
                            }
                        }
                    }
                    return Some(face);
                }
            }
        }
        j += 1;
    }
    None
}

/// The edges of a ring of `n` vertices stored from `offset` on: vertex
/// `offset + i` to vertex `offset + (i + 1) % n`.
pub fn ring_edges(offset: usize, n: usize) -> (r: Vec<(usize, usize)>)
    requires
        offset + n <= usize::MAX,
    ensures
        r.len() == n,
        forall|i: int| 0 <= i < n ==> #[trigger] r@[i] == ((offset + i) as usize, (offset + (i + 1) % (n as int)) as usize),
{
    let mut r: Vec<(usize, usize)> = Vec::new();
    let mut i: usize = 0;
    while i < n
        invariant
            offset + n <= usize::MAX,
            i <= n,
            r.len() == i,
            forall|k: int| 0 <= k < i ==> #[trigger] r@[k] == ((offset + k) as usize, (offset + (k + 1) % (n as int)) as usize),
        decreases n - i,
    {
        r.push((offset + i, offset + (i + 1) % n));
        i += 1;
    }
    r
}

/// The hole checks all pass by the oracles' answers.
pub open spec fn holes_accepted<
    A: Fn(usize) -> PolygonBasicValidity,
    B: Fn(usize) -> Option<PolygonSelfIntersection>,
    C: Fn(usize) -> Option<SegmentIntersectionKind>,
    D: Fn(usize) -> bool,
    E: Fn(usize, usize) -> Option<SegmentIntersectionKind>,
    G: Fn(usize, usize) -> bool,
>(h: int, validity: A, self_crossing: B, outer_crossing: C, outer_contains: D, holes_crossing: E, hole_contains: G) -> bool {
    &&& forall|i: int| 0 <= i < h ==> #[trigger] validity.ensures((i as usize,), PolygonBasicValidity::Valid)
    &&& forall|i: int| 0 <= i < h ==> #[trigger] self_crossing.ensures((i as usize,), None)
    &&& forall|i: int| 0 <= i < h ==> #[trigger] outer_crossing.ensures((i as usize,), None)
    &&& forall|i: int| 0 <= i < h ==> #[trigger] outer_contains.ensures((i as usize,), true)
    &&& forall|i: int, j: int| 0 <= i < j < h ==> #[trigger] holes_crossing.ensures((i as usize, j as usize), None)
    &&& forall|i: int, j: int|
        0 <= i < j < h ==> #[trigger] hole_contains.ensures((j as usize, i as usize), false) && hole_contains.ensures(
            (i as usize, j as usize),
            false,
        )
}

/// Hole `i` passes its own checks by the oracles: valid, and no
/// self-intersection.
pub open spec fn hole_alone_passes<A: Fn(usize) -> PolygonBasicValidity, B: Fn(usize) -> Option<PolygonSelfIntersection>>(
    validity: A,
    self_crossing: B,
    i: int,
) -> bool {
    validity.ensures((i as usize,), PolygonBasicValidity::Valid) && self_crossing.ensures((i as usize,), None)
}

/// Hole `i` passes its checks against the outer ring by the oracles: no
/// meeting, and held by the outer ring.
pub open spec fn hole_outer_passes<C: Fn(usize) -> Option<SegmentIntersectionKind>, D: Fn(usize) -> bool>(
    outer_crossing: C,
    outer_contains: D,
    i: int,
) -> bool {
    outer_crossing.ensures((i as usize,), None) && outer_contains.ensures((i as usize,), true)
}

/// Holes `a` and `b` pass their pair checks by the oracles: no meeting,
/// and neither holds the other.
pub open spec fn hole_pair_passes<E: Fn(usize, usize) -> Option<SegmentIntersectionKind>, G: Fn(usize, usize) -> bool>(
    holes_crossing: E,
    hole_contains: G,
    a: int,
    b: int,
) -> bool {
    &&& holes_crossing.ensures((a as usize, b as usize), None)
    &&& hole_contains.ensures((b as usize, a as usize), false)
    &&& hole_contains.ensures((a as usize, b as usize), false)
}

/// Every pair of `h` holes checked before the pair `(i, j)` passes:
/// those with a first hole before `i`, and those of `i` with a hole
/// before `j`.
pub open spec fn pairs_pass_before<E: Fn(usize, usize) -> Option<SegmentIntersectionKind>, G: Fn(usize, usize) -> bool>(
    holes_crossing: E,
    hole_contains: G,
    h: int,
    i: int,
    j: int,
) -> bool {
    &&& forall|a: int, b: int| 0 <= a < i && a < b < h ==> #[trigger] hole_pair_passes(holes_crossing, hole_contains, a, b)
    &&& forall|b: int| i < b < j ==> #[trigger] hole_pair_passes(holes_crossing, hole_contains, i, b)
}

/// Validates `h` holes against each other and against the outer ring,
/// by oracles over the rings: `validity(i)` hole `i`'s cheap checks,
/// `self_crossing(i)` its self-intersection, `outer_crossing(i)` the
/// first meeting of the outer ring with it, `outer_contains(i)` whether
/// the outer ring holds it, `holes_crossing(i, j)` the first meeting of
/// holes `i` and `j`, `hole_contains(a, b)` whether hole `a` holds hole
/// `b`. First each hole alone, then each against the outer ring, then
/// each pair; the first failure is reported.
#[verifier::spinoff_prover]
pub fn validate_holes<
    A: Fn(usize) -> PolygonBasicValidity,
    B: Fn(usize) -> Option<PolygonSelfIntersection>,
    C: Fn(usize) -> Option<SegmentIntersectionKind>,
    D: Fn(usize) -> bool,
    E: Fn(usize, usize) -> Option<SegmentIntersectionKind>,
    G: Fn(usize, usize) -> bool,
>(
    h: usize,
    validity: &A,
    self_crossing: &B,
    outer_crossing: &C,
    outer_contains: &D,
    holes_crossing: &E,
    hole_contains: &G,
) -> (r: Result<(), PolygonTriangulationError>)
    requires
        forall|i: usize| i < h ==> validity.requires((i,)),
        forall|i: usize| i < h ==> self_crossing.requires((i,)),
        forall|i: usize| i < h ==> outer_crossing.requires((i,)),
        forall|i: usize| i < h ==> outer_contains.requires((i,)),
        forall|i: usize, j: usize| i < h && j < h ==> holes_crossing.requires((i, j)),
        forall|i: usize, j: usize| i < h && j < h ==> hole_contains.requires((i, j)),
    ensures
        r is Ok ==> holes_accepted(
            h as int,
            *validity,
            *self_crossing,
            *outer_crossing,
            *outer_contains,
            *holes_crossing,
            *hole_contains,
        ),
        r matches Err(e) ==> match e {
            PolygonTriangulationError::InvalidHole(i, v) => i < h && v != PolygonBasicValidity::Valid && validity.ensures((i,), v)
                && forall|k: int| 0 <= k < i ==> #[trigger] hole_alone_passes(*validity, *self_crossing, k),
            PolygonTriangulationError::HoleSelfIntersecting(i, f) => i < h && validity.ensures((i,), PolygonBasicValidity::Valid)
                && self_crossing.ensures((i,), Some(f)) && forall|k: int|
                0 <= k < i ==> #[trigger] hole_alone_passes(*validity, *self_crossing, k),
            PolygonTriangulationError::HoleIntersectsOuter(i, k) => i < h && outer_crossing.ensures((i,), Some(k)) && (forall|x: int|
                0 <= x < h ==> #[trigger] hole_alone_passes(*validity, *self_crossing, x)) && forall|x: int|
                0 <= x < i ==> #[trigger] hole_outer_passes(*outer_crossing, *outer_contains, x),
            PolygonTriangulationError::HoleOutsideOuter(i) => i < h && outer_crossing.ensures((i,), None)
                && outer_contains.ensures((i,), false) && (forall|x: int|
                0 <= x < h ==> #[trigger] hole_alone_passes(*validity, *self_crossing, x)) && forall|x: int|
                0 <= x < i ==> #[trigger] hole_outer_passes(*outer_crossing, *outer_contains, x),
            PolygonTriangulationError::HolesIntersect(i, j, k) => i < j < h && holes_crossing.ensures((i, j), Some(k)) && (forall|x: int|
                0 <= x < h ==> #[trigger] hole_alone_passes(*validity, *self_crossing, x)) && (forall|x: int|
                0 <= x < h ==> #[trigger] hole_outer_passes(*outer_crossing, *outer_contains, x)) && pairs_pass_before(
                *holes_crossing,
                *hole_contains,
                h as int,
                i as int,
                j as int,
            ),
            PolygonTriangulationError::NestedHole(a, b) => a < h && b < h && a != b && hole_contains.ensures((b, a), true) && (forall|
                x: int,
            | 0 <= x < h ==> #[trigger] hole_alone_passes(*validity, *self_crossing, x)) && (forall|x: int|
                0 <= x < h ==> #[trigger] hole_outer_passes(*outer_crossing, *outer_contains, x)) && if a < b {
                holes_crossing.ensures((a, b), None) && pairs_pass_before(*holes_crossing, *hole_contains, h as int, a as int, b as int)
            } else {
                holes_crossing.ensures((b, a), None) && hole_contains.ensures((a, b), false) && pairs_pass_before(
                    *holes_crossing,
                    *hole_contains,
                    h as int,
                    b as int,
                    a as int,
                )
            },
            _ => false,
        },
{
    let mut i: usize = 0;
    while i < h
        invariant
            i <= h,
            forall|i: usize| i < h ==> validity.requires((i,)),
            forall|i: usize| i < h ==> self_crossing.requires((i,)),
            forall|k: int| 0 <= k < i ==> #[trigger] validity.ensures((k as usize,), PolygonBasicValidity::Valid),
            forall|k: int| 0 <= k < i ==> #[trigger] self_crossing.ensures((k as usize,), None),
        decreases h - i,
    {
        let v = validity(i);
        if v != PolygonBasicValidity::Valid {
            return Err(PolygonTriangulationError::InvalidHole(i, v));
        }
        let x = self_crossing(i);
        if let Some(found) = x {
            return Err(PolygonTriangulationError::HoleSelfIntersecting(i, found));
        }
        proof {
            assert(validity.ensures((((i as int) as usize),), PolygonBasicValidity::Valid));
            assert(self_crossing.ensures((((i as int) as usize),), None));
        }
        i += 1;
    }
    let mut i: usize = 0;
    while i < h
        invariant
            i <= h,
            forall|i: usize| i < h ==> outer_crossing.requires((i,)),
            forall|i: usize| i < h ==> outer_contains.requires((i,)),
            forall|k: int| 0 <= k < h ==> #[trigger] validity.ensures((k as usize,), PolygonBasicValidity::Valid),
            forall|k: int| 0 <= k < h ==> #[trigger] self_crossing.ensures((k as usize,), None),
            forall|k: int| 0 <= k < i ==> #[trigger] outer_crossing.ensures((k as usize,), None),
            forall|k: int| 0 <= k < i ==> #[trigger] outer_contains.ensures((k as usize,), true),
        decreases h - i,
    {
        let x = outer_crossing(i);
        match x {
            Some(kind) => {
                return Err(PolygonTriangulationError::HoleIntersectsOuter(i, kind));
            },
            None => {
                let c = outer_contains(i);
                if !c {
                    return Err(PolygonTriangulationError::HoleOutsideOuter(i));
                }
                proof {
                    assert(outer_crossing.ensures((((i as int) as usize),), None));
                    assert(outer_contains.ensures((((i as int) as usize),), true));
                }
            },
        }
        i += 1;
    }
    let mut i: usize = 0;
    while i < h
        invariant
            i <= h,
            forall|i: usize, j: usize| i < h && j < h ==> holes_crossing.requires((i, j)),
            forall|i: usize, j: usize| i < h && j < h ==> hole_contains.requires((i, j)),
            forall|k: int| 0 <= k < h ==> #[trigger] validity.ensures((k as usize,), PolygonBasicValidity::Valid),
            forall|k: int| 0 <= k < h ==> #[trigger] self_crossing.ensures((k as usize,), None),
            forall|k: int| 0 <= k < h ==> #[trigger] outer_crossing.ensures((k as usize,), None),
            forall|k: int| 0 <= k < h ==> #[trigger] outer_contains.ensures((k as usize,), true),
            forall|a: int, b: int| 0 <= a < i && a < b < h ==> #[trigger] holes_crossing.ensures((a as usize, b as usize), None),
            forall|a: int, b: int|
                0 <= a < i && a < b < h ==> #[trigger] hole_contains.ensures((b as usize, a as usize), false) && hole_contains.ensures(
                    (a as usize, b as usize),
                    false,
                ),
        decreases h - i,
    {
        let mut j: usize = i + 1;
        while j < h
            invariant
                i < h,
                i + 1 <= j <= h,
                forall|k: int| 0 <= k < h ==> #[trigger] validity.ensures((k as usize,), PolygonBasicValidity::Valid),
                forall|k: int| 0 <= k < h ==> #[trigger] self_crossing.ensures((k as usize,), None),
                forall|k: int| 0 <= k < h ==> #[trigger] outer_crossing.ensures((k as usize,), None),
                forall|k: int| 0 <= k < h ==> #[trigger] outer_contains.ensures((k as usize,), true),
                forall|i: usize, j: usize| i < h && j < h ==> holes_crossing.requires((i, j)),
                forall|i: usize, j: usize| i < h && j < h ==> hole_contains.requires((i, j)),
                forall|a: int, b: int| 0 <= a < i && a < b < h ==> #[trigger] holes_crossing.ensures((a as usize, b as usize), None),
                forall|a: int, b: int|
                    0 <= a < i && a < b < h ==> #[trigger] hole_contains.ensures((b as usize, a as usize), false) && hole_contains.ensures(
                        (a as usize, b as usize),
                        false,
                    ),
                forall|b: int| i < b < j ==> #[trigger] holes_crossing.ensures((i, b as usize), None),
                forall|b: int| i < b < j ==> #[trigger] hole_contains.ensures((b as usize, i), false) && hole_contains.ensures((i, b as usize), false),
            decreases h - j,
        {
            let x = holes_crossing(i, j);
            match x {
                Some(kind) => {
                    return Err(PolygonTriangulationError::HolesIntersect(i, j, kind));
                },
                None => {
                    proof {
                        assert forall|a: int, b: int| 0 <= a < i && a < b < h implies #[trigger] hole_pair_passes(
                            *holes_crossing,
                            *hole_contains,
                            a,
                            b,
                        ) by {
                            assert(holes_crossing.ensures((a as usize, b as usize), None));
                            assert(hole_contains.ensures((b as usize, a as usize), false));
                        }
                        assert forall|b: int| i < b < j implies #[trigger] hole_pair_passes(
                            *holes_crossing,
                            *hole_contains,
                            i as int,
                            b,
                        ) by {
                            assert(((i as int) as usize) == i);
                            assert(holes_crossing.ensures((i, b as usize), None));
                            assert(hole_contains.ensures((b as usize, i), false));
                        }
                        assert(pairs_pass_before(*holes_crossing, *hole_contains, h as int, i as int, j as int));
                    }
                    let j_holds_i = hole_contains(j, i);
                    if j_holds_i {
                        return Err(PolygonTriangulationError::NestedHole(i, j));
                    }
                    let i_holds_j = hole_contains(i, j);
                    if i_holds_j {
                        return Err(PolygonTriangulationError::NestedHole(j, i));
                    }
                    proof {
                        assert(holes_crossing.ensures((i, ((j as int) as usize)), None));
                        assert(hole_contains.ensures((((j as int) as usize), i), false));
                        assert(hole_contains.ensures((i, ((j as int) as usize)), false));
                        assert forall|b: int| i < b < j + 1 implies #[trigger] hole_contains.ensures((b as usize, i), false)
                            && hole_contains.ensures((i, b as usize), false) by {
                            if b == j {
                                assert(hole_contains.ensures((((j as int) as usize), i), false));
                            }
                        }
                    }
                },
            }
            j += 1;
        }
        proof {
            assert forall|a: int, b: int| 0 <= a < i + 1 && a < b < h implies #[trigger] holes_crossing.ensures((a as usize, b as usize), None) by {
                if a == i {
                    assert(holes_crossing.ensures((i, b as usize), None));
                }
            }
            assert forall|a: int, b: int| 0 <= a < i + 1 && a < b < h implies #[trigger] hole_contains.ensures((b as usize, a as usize), false)
                && hole_contains.ensures((a as usize, b as usize), false) by {
                if a == i {
                    assert(hole_contains.ensures((b as usize, i), false));
                }
            }
        }
        i += 1;
    }
    Ok(())
}

} // verus!
