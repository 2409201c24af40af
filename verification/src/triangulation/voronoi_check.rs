use vstd::prelude::*;

use super::groups::{group_key, group_key_of, has_face};
use super::keys::{compare_keys, lex_lt};
use super::topology::{face_index, lemma_edge_faces_contain_edge, lemma_well_formed_edge_bound, Triangulation2};
use super::voronoi::{
    lemma_first_face_present, dual_edge_of, has_dual, key_pair_lt, spec_edge_key, VoronoiCellId, VoronoiEdge, VoronoiEdgeId, VoronoiEdgeKind,
    VoronoiVertexId,
};
use crate::ids::{EdgeId, FaceId};

verus! {

/// A structural invariant violated by a Voronoi diagram's tables.
#[derive(Debug, Clone, Copy, PartialEq, Eq)]
pub enum VoronoiTopologyError {
    /// A face's group and the group's face list disagree.
    FaceGroupNotInverse {
        /// The face whose membership is inconsistent.
        face: FaceId,
    },
    /// The groups are not in strictly increasing key order here.
    GroupsNotCanonicallyOrdered {
        /// The index at which the order breaks.
        at: usize,
    },
    /// The edges are not in strictly increasing key order here.
    EdgesNotCanonicallyOrdered {
        /// The index at which the order breaks.
        at: usize,
    },
    /// A Delaunay edge that should have a dual has none.
    MissingVoronoiEdge {
        /// The Delaunay edge with no dual.
        source_edge: EdgeId,
    },
    /// The first edge naming this Delaunay edge as its source is not its
    /// dual, or the Delaunay edge should have no dual.
    EdgeMismatch {
        /// The Delaunay edge whose dual is wrong.
        source_edge: EdgeId,
    },
    /// An edge's two cells are the same cell.
    NonDistinctEdgeCells {
        /// The offending edge.
        edge: VoronoiEdgeId,
    },
    /// A bounded edge's two vertices are the same vertex.
    NonDistinctBoundedVertices {
        /// The offending edge.
        edge: VoronoiEdgeId,
    },
    /// An unbounded edge's source is not a boundary edge.
    UnboundedEdgeNotHullDual {
        /// The offending edge.
        edge: VoronoiEdgeId,
    },
    /// A face is listed twice in one group.
    DuplicateFaceInGroup {
        /// The group with the duplicate.
        vertex: VoronoiVertexId,
        /// The duplicated face.
        face: FaceId,
    },
}

/// `r` reports a [`VoronoiTopologyError::FaceGroupNotInverse`].
pub open spec fn reports_not_inverse(r: Seq<VoronoiTopologyError>) -> bool {
    exists|j: int| 0 <= j < r.len() && #[trigger] r[j] is FaceGroupNotInverse
}

/// `r` reports a [`VoronoiTopologyError::GroupsNotCanonicallyOrdered`].
pub open spec fn reports_groups_unordered(r: Seq<VoronoiTopologyError>) -> bool {
    exists|j: int| 0 <= j < r.len() && #[trigger] r[j] is GroupsNotCanonicallyOrdered
}

/// `r` reports a [`VoronoiTopologyError::EdgesNotCanonicallyOrdered`].
pub open spec fn reports_edges_unordered(r: Seq<VoronoiTopologyError>) -> bool {
    exists|j: int| 0 <= j < r.len() && #[trigger] r[j] is EdgesNotCanonicallyOrdered
}

/// `r` reports a [`VoronoiTopologyError::MissingVoronoiEdge`].
pub open spec fn reports_missing(r: Seq<VoronoiTopologyError>) -> bool {
    exists|j: int| 0 <= j < r.len() && #[trigger] r[j] is MissingVoronoiEdge
}

/// `r` reports a [`VoronoiTopologyError::EdgeMismatch`].
pub open spec fn reports_mismatch(r: Seq<VoronoiTopologyError>) -> bool {
    exists|j: int| 0 <= j < r.len() && #[trigger] r[j] is EdgeMismatch
}

/// `r` reports a [`VoronoiTopologyError::NonDistinctEdgeCells`].
pub open spec fn reports_same_cells(r: Seq<VoronoiTopologyError>) -> bool {
    exists|j: int| 0 <= j < r.len() && #[trigger] r[j] is NonDistinctEdgeCells
}

/// `r` reports a [`VoronoiTopologyError::NonDistinctBoundedVertices`].
pub open spec fn reports_same_vertices(r: Seq<VoronoiTopologyError>) -> bool {
    exists|j: int| 0 <= j < r.len() && #[trigger] r[j] is NonDistinctBoundedVertices
}

/// `r` reports a [`VoronoiTopologyError::UnboundedEdgeNotHullDual`].
pub open spec fn reports_ray_not_hull(r: Seq<VoronoiTopologyError>) -> bool {
    exists|j: int| 0 <= j < r.len() && #[trigger] r[j] is UnboundedEdgeNotHullDual
}

/// `r` reports a [`VoronoiTopologyError::DuplicateFaceInGroup`].
pub open spec fn reports_duplicate(r: Seq<VoronoiTopologyError>) -> bool {
    exists|j: int| 0 <= j < r.len() && #[trigger] r[j] is DuplicateFaceInGroup
}

/// Some element of `a + b` satisfies `p` exactly when one of `a`, `b` has
/// one.
proof fn lemma_some_concat(a: Seq<VoronoiTopologyError>, b: Seq<VoronoiTopologyError>, p: spec_fn(VoronoiTopologyError) -> bool)
    ensures
        (exists|j: int| 0 <= j < (a + b).len() && p(#[trigger] (a + b)[j])) == ((exists|j: int| 0 <= j < a.len() && p(#[trigger] a[j]))
            || (exists|j: int| 0 <= j < b.len() && p(#[trigger] b[j]))),
{
    let s = a + b;
    if exists|j: int| 0 <= j < s.len() && p(#[trigger] s[j]) {
        let j = choose|j: int| 0 <= j < s.len() && p(#[trigger] s[j]);
        if j < a.len() {
            assert(s[j] == a[j]);
        } else {
            assert(s[j] == b[j - a.len()]);
        }
    }
    if exists|j: int| 0 <= j < a.len() && p(#[trigger] a[j]) {
        let j = choose|j: int| 0 <= j < a.len() && p(#[trigger] a[j]);
        assert(s[j] == a[j]);
    }
    if exists|j: int| 0 <= j < b.len() && p(#[trigger] b[j]) {
        let j = choose|j: int| 0 <= j < b.len() && p(#[trigger] b[j]);
        assert(s[a.len() + j] == b[j]);
    }
}

/// Concatenated reports report a kind exactly when one part does.
proof fn lemma_reports_concat(a: Seq<VoronoiTopologyError>, b: Seq<VoronoiTopologyError>)
    ensures
        reports_not_inverse(a + b) == (reports_not_inverse(a) || reports_not_inverse(b)),
        reports_groups_unordered(a + b) == (reports_groups_unordered(a) || reports_groups_unordered(b)),
        reports_edges_unordered(a + b) == (reports_edges_unordered(a) || reports_edges_unordered(b)),
        reports_missing(a + b) == (reports_missing(a) || reports_missing(b)),
        reports_mismatch(a + b) == (reports_mismatch(a) || reports_mismatch(b)),
        reports_same_cells(a + b) == (reports_same_cells(a) || reports_same_cells(b)),
        reports_same_vertices(a + b) == (reports_same_vertices(a) || reports_same_vertices(b)),
        reports_ray_not_hull(a + b) == (reports_ray_not_hull(a) || reports_ray_not_hull(b)),
        reports_duplicate(a + b) == (reports_duplicate(a) || reports_duplicate(b)),
{
    lemma_some_concat(a, b, |e: VoronoiTopologyError| e is FaceGroupNotInverse);
    lemma_some_concat(a, b, |e: VoronoiTopologyError| e is GroupsNotCanonicallyOrdered);
    lemma_some_concat(a, b, |e: VoronoiTopologyError| e is EdgesNotCanonicallyOrdered);
    lemma_some_concat(a, b, |e: VoronoiTopologyError| e is MissingVoronoiEdge);
    lemma_some_concat(a, b, |e: VoronoiTopologyError| e is EdgeMismatch);
    lemma_some_concat(a, b, |e: VoronoiTopologyError| e is NonDistinctEdgeCells);
    lemma_some_concat(a, b, |e: VoronoiTopologyError| e is NonDistinctBoundedVertices);
    lemma_some_concat(a, b, |e: VoronoiTopologyError| e is UnboundedEdgeNotHullDual);
    lemma_some_concat(a, b, |e: VoronoiTopologyError| e is DuplicateFaceInGroup);
}

/// Appending one report adds only its own kind.
proof fn lemma_reports_push(r: Seq<VoronoiTopologyError>, y: VoronoiTopologyError)
    ensures
        reports_not_inverse(r.push(y)) == (reports_not_inverse(r) || y is FaceGroupNotInverse),
        reports_groups_unordered(r.push(y)) == (reports_groups_unordered(r) || y is GroupsNotCanonicallyOrdered),
        reports_edges_unordered(r.push(y)) == (reports_edges_unordered(r) || y is EdgesNotCanonicallyOrdered),
        reports_missing(r.push(y)) == (reports_missing(r) || y is MissingVoronoiEdge),
        reports_mismatch(r.push(y)) == (reports_mismatch(r) || y is EdgeMismatch),
        reports_same_cells(r.push(y)) == (reports_same_cells(r) || y is NonDistinctEdgeCells),
        reports_same_vertices(r.push(y)) == (reports_same_vertices(r) || y is NonDistinctBoundedVertices),
        reports_ray_not_hull(r.push(y)) == (reports_ray_not_hull(r) || y is UnboundedEdgeNotHullDual),
        reports_duplicate(r.push(y)) == (reports_duplicate(r) || y is DuplicateFaceInGroup),
{
    lemma_reports_concat(r, seq![y]);
    assert(r.push(y) =~= r + seq![y]);
    assert(seq![y][0] == y);
}

/// The tables can be indexed as the checks need: every face has a group
/// in range, every listed face and every source edge exists, and the
/// group and edge counts fit their handles.
pub open spec fn tables_indexable<P>(
    t: &Triangulation2<P>,
    face_group: Seq<VoronoiVertexId>,
    group_faces: Seq<Seq<FaceId>>,
    edges: Seq<VoronoiEdge>,
) -> bool {
    &&& face_group.len() == t.spec_faces().len()
    &&& forall|f: int| 0 <= f < face_group.len() ==> (#[trigger] face_group[f]).0 < group_faces.len()
    &&& forall|i: int, a: int|
        0 <= i < group_faces.len() && 0 <= a < group_faces[i].len() ==> (#[trigger] group_faces[i][a]).0
            < t.spec_faces().len()
    &&& forall|j: int| 0 <= j < edges.len() ==> (#[trigger] edges[j]).source_edge.0 < t.spec_edges().len()
    &&& group_faces.len() <= u32::MAX
    &&& edges.len() <= u32::MAX
}

/// Each face's group lists it, and each listed face names its group.
pub open spec fn groups_inverse(face_group: Seq<VoronoiVertexId>, group_faces: Seq<Seq<FaceId>>) -> bool {
    &&& forall|i: int, a: int|
        0 <= i < group_faces.len() && 0 <= a < group_faces[i].len() ==> face_group[(#[trigger] group_faces[i][a]).0 as int].0
            == i
    &&& forall|f: int| 0 <= f < face_group.len() ==> has_face(group_faces[(#[trigger] face_group[f]).0 as int], f)
}

/// Consecutive groups have strictly increasing keys.
pub open spec fn groups_strictly_ordered<P>(t: &Triangulation2<P>, group_faces: Seq<Seq<FaceId>>) -> bool {
    forall|i: int|
        0 <= i < group_faces.len() - 1 ==> lex_lt(
            group_key_of(t, #[trigger] group_faces[i]),
            group_key_of(t, group_faces[i + 1]),
        )
}

/// Consecutive edges have strictly increasing keys.
pub open spec fn edges_strictly_ordered(edges: Seq<VoronoiEdge>) -> bool {
    forall|j: int| 0 <= j < edges.len() - 1 ==> key_pair_lt(spec_edge_key((#[trigger] edges[j]).cells), spec_edge_key(edges[j + 1].cells))
}

/// The first edge at or after `j` whose source is Delaunay edge `e`.
pub open spec fn first_with_source(edges: Seq<VoronoiEdge>, e: int, j: int) -> Option<int>
    decreases edges.len() - j,
{
    if j < 0 || j >= edges.len() {
        None
    } else if edges[j].source_edge.0 == e {
        Some(j)
    } else {
        first_with_source(edges, e, j + 1)
    }
}

/// Delaunay edge `e` should have a dual and no edge names it.
pub open spec fn dual_missing<P>(t: &Triangulation2<P>, face_group: Seq<VoronoiVertexId>, edges: Seq<VoronoiEdge>, e: int) -> bool {
    has_dual(t, face_group, e) && first_with_source(edges, e, 0) is None
}

/// The first edge naming Delaunay edge `e` is not its dual.
pub open spec fn dual_mismatch<P>(t: &Triangulation2<P>, face_group: Seq<VoronoiVertexId>, edges: Seq<VoronoiEdge>, e: int) -> bool {
    match first_with_source(edges, e, 0) {
        Some(j) => !has_dual(t, face_group, e) || !dual_edge_of(t, face_group, e, edges[j]),
        None => false,
    }
}

/// Some group lists a face twice.
pub open spec fn has_duplicate_face(group_faces: Seq<Seq<FaceId>>) -> bool {
    exists|i: int, a: int, b: int|
        0 <= i < group_faces.len() && 0 <= a < b < group_faces[i].len() && #[trigger] group_faces[i][a]
            == #[trigger] group_faces[i][b]
}

/// Some edge separates a cell from itself.
pub open spec fn has_same_cells(edges: Seq<VoronoiEdge>) -> bool {
    exists|j: int| 0 <= j < edges.len() && (#[trigger] edges[j]).cells[0] == edges[j].cells[1]
}

/// `kind` is a bounded edge joining a vertex to itself.
pub open spec fn is_loop_segment(kind: VoronoiEdgeKind) -> bool {
    kind matches VoronoiEdgeKind::Bounded { vertices } && vertices[0] == vertices[1]
}

/// Some bounded edge joins a vertex to itself.
pub open spec fn has_same_vertices(edges: Seq<VoronoiEdge>) -> bool {
    exists|j: int| 0 <= j < edges.len() && is_loop_segment((#[trigger] edges[j]).kind)
}

/// Some ray's source is not a boundary edge.
pub open spec fn has_ray_off_hull<P>(t: &Triangulation2<P>, edges: Seq<VoronoiEdge>) -> bool {
    exists|j: int|
        0 <= j < edges.len() && (#[trigger] edges[j]).kind is Unbounded && t.spec_edge_faces()[edges[j].source_edge.0 as int][1] is Some
}

/// The face-group inverse check: a report for each listed face that does
/// not name its group, then for each face its group does not list.
/// The inverse reports within group `i`, `g`, over its first `a` faces:
/// one for each face whose group is not `i`.
pub open spec fn inverse_in_group(face_group: Seq<VoronoiVertexId>, g: Seq<FaceId>, i: int, a: int) -> Seq<VoronoiTopologyError>
    decreases a,
{
    if a <= 0 {
        Seq::empty()
    } else {
        inverse_in_group(face_group, g, i, a - 1) + if face_group[g[a - 1].0 as int].0 != i {
            seq![VoronoiTopologyError::FaceGroupNotInverse { face: g[a - 1] }]
        } else {
            Seq::empty()
        }
    }
}

/// The inverse reports over the first `k` groups.
pub open spec fn inverse_group_reports(face_group: Seq<VoronoiVertexId>, gf: Seq<Seq<FaceId>>, k: int) -> Seq<VoronoiTopologyError>
    decreases k,
{
    if k <= 0 {
        Seq::empty()
    } else {
        inverse_group_reports(face_group, gf, k - 1) + inverse_in_group(face_group, gf[k - 1], k - 1, gf[k - 1].len() as int)
    }
}

/// The inverse reports over the first `k` faces: one for each face that
/// its group does not list.
pub open spec fn inverse_face_reports(face_group: Seq<VoronoiVertexId>, gf: Seq<Seq<FaceId>>, k: int) -> Seq<VoronoiTopologyError>
    decreases k,
{
    if k <= 0 {
        Seq::empty()
    } else {
        inverse_face_reports(face_group, gf, k - 1) + if has_face(gf[face_group[k - 1].0 as int], k - 1) {
            Seq::empty()
        } else {
            seq![VoronoiTopologyError::FaceGroupNotInverse { face: FaceId((k - 1) as u32) }]
        }
    }
}

fn check_inverse(face_group: &Vec<VoronoiVertexId>, group_faces: &Vec<Vec<FaceId>>, n: usize) -> (r: Vec<VoronoiTopologyError>)
    requires
        face_group.len() == n,
        forall|f: int| 0 <= f < n ==> (#[trigger] face_group[f]).0 < group_faces.len(),
        forall|i: int, a: int|
            0 <= i < group_faces.len() && 0 <= a < group_faces[i]@.len() ==> (#[trigger] group_faces[i]@[a]).0 < n,
    ensures
        forall|j: int| 0 <= j < r.len() ==> #[trigger] r[j] is FaceGroupNotInverse,
        r.len() == 0 <==> groups_inverse(face_group@, group_faces@.map_values(|g: Vec<FaceId>| g@)),
        r@ == inverse_group_reports(face_group@, group_faces@.map_values(|g: Vec<FaceId>| g@), group_faces.len() as int)
            + inverse_face_reports(face_group@, group_faces@.map_values(|g: Vec<FaceId>| g@), n as int),
{
    let ghost gf = group_faces@.map_values(|g: Vec<FaceId>| g@);
    let mut r: Vec<VoronoiTopologyError> = Vec::new();
    let mut i: usize = 0;
    while i < group_faces.len()
        invariant
            gf == group_faces@.map_values(|g: Vec<FaceId>| g@),
            face_group.len() == n,
            forall|i: int, a: int|
                0 <= i < group_faces.len() && 0 <= a < group_faces[i]@.len() ==> (#[trigger] group_faces[i]@[a]).0 < n,
            i <= group_faces.len(),
            forall|j: int| 0 <= j < r.len() ==> #[trigger] r[j] is FaceGroupNotInverse,
            r.len() == 0 <==> forall|k: int, a: int|
                0 <= k < i && 0 <= a < gf[k].len() ==> face_group[(#[trigger] gf[k][a]).0 as int].0 == k,
            r@ == inverse_group_reports(face_group@, gf, i as int),
        decreases group_faces.len() - i,
    {
        let mut a: usize = 0;
        let ghost r_before = r@;
        while a < group_faces[i].len()
            invariant
                gf == group_faces@.map_values(|g: Vec<FaceId>| g@),
                face_group.len() == n,
                forall|i: int, a: int|
                    0 <= i < group_faces.len() && 0 <= a < group_faces[i]@.len() ==> (#[trigger] group_faces[i]@[a]).0 < n,
                i < group_faces.len(),
                a <= group_faces[i as int]@.len(),
                forall|j: int| 0 <= j < r.len() ==> #[trigger] r[j] is FaceGroupNotInverse,
                r.len() == 0 <==> (r_before.len() == 0 && forall|b: int|
                    0 <= b < a ==> face_group[(#[trigger] gf[i as int][b]).0 as int].0 == i),
                gf[i as int] == group_faces[i as int]@,
                r@ == r_before + inverse_in_group(face_group@, gf[i as int], i as int, a as int),
            decreases group_faces[i as int]@.len() - a,
        {
            let f = group_faces[i][a];
            proof {
                assert(gf[i as int] == group_faces[i as int]@);
            }
            if face_group[f.0 as usize].0 as usize != i {
                r.push(VoronoiTopologyError::FaceGroupNotInverse { face: f });
            }
            proof {
                assert(r@ =~= r_before + inverse_in_group(face_group@, gf[i as int], i as int, a + 1));
            }
            a += 1;
        }
        proof {
            assert(r@ =~= inverse_group_reports(face_group@, gf, i + 1));
            assert(gf[i as int] == group_faces[i as int]@);
            if r.len() == 0 {
                assert forall|k: int, b: int| 0 <= k < i + 1 && 0 <= b < gf[k].len() implies face_group[(#[trigger] gf[k][b]).0 as int].0 == k by {
                    if k == i {
                        assert(face_group[(gf[i as int][b]).0 as int].0 == i);
                    }
                }
            } else if r_before.len() == 0 {
                let b = choose|b: int| 0 <= b < group_faces[i as int]@.len() && face_group[(#[trigger] gf[i as int][b]).0 as int].0 != i;
                assert(!(forall|k: int, b: int| 0 <= k < i + 1 && 0 <= b < gf[k].len() ==> face_group[(#[trigger] gf[k][b]).0 as int].0 == k));
            }
        }
        i += 1;
    }
    let ghost r_mid = r@;
    let mut f: usize = 0;
    while f < n
        invariant
            gf == group_faces@.map_values(|g: Vec<FaceId>| g@),
            face_group.len() == n,
            forall|f: int| 0 <= f < n ==> (#[trigger] face_group[f]).0 < group_faces.len(),
            f <= n,
            forall|j: int| 0 <= j < r.len() ==> #[trigger] r[j] is FaceGroupNotInverse,
            r.len() == 0 <==> (r_mid.len() == 0 && forall|x: int| 0 <= x < f ==> has_face(gf[(#[trigger] face_group[x]).0 as int], x)),
            r@ == r_mid + inverse_face_reports(face_group@, gf, f as int),
            r_mid == inverse_group_reports(face_group@, gf, group_faces.len() as int),
        decreases n - f,
    {
        let g = face_group[f].0 as usize;
        let mut found = false;
        let mut a: usize = 0;
        while a < group_faces[g].len()
            invariant
                gf == group_faces@.map_values(|g: Vec<FaceId>| g@),
                g < group_faces.len(),
                a <= group_faces[g as int]@.len(),
                found <==> exists|b: int| 0 <= b < a && (#[trigger] group_faces[g as int]@[b]).0 == f,
            decreases group_faces[g as int]@.len() - a,
        {
            if group_faces[g][a].0 as usize == f {
                found = true;
            }
            a += 1;
        }
        proof {
            assert(gf[g as int] == group_faces[g as int]@);
            if found {
                let b = choose|b: int| 0 <= b < a && (#[trigger] group_faces[g as int]@[b]).0 == f;
                assert(gf[g as int][b].0 == f);
            }
        }
        proof {
            assert(found == has_face(gf[face_group[f as int].0 as int], f as int));
        }
        if !found {
            r.push(VoronoiTopologyError::FaceGroupNotInverse { face: FaceId(f as u32) });
        }
        proof {
            assert(r@ =~= r_mid + inverse_face_reports(face_group@, gf, f + 1));
            if r.len() == 0 {
                assert forall|x: int| 0 <= x < f + 1 implies has_face(gf[(#[trigger] face_group[x]).0 as int], x) by {
                    if x == f {
                        assert(found);
                    }
                }
            } else if r_mid.len() == 0 && !found {
                assert(!has_face(gf[(face_group[f as int]).0 as int], f as int));
            }
        }
        f += 1;
    }
    r
}

/// The group order check: a report at each position where a group's key
/// is not strictly below the next group's.
fn check_group_order<P>(t: &Triangulation2<P>, group_faces: &Vec<Vec<FaceId>>) -> (r: Vec<VoronoiTopologyError>)
    requires
        forall|i: int, a: int|
            0 <= i < group_faces.len() && 0 <= a < group_faces[i]@.len() ==> (#[trigger] group_faces[i]@[a]).0
                < t.spec_faces().len(),
    ensures
        forall|j: int| 0 <= j < r.len() ==> #[trigger] r[j] is GroupsNotCanonicallyOrdered,
        r.len() == 0 <==> groups_strictly_ordered(t, group_faces@.map_values(|g: Vec<FaceId>| g@)),
        r@ == group_order_reports(t, group_faces@.map_values(|g: Vec<FaceId>| g@), group_faces.len() as int),
{
    let ghost gf = group_faces@.map_values(|g: Vec<FaceId>| g@);
    let ng = group_faces.len();
    let mut keys: Vec<Vec<u32>> = Vec::new();
    let mut i: usize = 0;
    while i < ng
        invariant
            ng == group_faces.len(),
            gf == group_faces@.map_values(|g: Vec<FaceId>| g@),
            forall|i: int, a: int|
                0 <= i < group_faces.len() && 0 <= a < group_faces[i]@.len() ==> (#[trigger] group_faces[i]@[a]).0
                    < t.spec_faces().len(),
            i <= ng,
            keys.len() == i,
            forall|k: int| 0 <= k < i ==> (#[trigger] keys[k])@ == group_key_of(t, gf[k]),
        decreases ng - i,
    {
        let key = group_key(t, &group_faces[i]);
        proof {
            assert(gf[i as int] == group_faces[i as int]@);
        }
        keys.push(key);
        i += 1;
    }
    let mut r: Vec<VoronoiTopologyError> = Vec::new();
    let mut i: usize = 1;
    while i < ng
        invariant
            ng == group_faces.len() == keys.len(),
            gf == group_faces@.map_values(|g: Vec<FaceId>| g@),
            forall|k: int| 0 <= k < ng ==> (#[trigger] keys[k])@ == group_key_of(t, gf[k]),
            1 <= i,
            i <= ng || ng == 0,
            forall|j: int| 0 <= j < r.len() ==> #[trigger] r[j] is GroupsNotCanonicallyOrdered,
            r.len() == 0 <==> forall|k: int| 0 <= k < i - 1 && k < ng - 1 ==> lex_lt(
                group_key_of(t, #[trigger] gf[k]),
                group_key_of(t, gf[k + 1]),
            ),
            r@ == group_order_reports(t, gf, i as int),
        decreases ng - i,
    {
        let ghost r0 = r@;
        let (lt, _) = compare_keys(&keys[i - 1], &keys[i]);
        if !lt {
            r.push(VoronoiTopologyError::GroupsNotCanonicallyOrdered { at: i });
        }
        proof {
            assert(lt == lex_lt(group_key_of(t, gf[i - 1]), group_key_of(t, gf[i as int])));
            assert(r@ =~= group_order_reports(t, gf, i + 1));
            if r.len() == 0 {
                assert forall|k: int| 0 <= k < i && k < ng - 1 implies lex_lt(
                    group_key_of(t, #[trigger] gf[k]),
                    group_key_of(t, gf[k + 1]),
                ) by {
                    if k == i - 1 {
                        assert(lt);
                    }
                }
            } else if !lt {
                assert(!lex_lt(group_key_of(t, gf[i - 1]), group_key_of(t, gf[i as int])));
            }
        }
        i += 1;
    }
    r
}

/// The edge order check: a report at each position where an edge's key
/// is not strictly below the next edge's.
/// The edge-order reports over the first `k` edges: one at each position
/// `i` in `1..k` whose edge's key is not above the one before.
pub open spec fn edge_order_reports(edges: Seq<VoronoiEdge>, k: int) -> Seq<VoronoiTopologyError>
    decreases k,
{
    if k <= 1 {
        Seq::empty()
    } else {
        edge_order_reports(edges, k - 1) + if key_pair_lt(spec_edge_key(edges[k - 2].cells), spec_edge_key(edges[k - 1].cells)) {
            Seq::empty()
        } else {
            seq![VoronoiTopologyError::EdgesNotCanonicallyOrdered { at: (k - 1) as usize }]
        }
    }
}

/// The group-order reports over the first `k` groups: one at each
/// position `i` in `1..k` whose group's key is not above the one before.
pub open spec fn group_order_reports<P>(t: &Triangulation2<P>, gf: Seq<Seq<FaceId>>, k: int) -> Seq<VoronoiTopologyError>
    decreases k,
{
    if k <= 1 {
        Seq::empty()
    } else {
        group_order_reports(t, gf, k - 1) + if lex_lt(group_key_of(t, gf[k - 2]), group_key_of(t, gf[k - 1])) {
            Seq::empty()
        } else {
            seq![VoronoiTopologyError::GroupsNotCanonicallyOrdered { at: (k - 1) as usize }]
        }
    }
}

fn check_edge_order(edges: &Vec<VoronoiEdge>) -> (r: Vec<VoronoiTopologyError>)
    ensures
        forall|j: int| 0 <= j < r.len() ==> #[trigger] r[j] is EdgesNotCanonicallyOrdered,
        r.len() == 0 <==> edges_strictly_ordered(edges@),
        r@ == edge_order_reports(edges@, edges.len() as int),
{
    let mut r: Vec<VoronoiTopologyError> = Vec::new();
    let mut i: usize = 1;
    while i < edges.len()
        invariant
            1 <= i,
            i <= edges.len() || edges.len() == 0,
            forall|j: int| 0 <= j < r.len() ==> #[trigger] r[j] is EdgesNotCanonicallyOrdered,
            r.len() == 0 <==> forall|j: int| 0 <= j < i - 1 && j < edges.len() - 1 ==> key_pair_lt(
                spec_edge_key((#[trigger] edges@[j]).cells),
                spec_edge_key(edges@[j + 1].cells),
            ),
            r@ == edge_order_reports(edges@, i as int),
        decreases edges.len() - i,
    {
        let ghost r0 = r@;
        let ka = super::voronoi::edge_key(edges[i - 1].cells);
        let kb = super::voronoi::edge_key(edges[i].cells);
        let lt = ka[0] < kb[0] || (ka[0] == kb[0] && ka[1] < kb[1]);
        if !lt {
            r.push(VoronoiTopologyError::EdgesNotCanonicallyOrdered { at: i });
        }
        proof {
            assert(lt == key_pair_lt(spec_edge_key(edges@[i - 1].cells), spec_edge_key(edges@[i as int].cells)));
            assert(r@ =~= edge_order_reports(edges@, i + 1));
            if r.len() == 0 {
                assert forall|j: int| 0 <= j < i && j < edges.len() - 1 implies key_pair_lt(
                    spec_edge_key((#[trigger] edges@[j]).cells),
                    spec_edge_key(edges@[j + 1].cells),
                ) by {
                    if j == i - 1 {
                        assert(lt);
                    }
                }
            } else if !lt {
                assert(!key_pair_lt(spec_edge_key(edges@[i - 1].cells), spec_edge_key(edges@[i as int].cells)));
            }
        }
        i += 1;
    }
    r
}

/// The first edge whose source is Delaunay edge `e`, if any.
fn find_source(edges: &Vec<VoronoiEdge>, e: u32) -> (r: Option<usize>)
    ensures
        match r {
            Some(j) => first_with_source(edges@, e as int, 0) == Some(j as int) && j < edges.len()
                && edges@[j as int].source_edge.0 == e,
            None => first_with_source(edges@, e as int, 0) is None,
        },
{
    let mut j: usize = 0;
    while j < edges.len()
        invariant
            j <= edges.len(),
            first_with_source(edges@, e as int, 0) == first_with_source(edges@, e as int, j as int),
        decreases edges.len() - j,
    {
        if edges[j].source_edge.0 == e {
            return Some(j);
        }
        j += 1;
    }
    None
}

/// The dual check: for each Delaunay edge, a missing-dual report when it
/// should have a dual and no edge names it, and a mismatch report when
/// the first edge naming it is not its dual.
/// The dual reports over the first `k` Delaunay edges: for each, a
/// missing dual, or else a mismatched one.
pub open spec fn dual_reports<P>(
    t: &Triangulation2<P>,
    face_group: Seq<VoronoiVertexId>,
    edges: Seq<VoronoiEdge>,
    k: int,
) -> Seq<VoronoiTopologyError>
    decreases k,
{
    if k <= 0 {
        Seq::empty()
    } else {
        dual_reports(t, face_group, edges, k - 1) + if dual_missing(t, face_group, edges, k - 1) {
            seq![VoronoiTopologyError::MissingVoronoiEdge { source_edge: EdgeId((k - 1) as u32) }]
        } else if dual_mismatch(t, face_group, edges, k - 1) {
            seq![VoronoiTopologyError::EdgeMismatch { source_edge: EdgeId((k - 1) as u32) }]
        } else {
            Seq::empty()
        }
    }
}

fn check_duals<P>(t: &Triangulation2<P>, face_group: &Vec<VoronoiVertexId>, edges: &Vec<VoronoiEdge>) -> (r: Vec<VoronoiTopologyError>)
    requires
        face_group.len() == t.spec_faces().len(),
    ensures
        r@ == dual_reports(t, face_group@, edges@, t.spec_edges().len() as int),
        forall|j: int| 0 <= j < r.len() ==> #[trigger] r[j] is MissingVoronoiEdge || r[j] is EdgeMismatch,
        reports_missing(r@) <==> exists|e: int| 0 <= e < t.spec_edges().len() && #[trigger] dual_missing(t, face_group@, edges@, e),
        reports_mismatch(r@) <==> exists|e: int| 0 <= e < t.spec_edges().len() && #[trigger] dual_mismatch(t, face_group@, edges@, e),
{
    proof {
        use_type_invariant(t);
        lemma_well_formed_edge_bound(t.spec_faces(), t.spec_edges(), t.spec_edge_faces());
    }
    let m = t.edges().len();
    let mut r: Vec<VoronoiTopologyError> = Vec::new();
    let mut e: usize = 0;
    while e < m
        invariant
            t.well_formed(),
            m == t.spec_edges().len() <= u32::MAX,
            face_group.len() == t.spec_faces().len(),
            e <= m,
            forall|j: int| 0 <= j < r.len() ==> #[trigger] r[j] is MissingVoronoiEdge || r[j] is EdgeMismatch,
            reports_missing(r@) <==> exists|x: int| 0 <= x < e && #[trigger] dual_missing(t, face_group@, edges@, x),
            reports_mismatch(r@) <==> exists|x: int| 0 <= x < e && #[trigger] dual_mismatch(t, face_group@, edges@, x),
            r@ == dual_reports(t, face_group@, edges@, e as int),
        decreases m - e,
    {
        let id = EdgeId(e as u32);
        let uv = t.edge_vertices(id);
        let ef = t.adjacent_faces(id);
        proof {
            lemma_first_face_present(t, e as int);
            lemma_edge_faces_contain_edge(t.spec_faces(), t.spec_edges(), t.spec_edge_faces(), e as int, 0);
            if ef[1] is Some {
                lemma_edge_faces_contain_edge(t.spec_faces(), t.spec_edges(), t.spec_edge_faces(), e as int, 1);
            }
        }
        let f0 = match ef[0] {
            Some(f) => f,
            None => FaceId(0),
        };
        let g0 = face_group[f0.0 as usize];
        let (dual, g1) = match ef[1] {
            Some(f1) => {
                let g1 = face_group[f1.0 as usize];
                (g0 != g1, g1)
            },
            None => (true, g0),
        };
        proof {
            assert(dual == has_dual(t, face_group@, e as int));
        }
        let actual = find_source(edges, e as u32);
        let ghost r0 = r@;
        match actual {
            None => {
                if dual {
                    r.push(VoronoiTopologyError::MissingVoronoiEdge { source_edge: id });
                }
            },
            Some(j) => {
                let x = edges[j];
                let kind_ok = match x.kind {
                    VoronoiEdgeKind::Unbounded { finite_vertex } => ef[1].is_none() && finite_vertex == g0,
                    VoronoiEdgeKind::Bounded { vertices } => ef[1].is_some() && vertices[0] == g0 && vertices[1] == g1
                        && vertices[0] != vertices[1],
                };
                let ok = x.cells[0] == VoronoiCellId(uv.0) && x.cells[1] == VoronoiCellId(uv.1) && x.source_edge == id
                    && kind_ok;
                proof {
                    assert(ok == dual_edge_of(t, face_group@, e as int, edges@[j as int]));
                }
                if !dual || !ok {
                    r.push(VoronoiTopologyError::EdgeMismatch { source_edge: id });
                }
            },
        }
        proof {
            if r.len() > r0.len() {
                lemma_reports_push(r0, r@[r0.len() as int]);
                assert(r@ == r0.push(r@[r0.len() as int]));
            }
            let ex = e as int;
            assert(dual_missing(t, face_group@, edges@, ex) <==> (actual is None && dual));
            assert(dual_mismatch(t, face_group@, edges@, ex) <==> (actual is Some && r.len() > r0.len()));
            assert(r@ =~= dual_reports(t, face_group@, edges@, ex + 1));
            if reports_missing(r@) && r.len() == r0.len() {
                assert(r@ =~= r0);
            }
            if reports_mismatch(r@) && r.len() == r0.len() {
                assert(r@ =~= r0);
            }
            if exists|x: int| 0 <= x < e + 1 && #[trigger] dual_missing(t, face_group@, edges@, x) {
                let x = choose|x: int| 0 <= x < e + 1 && #[trigger] dual_missing(t, face_group@, edges@, x);
                if x < e {
                    assert(reports_missing(r0));
                    if r.len() == r0.len() {
                        assert(r@ =~= r0);
                    }
                }
            }
            if exists|x: int| 0 <= x < e + 1 && #[trigger] dual_mismatch(t, face_group@, edges@, x) {
                let x = choose|x: int| 0 <= x < e + 1 && #[trigger] dual_mismatch(t, face_group@, edges@, x);
                if x < e {
                    assert(reports_mismatch(r0));
                    if r.len() == r0.len() {
                        assert(r@ =~= r0);
                    }
                }
            }
        }
        e += 1;
    }
    r
}

/// The duplicate check: for each group, a report for each face listed
/// again after an earlier entry.
/// The duplicate reports within group `i`, `g`, over its first `b`
/// faces: one for each face that some earlier face of the group repeats.
pub open spec fn dup_in_group(g: Seq<FaceId>, i: int, b: int) -> Seq<VoronoiTopologyError>
    decreases b,
{
    if b <= 0 {
        Seq::empty()
    } else {
        dup_in_group(g, i, b - 1) + if exists|c: int| 0 <= c < b - 1 && #[trigger] g[c] == g[b - 1] {
            seq![VoronoiTopologyError::DuplicateFaceInGroup { vertex: VoronoiVertexId(i as u32), face: g[b - 1] }]
        } else {
            Seq::empty()
        }
    }
}

/// The duplicate reports over the first `k` groups.
pub open spec fn dup_reports(gf: Seq<Seq<FaceId>>, k: int) -> Seq<VoronoiTopologyError>
    decreases k,
{
    if k <= 0 {
        Seq::empty()
    } else {
        dup_reports(gf, k - 1) + dup_in_group(gf[k - 1], k - 1, gf[k - 1].len() as int)
    }
}

fn check_duplicates(group_faces: &Vec<Vec<FaceId>>) -> (r: Vec<VoronoiTopologyError>)
    requires
        group_faces.len() <= u32::MAX,
    ensures
        r@ == dup_reports(group_faces@.map_values(|g: Vec<FaceId>| g@), group_faces.len() as int),
        forall|j: int| 0 <= j < r.len() ==> #[trigger] r[j] is DuplicateFaceInGroup,
        r.len() == 0 <==> !has_duplicate_face(group_faces@.map_values(|g: Vec<FaceId>| g@)),
{
    let ghost gf = group_faces@.map_values(|g: Vec<FaceId>| g@);
    let mut r: Vec<VoronoiTopologyError> = Vec::new();
    let mut i: usize = 0;
    while i < group_faces.len()
        invariant
            group_faces.len() <= u32::MAX,
            gf == group_faces@.map_values(|g: Vec<FaceId>| g@),
            i <= group_faces.len(),
            forall|j: int| 0 <= j < r.len() ==> #[trigger] r[j] is DuplicateFaceInGroup,
            r.len() == 0 <==> !exists|k: int, a: int, b: int|
                0 <= k < i && 0 <= a < b < gf[k].len() && #[trigger] gf[k][a] == #[trigger] gf[k][b],
            r@ == dup_reports(gf, i as int),
        decreases group_faces.len() - i,
    {
        let ghost r_before = r@;
        let len = group_faces[i].len();
        proof {
            assert(gf[i as int] == group_faces[i as int]@);
        }
        let mut b: usize = 0;
        while b < len
            invariant
                gf == group_faces@.map_values(|g: Vec<FaceId>| g@),
                i < group_faces.len() <= u32::MAX,
                len == gf[i as int].len() == group_faces[i as int]@.len(),
                b <= len,
                forall|j: int| 0 <= j < r.len() ==> #[trigger] r[j] is DuplicateFaceInGroup,
                r.len() == 0 <==> (r_before.len() == 0 && !exists|a: int, c: int|
                    0 <= a < c < b && #[trigger] gf[i as int][a] == #[trigger] gf[i as int][c]),
                r@ == r_before + dup_in_group(gf[i as int], i as int, b as int),
            decreases len - b,
        {
            let fb = group_faces[i][b];
            let mut seen = false;
            let mut a: usize = 0;
            while a < b
                invariant
                    gf == group_faces@.map_values(|g: Vec<FaceId>| g@),
                    i < group_faces.len(),
                    len == gf[i as int].len() == group_faces[i as int]@.len(),
                    b < len,
                    fb == gf[i as int][b as int],
                    a <= b,
                    seen <==> exists|c: int| 0 <= c < a && #[trigger] gf[i as int][c] == fb,
                decreases b - a,
            {
                if group_faces[i][a] == fb {
                    proof {
                        assert(gf[i as int][a as int] == fb);
                    }
                    seen = true;
                }
                a += 1;
            }
            if seen {
                r.push(VoronoiTopologyError::DuplicateFaceInGroup { vertex: VoronoiVertexId(i as u32), face: fb });
            }
            proof {
                assert(seen == exists|c: int| 0 <= c < b && #[trigger] gf[i as int][c] == gf[i as int][b as int]);
                assert(r@ =~= r_before + dup_in_group(gf[i as int], i as int, b + 1));
                if r.len() == 0 {
                    assert(!seen);
                    assert forall|a: int, c: int| 0 <= a < c < b + 1 implies !(#[trigger] gf[i as int][a] == #[trigger] gf[i as int][c]) by {
                        if c == b {
                            if gf[i as int][a] == gf[i as int][c] {
                                assert(gf[i as int][a] == fb);
                            }
                        }
                    }
                } else if r_before.len() == 0 && seen {
                    let c = choose|c: int| 0 <= c < b && #[trigger] gf[i as int][c] == fb;
                    assert(gf[i as int][c] == gf[i as int][b as int]);
                }
            }
            b += 1;
        }
        proof {
            assert(r@ =~= dup_reports(gf, i + 1));
            if r.len() == 0 {
                assert forall|k: int, a: int, c: int| 0 <= k < i + 1 && 0 <= a < c < gf[k].len() implies !(#[trigger] gf[k][a] == #[trigger] gf[k][c]) by {
                    if k == i {
                        assert(!(gf[i as int][a] == gf[i as int][c]));
                    }
                }
            } else if r_before.len() == 0 {
                let (a, c) = choose|a: int, c: int| 0 <= a < c < len && #[trigger] gf[i as int][a] == #[trigger] gf[i as int][c];
                assert(gf[i as int][a] == gf[i as int][c]);
            }
        }
        i += 1;
    }
    r
}

/// The reports of the per-edge check for edge `j`, `x`: its cells, its
/// segment ends, its ray's source, in this order.
pub open spec fn edge_reports<P>(t: &Triangulation2<P>, x: VoronoiEdge, j: int) -> Seq<VoronoiTopologyError> {
    let id = VoronoiEdgeId(j as u32);
    (if x.cells[0] == x.cells[1] {
        seq![VoronoiTopologyError::NonDistinctEdgeCells { edge: id }]
    } else {
        Seq::empty()
    }) + (if is_loop_segment(x.kind) {
        seq![VoronoiTopologyError::NonDistinctBoundedVertices { edge: id }]
    } else {
        Seq::empty()
    }) + (if x.kind is Unbounded && t.spec_edge_faces()[x.source_edge.0 as int][1] is Some {
        seq![VoronoiTopologyError::UnboundedEdgeNotHullDual { edge: id }]
    } else {
        Seq::empty()
    })
}

/// The reports of the per-edge check over the first `k` edges.
pub open spec fn edge_reports_upto<P>(t: &Triangulation2<P>, edges: Seq<VoronoiEdge>, k: int) -> Seq<VoronoiTopologyError>
    decreases k,
{
    if k <= 0 {
        Seq::empty()
    } else {
        edge_reports_upto(t, edges, k - 1) + edge_reports(t, edges[k - 1], k - 1)
    }
}

/// The per-edge check: for each edge, a report when its two cells are
/// the same, when it is a segment with the same vertex at both ends, and
/// when it is a ray whose source is not a boundary edge.
fn check_edges<P>(t: &Triangulation2<P>, edges: &Vec<VoronoiEdge>) -> (r: Vec<VoronoiTopologyError>)
    requires
        edges.len() <= u32::MAX,
        forall|j: int| 0 <= j < edges.len() ==> (#[trigger] edges[j]).source_edge.0 < t.spec_edges().len(),
    ensures
        forall|j: int|
            0 <= j < r.len() ==> #[trigger] r[j] is NonDistinctEdgeCells || r[j] is NonDistinctBoundedVertices
                || r[j] is UnboundedEdgeNotHullDual,
        reports_same_cells(r@) <==> has_same_cells(edges@),
        reports_same_vertices(r@) <==> has_same_vertices(edges@),
        reports_ray_not_hull(r@) <==> has_ray_off_hull(t, edges@),
        r@ == edge_reports_upto(t, edges@, edges.len() as int),
{
    proof {
        use_type_invariant(t);
    }
    let mut r: Vec<VoronoiTopologyError> = Vec::new();
    let mut j: usize = 0;
    while j < edges.len()
        invariant
            t.well_formed(),
            edges.len() <= u32::MAX,
            forall|j: int| 0 <= j < edges.len() ==> (#[trigger] edges[j]).source_edge.0 < t.spec_edges().len(),
            j <= edges.len(),
            forall|k: int|
                0 <= k < r.len() ==> #[trigger] r[k] is NonDistinctEdgeCells || r[k] is NonDistinctBoundedVertices
                    || r[k] is UnboundedEdgeNotHullDual,
            reports_same_cells(r@) <==> has_same_cells(edges@.take(j as int)),
            reports_same_vertices(r@) <==> has_same_vertices(edges@.take(j as int)),
            reports_ray_not_hull(r@) <==> has_ray_off_hull(t, edges@.take(j as int)),
            r@ == edge_reports_upto(t, edges@, j as int),
        decreases edges.len() - j,
    {
        let x = edges[j];
        let id = VoronoiEdgeId(j as u32);
        let ghost r0 = r@;
        let ghost pre = edges@.take(j as int);
        let ghost post = edges@.take(j + 1);
        proof {
            assert(post =~= pre.push(x));
        }
        let same_cells = x.cells[0] == x.cells[1];
        if same_cells {
            r.push(VoronoiTopologyError::NonDistinctEdgeCells { edge: id });
        }
        let ghost r1 = r@;
        let mut same_vertices = false;
        let mut off_hull = false;
        match x.kind {
            VoronoiEdgeKind::Bounded { vertices } => {
                if vertices[0] == vertices[1] {
                    same_vertices = true;
                    r.push(VoronoiTopologyError::NonDistinctBoundedVertices { edge: id });
                }
            },
            VoronoiEdgeKind::Unbounded { .. } => {
                let ef = t.adjacent_faces(x.source_edge);
                let is_hull_edge = match (ef[0], ef[1]) {
                    (Some(_), None) => true,
                    (None, Some(_)) => true,
                    _ => false,
                };
                proof {
                    lemma_first_face_present(t, x.source_edge.0 as int);
                }
                if !is_hull_edge {
                    off_hull = true;
                    r.push(VoronoiTopologyError::UnboundedEdgeNotHullDual { edge: id });
                }
            },
        }
        proof {
            assert(same_cells == (x.cells[0] == x.cells[1]));
            assert(same_vertices == is_loop_segment(x.kind));
            assert(off_hull == (x.kind is Unbounded && t.spec_edge_faces()[x.source_edge.0 as int][1] is Some));
            assert(!(same_vertices && off_hull));
            assert(r@ =~= r0 + edge_reports(t, x, j as int));
            assert(edges@[j as int] == x);
            if same_cells {
                lemma_reports_push(r0, r1[r0.len() as int]);
                assert(r1 == r0.push(r1[r0.len() as int]));
            } else {
                assert(r1 =~= r0);
            }
            if r.len() > r1.len() {
                lemma_reports_push(r1, r@[r1.len() as int]);
                assert(r@ == r1.push(r@[r1.len() as int]));
            } else {
                assert(r@ =~= r1);
            }
            assert(has_same_cells(post) <==> has_same_cells(pre) || same_cells) by {
                if has_same_cells(post) {
                    let k = choose|k: int| 0 <= k < post.len() && (#[trigger] post[k]).cells[0] == post[k].cells[1];
                    if k < pre.len() {
                        assert(pre[k] == post[k]);
                    }
                }
                if has_same_cells(pre) {
                    let k = choose|k: int| 0 <= k < pre.len() && (#[trigger] pre[k]).cells[0] == pre[k].cells[1];
                    assert(post[k] == pre[k]);
                }
                if same_cells {
                    assert(post[j as int] == x);
                }
            }
            assert(has_same_vertices(post) <==> has_same_vertices(pre) || same_vertices) by {
                if has_same_vertices(post) {
                    let k = choose|k: int| 0 <= k < post.len() && is_loop_segment((#[trigger] post[k]).kind);
                    if k < pre.len() {
                        assert(pre[k] == post[k]);
                    }
                }
                if has_same_vertices(pre) {
                    let k = choose|k: int| 0 <= k < pre.len() && is_loop_segment((#[trigger] pre[k]).kind);
                    assert(post[k] == pre[k]);
                }
                if same_vertices {
                    assert(post[j as int] == x);
                }
            }
            assert(has_ray_off_hull(t, post) <==> has_ray_off_hull(t, pre) || off_hull) by {
                if has_ray_off_hull(t, post) {
                    let k = choose|k: int|
                        0 <= k < post.len() && (#[trigger] post[k]).kind is Unbounded && t.spec_edge_faces()[post[k].source_edge.0 as int][1] is Some;
                    if k < pre.len() {
                        assert(pre[k] == post[k]);
                    }
                }
                if has_ray_off_hull(t, pre) {
                    let k = choose|k: int|
                        0 <= k < pre.len() && (#[trigger] pre[k]).kind is Unbounded && t.spec_edge_faces()[pre[k].source_edge.0 as int][1] is Some;
                    assert(post[k] == pre[k]);
                }
                if off_hull {
                    assert(post[j as int] == x);
                }
            }
        }
        j += 1;
    }
    proof {
        assert(edges@.take(edges.len() as int) =~= edges@);
    }
    r
}

/// A nonempty report list reports some kind.
pub proof fn lemma_reports_nonempty(r: Seq<VoronoiTopologyError>)
    requires
        r.len() > 0,
    ensures
        reports_not_inverse(r) || reports_groups_unordered(r) || reports_edges_unordered(r) || reports_missing(r) || reports_mismatch(r) || reports_same_cells(r) || reports_same_vertices(r) || reports_ray_not_hull(r) || reports_duplicate(r),
{
    assert(r[0] is FaceGroupNotInverse || r[0] is GroupsNotCanonicallyOrdered || r[0] is EdgesNotCanonicallyOrdered
        || r[0] is MissingVoronoiEdge || r[0] is EdgeMismatch || r[0] is NonDistinctEdgeCells
        || r[0] is NonDistinctBoundedVertices || r[0] is UnboundedEdgeNotHullDual || r[0] is DuplicateFaceInGroup);
}

/// The first edge at or after `k` naming Delaunay edge `e` exists exactly
/// when some edge at or after `k` names it, and it does name it.
pub proof fn lemma_first_with_source(edges: Seq<VoronoiEdge>, e: int, k: int)
    requires
        0 <= k,
    ensures
        first_with_source(edges, e, k) is Some <==> exists|j: int| k <= j < edges.len() && (#[trigger] edges[j]).source_edge.0 == e,
        first_with_source(edges, e, k) matches Some(j) ==> k <= j < edges.len() && edges[j].source_edge.0 == e,
    decreases edges.len() - k,
{
    if k < edges.len() && edges[k].source_edge.0 != e {
        lemma_first_with_source(edges, e, k + 1);
        if exists|j: int| k <= j < edges.len() && (#[trigger] edges[j]).source_edge.0 == e {
            let j = choose|j: int| k <= j < edges.len() && (#[trigger] edges[j]).source_edge.0 == e;
            assert(j != k);
        }
    } else if k < edges.len() {
        assert(edges[k].source_edge.0 == e);
    }
}

/// Every report of the table checks, in order: the face-group inverse
/// reports (by group, then by face), the group-order reports, the
/// edge-order reports, the dual reports, the duplicate reports, then the
/// per-edge reports.
pub open spec fn voronoi_reports<P>(
    t: &Triangulation2<P>,
    face_group: Seq<VoronoiVertexId>,
    gf: Seq<Seq<FaceId>>,
    edges: Seq<VoronoiEdge>,
) -> Seq<VoronoiTopologyError> {
    inverse_group_reports(face_group, gf, gf.len() as int) + inverse_face_reports(face_group, gf, t.spec_faces().len() as int)
        + group_order_reports(t, gf, gf.len() as int) + edge_order_reports(edges, edges.len() as int) + dual_reports(
        t,
        face_group,
        edges,
        t.spec_edges().len() as int,
    ) + dup_reports(gf, gf.len() as int) + edge_reports_upto(t, edges, edges.len() as int)
}

/// Checks every structural invariant of a Voronoi diagram's tables and
/// reports every violation found, in this order: face-group inverse,
/// group order, edge order, missing or mismatched duals, duplicate faces,
/// then per edge its cells, its segment ends and its ray's source. An
/// error of each kind is reported exactly when that invariant fails.
pub fn validate_voronoi_tables<P>(
    t: &Triangulation2<P>,
    face_group: &Vec<VoronoiVertexId>,
    group_faces: &Vec<Vec<FaceId>>,
    edges: &Vec<VoronoiEdge>,
) -> (r: Vec<VoronoiTopologyError>)
    requires
        tables_indexable(t, face_group@, group_faces@.map_values(|g: Vec<FaceId>| g@), edges@),
    ensures
        reports_not_inverse(r@) <==> !groups_inverse(face_group@, group_faces@.map_values(|g: Vec<FaceId>| g@)),
        reports_groups_unordered(r@) <==> !groups_strictly_ordered(t, group_faces@.map_values(|g: Vec<FaceId>| g@)),
        reports_edges_unordered(r@) <==> !edges_strictly_ordered(edges@),
        reports_missing(r@) <==> exists|e: int| 0 <= e < t.spec_edges().len() && #[trigger] dual_missing(t, face_group@, edges@, e),
        reports_mismatch(r@) <==> exists|e: int| 0 <= e < t.spec_edges().len() && #[trigger] dual_mismatch(t, face_group@, edges@, e),
        reports_duplicate(r@) <==> has_duplicate_face(group_faces@.map_values(|g: Vec<FaceId>| g@)),
        reports_same_cells(r@) <==> has_same_cells(edges@),
        reports_same_vertices(r@) <==> has_same_vertices(edges@),
        reports_ray_not_hull(r@) <==> has_ray_off_hull(t, edges@),
        r@ == voronoi_reports(t, face_group@, group_faces@.map_values(|g: Vec<FaceId>| g@), edges@),
{
    let ghost gf = group_faces@.map_values(|g: Vec<FaceId>| g@);
    proof {
        assert forall|i: int, a: int|
            0 <= i < group_faces.len() && 0 <= a < group_faces[i]@.len() implies (#[trigger] group_faces[i]@[a]).0 < t.spec_faces().len() by {
            assert(gf[i] == group_faces[i]@);
        }
    }
    let mut r = check_inverse(face_group, group_faces, t.len());
    let mut r2 = check_group_order(t, group_faces);
    let mut r3 = check_edge_order(edges);
    let mut r4 = check_duals(t, face_group, edges);
    let mut r5 = check_duplicates(group_faces);
    let mut r6 = check_edges(t, edges);
    let ghost (a1, a2, a3, a4, a5, a6) = (r@, r2@, r3@, r4@, r5@, r6@);
    r.append(&mut r2);
    r.append(&mut r3);
    r.append(&mut r4);
    r.append(&mut r5);
    r.append(&mut r6);
    proof {
        assert(r@ == a1 + a2 + a3 + a4 + a5 + a6);
        lemma_reports_concat(a1, a2);
        lemma_reports_concat(a1 + a2, a3);
        lemma_reports_concat(a1 + a2 + a3, a4);
        lemma_reports_concat(a1 + a2 + a3 + a4, a5);
        lemma_reports_concat(a1 + a2 + a3 + a4 + a5, a6);
        if a1.len() > 0 {
            assert(a1[0] is FaceGroupNotInverse);
        }
        if a2.len() > 0 {
            assert(a2[0] is GroupsNotCanonicallyOrdered);
        }
        if a3.len() > 0 {
            assert(a3[0] is EdgesNotCanonicallyOrdered);
        }
        if a5.len() > 0 {
            assert(a5[0] is DuplicateFaceInGroup);
        }
    }
    r
}

} // verus!
