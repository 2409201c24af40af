use vstd::prelude::*;

use super::keys::lex_lt;
use super::groups::{
    canonical_order, faces_increasing, group_before, group_by_root, group_key, group_key_of, has_face,
    in_some_group,
};
use super::topology::{vertex_positions, copy_vec, face_index, local_edge, same_edge, lemma_edge_faces_contain_edge, lemma_well_formed_edge_bound, Triangulation2};
use super::union_find::UnionFind;
use super::voronoi_check::{
    dual_mismatch, dual_missing, first_with_source, has_duplicate_face, has_same_cells, has_same_vertices, has_ray_off_hull,
    lemma_first_with_source, lemma_reports_nonempty, reports_duplicate, reports_edges_unordered, reports_groups_unordered,
    reports_missing, reports_mismatch, reports_not_inverse, reports_ray_not_hull, reports_same_cells, reports_same_vertices,
    validate_voronoi_tables, voronoi_reports, VoronoiTopologyError,
};
use crate::ids::{EdgeId, FaceId, VertexId};
use crate::sign::Sign;

verus! {

/// A Voronoi cell, identified with the Delaunay site it surrounds.
#[derive(Debug, Clone, Copy, PartialEq, Eq, Hash, Structural)]
pub struct VoronoiCellId(pub VertexId);

/// A Voronoi vertex: one group of Delaunay faces merged by
/// cocircularity.
#[derive(Debug, Clone, Copy, PartialEq, Eq, Hash, Structural)]
pub struct VoronoiVertexId(pub u32);

/// A Voronoi edge's index.
#[derive(Debug, Clone, Copy, PartialEq, Eq, Hash, Structural)]
pub struct VoronoiEdgeId(pub u32);

/// Whether a Voronoi edge is a finite segment between two Voronoi
/// vertices or a ray from one Voronoi vertex out to infinity.
#[derive(Debug, Clone, Copy, PartialEq, Eq, Hash)]
pub enum VoronoiEdgeKind {
    /// A finite segment between two Voronoi vertices.
    Bounded {
        /// The segment's two endpoints.
        vertices: [VoronoiVertexId; 2],
    },
    /// A ray from `finite_vertex` out to infinity, dual to a hull edge.
    Unbounded {
        /// The ray's finite endpoint.
        finite_vertex: VoronoiVertexId,
    },
}

/// One edge of a Voronoi diagram: the two cells it separates, the
/// Delaunay edge it is dual to, and its shape.
#[derive(Debug, Clone, Copy, PartialEq, Eq, Hash)]
pub struct VoronoiEdge {
    /// The two cells (sites) this edge separates.
    pub cells: [VoronoiCellId; 2],
    /// The dual Delaunay edge.
    pub source_edge: EdgeId,
    /// Whether this edge is a finite segment or an infinite ray.
    pub kind: VoronoiEdgeKind,
}

/// Delaunay edge `e` joins faces `f` and `g` (in either order) and is
/// flagged cocircular.
pub open spec fn coc_link<P>(t: &Triangulation2<P>, coc: Seq<bool>, e: int, f: int, g: int) -> bool {
    let ef = t.spec_edge_faces()[e];
    &&& 0 <= e < t.spec_edges().len()
    &&& coc[e]
    &&& ef[0] is Some
    &&& ef[1] is Some
    &&& (face_index(ef[0]) == f && face_index(ef[1]) == g) || (face_index(ef[0]) == g && face_index(ef[1]) == f)
}

/// Faces `f` and `g` are joined by a cocircular edge among the first `m`.
pub open spec fn merge_link<P>(t: &Triangulation2<P>, coc: Seq<bool>, m: int, f: int, g: int) -> bool {
    exists|e: int| 0 <= e < m && #[trigger] coc_link(t, coc, e, f, g)
}

/// `path` steps from face to face across cocircular edges among the
/// first `m`.
pub open spec fn merge_path<P>(t: &Triangulation2<P>, coc: Seq<bool>, m: int, path: Seq<int>) -> bool {
    &&& path.len() >= 1
    &&& forall|j: int| 0 <= j < path.len() - 1 ==> #[trigger] merge_link(t, coc, m, path[j], path[j + 1])
}

/// Faces `f` and `g` are connected through cocircular edges among the
/// first `m`.
pub open spec fn merged<P>(t: &Triangulation2<P>, coc: Seq<bool>, m: int, f: int, g: int) -> bool {
    exists|path: Seq<int>| #[trigger] merge_path(t, coc, m, path) && path[0] == f && path.last() == g
}

proof fn lemma_merged_refl<P>(t: &Triangulation2<P>, coc: Seq<bool>, m: int, f: int)
    ensures
        merged(t, coc, m, f, f),
{
    let p = seq![f];
    assert(merge_path(t, coc, m, p));
}

proof fn lemma_merged_link<P>(t: &Triangulation2<P>, coc: Seq<bool>, m: int, f: int, g: int)
    requires
        merge_link(t, coc, m, f, g),
    ensures
        merged(t, coc, m, f, g),
{
    let p = seq![f, g];
    assert forall|j: int| 0 <= j < p.len() - 1 implies #[trigger] merge_link(t, coc, m, p[j], p[j + 1]) by {
        assert(j == 0);
    }
    assert(merge_path(t, coc, m, p));
}

proof fn lemma_merged_symm<P>(t: &Triangulation2<P>, coc: Seq<bool>, m: int, f: int, g: int)
    requires
        merged(t, coc, m, f, g),
    ensures
        merged(t, coc, m, g, f),
{
    let p = choose|p: Seq<int>| #[trigger] merge_path(t, coc, m, p) && p[0] == f && p.last() == g;
    let r = p.reverse();
    assert forall|j: int| 0 <= j < r.len() - 1 implies #[trigger] merge_link(t, coc, m, r[j], r[j + 1]) by {
        let i = p.len() - 2 - j;
        assert(merge_link(t, coc, m, p[i], p[i + 1]));
        assert(r[j] == p[i + 1] && r[j + 1] == p[i]);
        let e = choose|e: int| 0 <= e < m && #[trigger] coc_link(t, coc, e, p[i], p[i + 1]);
        assert(coc_link(t, coc, e, p[i + 1], p[i]));
    }
    assert(merge_path(t, coc, m, r));
}

proof fn lemma_merged_trans<P>(t: &Triangulation2<P>, coc: Seq<bool>, m: int, f: int, g: int, h: int)
    requires
        merged(t, coc, m, f, g),
        merged(t, coc, m, g, h),
    ensures
        merged(t, coc, m, f, h),
{
    let p = choose|p: Seq<int>| #[trigger] merge_path(t, coc, m, p) && p[0] == f && p.last() == g;
    let q = choose|q: Seq<int>| #[trigger] merge_path(t, coc, m, q) && q[0] == g && q.last() == h;
    let c = p + q.drop_first();
    assert forall|j: int| 0 <= j < c.len() - 1 implies #[trigger] merge_link(t, coc, m, c[j], c[j + 1]) by {
        if j < p.len() - 1 {
            assert(c[j] == p[j] && c[j + 1] == p[j + 1]);
        } else {
            let i = j - (p.len() - 1);
            assert(c[j] == q[i] && c[j + 1] == q[i + 1]);
            assert(merge_link(t, coc, m, q[i], q[i + 1]));
        }
    }
    assert(merge_path(t, coc, m, c));
}

proof fn lemma_merged_mono<P>(t: &Triangulation2<P>, coc: Seq<bool>, m: int, f: int, g: int)
    requires
        merged(t, coc, m, f, g),
    ensures
        merged(t, coc, m + 1, f, g),
{
    let p = choose|p: Seq<int>| #[trigger] merge_path(t, coc, m, p) && p[0] == f && p.last() == g;
    assert forall|j: int| 0 <= j < p.len() - 1 implies #[trigger] merge_link(t, coc, m + 1, p[j], p[j + 1]) by {
        assert(merge_link(t, coc, m, p[j], p[j + 1]));
        let e = choose|e: int| 0 <= e < m && #[trigger] coc_link(t, coc, e, p[j], p[j + 1]);
    }
    assert(merge_path(t, coc, m + 1, p));
}

/// A map constant across every link is constant along every path.
proof fn lemma_const_along_path<P>(t: &Triangulation2<P>, coc: Seq<bool>, m: int, reps: Seq<int>, path: Seq<int>, j: int)
    requires
        merge_path(t, coc, m, path),
        forall|f: int, g: int| #[trigger] merge_link(t, coc, m, f, g) ==> reps[f] == reps[g],
        0 <= j < path.len(),
    ensures
        reps[path[0]] == reps[path[j]],
    decreases j,
{
    if j > 0 {
        lemma_const_along_path(t, coc, m, reps, path, j - 1);
        assert(merge_link(t, coc, m, path[j - 1], path[j - 1 + 1]));
    }
}

/// The union-find over the faces after merging across every cocircular
/// edge with two incident faces: two faces share a representative
/// exactly when they are connected through cocircular edges.
fn merge_components<P>(t: &Triangulation2<P>, coc: &Vec<bool>) -> (uf: UnionFind)
    requires
        coc.len() == t.spec_edges().len(),
    ensures
        uf.wf(),
        uf.size() == t.spec_faces().len(),
        forall|f: int, g: int|
            0 <= f < uf.size() && 0 <= g < uf.size() ==> (uf.reps()[f] == uf.reps()[g] <==> merged(
                t,
                coc@,
                t.spec_edges().len() as int,
                f,
                g,
            )),
{
    proof {
        use_type_invariant(t);
        lemma_well_formed_edge_bound(t.spec_faces(), t.spec_edges(), t.spec_edge_faces());
    }
    let n = t.len();
    let n_edges = t.edges().len();
    let mut uf = UnionFind::new(n);
    let mut e: usize = 0;
    proof {
        assert forall|x: int| 0 <= x < n implies merged(t, coc@, 0, x, #[trigger] uf.reps()[x]) by {
            lemma_merged_refl(t, coc@, 0, x);
        }
        assert forall|f: int, g: int| #[trigger] merge_link(t, coc@, 0, f, g) implies uf.reps()[f] == uf.reps()[g] by {
        }
    }
    while e < n_edges
        invariant
            t.well_formed(),
            n == t.spec_faces().len(),
            3 * n <= u32::MAX,
            n_edges == t.spec_edges().len(),
            n_edges <= u32::MAX,
            coc.len() == n_edges,
            e <= n_edges,
            uf.wf(),
            uf.size() == n,
            forall|x: int| 0 <= x < n ==> merged(t, coc@, e as int, x, #[trigger] uf.reps()[x]),
            forall|f: int, g: int| #[trigger] merge_link(t, coc@, e as int, f, g) ==> uf.reps()[f] == uf.reps()[g],
        decreases n_edges - e,
    {
        let id = EdgeId(e as u32);
        assert(id.0 as int == e as int);
        let ef = t.adjacent_faces(id);
        let ghost reps0 = uf.reps();
        proof {
            uf.lemma_reps_valid();
        }
        if coc[e] {
            if let (Some(f1), Some(f2)) = (ef[0], ef[1]) {
                proof {
                    lemma_edge_faces_contain_edge(t.spec_faces(), t.spec_edges(), t.spec_edge_faces(), e as int, 0);
                    lemma_edge_faces_contain_edge(t.spec_faces(), t.spec_edges(), t.spec_edge_faces(), e as int, 1);
                }
                uf.union(f1.0, f2.0);
                proof {
                    let a = f1.0 as int;
                    let b = f2.0 as int;
                    assert(coc_link(t, coc@, e as int, a, b));
                    assert(merge_link(t, coc@, e + 1, a, b));
                    lemma_merged_link(t, coc@, e + 1, a, b);
                    assert forall|x: int| 0 <= x < n implies merged(t, coc@, e + 1, x, #[trigger] uf.reps()[x]) by {
                        lemma_merged_mono(t, coc@, e as int, x, reps0[x]);
                        if reps0[x] == reps0[a] {
                            lemma_merged_mono(t, coc@, e as int, a, reps0[a]);
                            lemma_merged_symm(t, coc@, e + 1, a, reps0[a]);
                            lemma_merged_trans(t, coc@, e + 1, x, reps0[x], a);
                            lemma_merged_trans(t, coc@, e + 1, x, a, b);
                            lemma_merged_mono(t, coc@, e as int, b, reps0[b]);
                            lemma_merged_trans(t, coc@, e + 1, x, b, reps0[b]);
                        }
                    }
                    assert forall|f: int, g: int| #[trigger] merge_link(t, coc@, e + 1, f, g) implies uf.reps()[f] == uf.reps()[g] by {
                        let e2 = choose|e2: int| 0 <= e2 < e + 1 && #[trigger] coc_link(t, coc@, e2, f, g);
                        lemma_edge_faces_contain_edge(t.spec_faces(), t.spec_edges(), t.spec_edge_faces(), e2, 0);
                        lemma_edge_faces_contain_edge(t.spec_faces(), t.spec_edges(), t.spec_edge_faces(), e2, 1);
                        if e2 < e {
                            assert(merge_link(t, coc@, e as int, f, g));
                        }
                    }
                }
            } else {
                proof {
                    lemma_keep_components(t, coc@, e as int, uf.reps());
                }
            }
        } else {
            proof {
                lemma_keep_components(t, coc@, e as int, uf.reps());
            }
        }
        e += 1;
    }
    proof {
        uf.lemma_reps_valid();
        let m = n_edges as int;
        assert forall|f: int, g: int| 0 <= f < n && 0 <= g < n implies (uf.reps()[f] == uf.reps()[g] <==> merged(t, coc@, m, f, g)) by {
            if uf.reps()[f] == uf.reps()[g] {
                assert(merged(t, coc@, m, f, uf.reps()[f]));
                assert(merged(t, coc@, m, g, uf.reps()[g]));
                lemma_merged_symm(t, coc@, m, g, uf.reps()[g]);
                lemma_merged_trans(t, coc@, m, f, uf.reps()[f], g);
            }
            if merged(t, coc@, m, f, g) {
                let p = choose|p: Seq<int>| #[trigger] merge_path(t, coc@, m, p) && p[0] == f && p.last() == g;
                lemma_const_along_path(t, coc@, m, uf.reps(), p, p.len() - 1);
            }
        }
    }
    uf
}

/// An edge that adds no cocircular link leaves the components as they
/// were.
proof fn lemma_keep_components<P>(t: &Triangulation2<P>, coc: Seq<bool>, e: int, reps: Seq<int>)
    requires
        0 <= e,
        !(coc[e] && t.spec_edge_faces()[e][0] is Some && t.spec_edge_faces()[e][1] is Some),
        forall|x: int| 0 <= x < reps.len() ==> merged(t, coc, e, x, #[trigger] reps[x]),
        forall|f: int, g: int| #[trigger] merge_link(t, coc, e, f, g) ==> reps[f] == reps[g],
    ensures
        forall|x: int| 0 <= x < reps.len() ==> merged(t, coc, e + 1, x, #[trigger] reps[x]),
        forall|f: int, g: int| #[trigger] merge_link(t, coc, e + 1, f, g) ==> reps[f] == reps[g],
{
    assert forall|x: int| 0 <= x < reps.len() implies merged(t, coc, e + 1, x, #[trigger] reps[x]) by {
        lemma_merged_mono(t, coc, e, x, reps[x]);
    }
    assert forall|f: int, g: int| #[trigger] merge_link(t, coc, e + 1, f, g) implies reps[f] == reps[g] by {
        let e2 = choose|e2: int| 0 <= e2 < e + 1 && #[trigger] coc_link(t, coc, e2, f, g);
        assert(e2 != e);
        assert(merge_link(t, coc, e, f, g));
    }
}

/// The face groups are the cocircular-merge classes, numbered in
/// canonical order: `face_group` names each face's group, `group_faces`
/// lists each group's faces in increasing order, the two agree, two faces
/// share a group exactly when they are connected through cocircular
/// edges, and groups come in strictly increasing order of their sorted
/// vertex set, then of their first face.
pub open spec fn groups_canonical<P>(
    t: &Triangulation2<P>,
    coc: Seq<bool>,
    face_group: Seq<VoronoiVertexId>,
    group_faces: Seq<Seq<FaceId>>,
) -> bool {
    let n = t.spec_faces().len();
    &&& face_group.len() == n
    &&& forall|i: int| 0 <= i < group_faces.len() ==> (#[trigger] group_faces[i]).len() >= 1 && faces_increasing(group_faces[i])
    &&& forall|i: int, a: int|
        0 <= i < group_faces.len() && 0 <= a < group_faces[i].len() ==> (#[trigger] group_faces[i][a]).0 < n
            && face_group[group_faces[i][a].0 as int].0 == i
    &&& forall|f: int| 0 <= f < n ==> (#[trigger] face_group[f]).0 < group_faces.len() && has_face(group_faces[face_group[f].0 as int], f)
    &&& forall|f: int, g: int|
        0 <= f < n && 0 <= g < n ==> (#[trigger] face_group[f] == #[trigger] face_group[g] <==> merged(
            t,
            coc,
            t.spec_edges().len() as int,
            f,
            g,
        ))
    &&& forall|i: int, j: int|
        0 <= i < j < group_faces.len() ==> group_before(
            group_key_of(t, #[trigger] group_faces[i]),
            group_faces[i][0].0,
            group_key_of(t, #[trigger] group_faces[j]),
            group_faces[j][0].0,
        )
}

/// The face groups of `t` under the cocircular flags `coc`, in canonical
/// order: each face's group, and each group's faces.
fn build_groups<P>(t: &Triangulation2<P>, coc: &Vec<bool>) -> (r: (Vec<VoronoiVertexId>, Vec<Vec<FaceId>>))
    requires
        coc.len() == t.spec_edges().len(),
    ensures
        groups_canonical(t, coc@, r.0@, r.1@.map_values(|g: Vec<FaceId>| g@)),
        r.1.len() <= t.spec_faces().len(),
{
    proof {
        use_type_invariant(t);
    }
    let n = t.len();
    let mut uf = merge_components(t, coc);
    let ghost reps = uf.reps();
    proof {
        uf.lemma_reps_valid();
    }
    let mut root: Vec<u32> = Vec::new();
    let mut f: usize = 0;
    while f < n
        invariant
            n == t.spec_faces().len(),
            3 * n <= u32::MAX,
            f <= n,
            uf.wf(),
            uf.size() == n,
            uf.reps() == reps,
            reps.len() == n,
            forall|x: int| 0 <= x < n ==> 0 <= #[trigger] reps[x] < n,
            root.len() == f,
            forall|x: int| 0 <= x < f ==> #[trigger] root[x] as int == reps[x],
        decreases n - f,
    {
        let r = uf.find(f as u32);
        root.push(r);
        f += 1;
    }
    let groups = group_by_root(&root);
    let ghost gs = groups@.map_values(|g: Vec<FaceId>| g@);
    let ng = groups.len();
    let mut keys: Vec<Vec<u32>> = Vec::new();
    let mut firsts: Vec<u32> = Vec::new();
    let mut i: usize = 0;
    proof {
        assert forall|k: int| 0 <= k < ng implies (#[trigger] groups[k])@ == gs[k] by {}
    }
    while i < ng
        invariant
            ng == groups.len() == gs.len(),
            ng <= n,
            n == root.len(),
            forall|k: int| 0 <= k < ng ==> (#[trigger] groups[k])@ == gs[k],
            super::groups::groups_by_root(root@, gs),
            i <= ng,
            keys.len() == i,
            firsts.len() == i,
            n == t.spec_faces().len(),
            forall|k: int| 0 <= k < i ==> (#[trigger] keys[k])@ == group_key_of(t, gs[k]),
            forall|k: int| 0 <= k < i ==> #[trigger] firsts[k] == gs[k][0].0,
        decreases ng - i,
    {
        proof {
            assert(gs[i as int].len() >= 1);
            assert forall|a: int| 0 <= a < groups[i as int]@.len() implies (#[trigger] groups[i as int]@[a]).0 < t.spec_faces().len() by {
                assert(gs[i as int][a].0 < root.len());
            }
        }
        let key = group_key(t, &groups[i]);
        keys.push(key);
        firsts.push(groups[i][0].0);
        i += 1;
    }
    proof {
        assert forall|a: int, b: int| 0 <= a < firsts.len() && 0 <= b < firsts.len() && a != b implies firsts[a] != firsts[b] by {
            assert(root@[(#[trigger] gs[a])[0].0 as int] != root@[(#[trigger] gs[b])[0].0 as int]);
        }
    }
    let order = canonical_order(&keys, &firsts);
    let mut group_faces: Vec<Vec<FaceId>> = Vec::new();
    let mut i: usize = 0;
    while i < ng
        invariant
            ng == groups.len() == gs.len() == order.len() == keys.len() == firsts.len(),
            forall|k: int| 0 <= k < ng ==> (#[trigger] groups[k])@ == gs[k],
            forall|k: int| 0 <= k < ng ==> (#[trigger] order[k]) < ng,
            i <= ng,
            group_faces.len() == i,
            forall|k: int| 0 <= k < i ==> (#[trigger] group_faces[k])@ == gs[order[k] as int],
        decreases ng - i,
    {
        let g = copy_vec(&groups[order[i]]);
        group_faces.push(g);
        i += 1;
    }
    let ghost gf = group_faces@.map_values(|g: Vec<FaceId>| g@);
    proof {
        assert forall|k: int| 0 <= k < ng implies #[trigger] gf[k] == gs[order[k] as int] by {
            assert(gf[k] == group_faces[k]@);
        }
        assert forall|k: int, l: int| 0 <= k < ng && 0 <= l < ng && k != l implies order[k] != order[l] by {
            if k < l {
                super::groups::lemma_group_before_order(keys[order[k] as int]@, firsts[order[k] as int], keys[order[k] as int]@, firsts[order[k] as int], keys[order[k] as int]@, firsts[order[k] as int]);
            } else {
                super::groups::lemma_group_before_order(keys[order[l] as int]@, firsts[order[l] as int], keys[order[l] as int]@, firsts[order[l] as int], keys[order[l] as int]@, firsts[order[l] as int]);
            }
        }
    }
    let mut face_group: Vec<VoronoiVertexId> = vec![VoronoiVertexId(0); n];
    let mut i: usize = 0;
    while i < ng
        invariant
            ng == gs.len() == order.len() == group_faces.len() == gf.len(),
            ng <= n,
            3 * n <= u32::MAX,
            n == root.len(),
            super::groups::groups_by_root(root@, gs),
            forall|k: int| 0 <= k < ng ==> (#[trigger] order[k]) < ng,
            forall|k: int, l: int| 0 <= k < ng && 0 <= l < ng && k != l ==> order[k] != order[l],
            forall|k: int| 0 <= k < ng ==> #[trigger] gf[k] == gs[order[k] as int],
            forall|k: int| 0 <= k < ng ==> (#[trigger] group_faces[k])@ == gf[k],
            face_group.len() == n,
            i <= ng,
            forall|k: int, a: int| 0 <= k < i && 0 <= a < gf[k].len() ==> face_group[(#[trigger] gf[k][a]).0 as int].0 == k,
        decreases ng - i,
    {
        let len = group_faces[i].len();
        let mut a: usize = 0;
        while a < len
            invariant
                ng == gs.len() == order.len() == group_faces.len() == gf.len(),
                ng <= n,
                3 * n <= u32::MAX,
                n == root.len(),
                super::groups::groups_by_root(root@, gs),
                forall|k: int| 0 <= k < ng ==> (#[trigger] order[k]) < ng,
                forall|k: int, l: int| 0 <= k < ng && 0 <= l < ng && k != l ==> order[k] != order[l],
                forall|k: int| 0 <= k < ng ==> #[trigger] gf[k] == gs[order[k] as int],
                forall|k: int| 0 <= k < ng ==> (#[trigger] group_faces[k])@ == gf[k],
                face_group.len() == n,
                i < ng,
                len == gf[i as int].len(),
                a <= len,
                forall|k: int, b: int| 0 <= k < i && 0 <= b < gf[k].len() ==> face_group[(#[trigger] gf[k][b]).0 as int].0 == k,
                forall|b: int| 0 <= b < a ==> face_group[(#[trigger] gf[i as int][b]).0 as int].0 == i,
            decreases len - a,
        {
            let x = group_faces[i][a];
            proof {
                assert(x == gf[i as int][a as int]);
                assert(x.0 < n);
            }
            face_group.set(x.0 as usize, VoronoiVertexId(i as u32));
            proof {
                assert forall|k: int, b: int| 0 <= k < i && 0 <= b < gf[k].len() implies face_group[(#[trigger] gf[k][b]).0 as int].0 == k by {
                    if gf[k][b].0 == x.0 {
                        lemma_groups_disjoint(root@, gs, order[k] as int, order[i as int] as int, x.0 as int, b, a as int);
                    }
                }
                assert forall|b: int| 0 <= b < a + 1 implies face_group[(#[trigger] gf[i as int][b]).0 as int].0 == i by {
                    if b < a {
                        assert(gf[i as int][b].0 < x.0);
                    }
                }
            }
            a += 1;
        }
        i += 1;
    }
    proof {
        let fg = face_group@;
        let m = t.spec_edges().len() as int;
        assert forall|f: int| 0 <= f < n implies (#[trigger] fg[f]).0 < gf.len() && has_face(gf[fg[f].0 as int], f) by {
            assert(in_some_group(gs, f));
            let k = choose|k: int| 0 <= k < gs.len() && #[trigger] has_face(gs[k], f);
            assert(order@.contains(k as usize));
            let i = choose|i: int| 0 <= i < order@.len() && order@[i] == k as usize;
            assert(gf[i] == gs[k]);
            let a = choose|a: int| 0 <= a < gf[i].len() && (#[trigger] gf[i][a]).0 == f;
            assert(fg[gf[i][a].0 as int].0 == i);
        }
        assert forall|f: int, g: int| 0 <= f < n && 0 <= g < n implies (#[trigger] fg[f] == #[trigger] fg[g] <==> merged(t, coc@, m, f, g)) by {
            let i = fg[f].0 as int;
            let j = fg[g].0 as int;
            assert(has_face(gf[i], f));
            assert(has_face(gf[j], g));
            assert(has_face(gs[order[i] as int], f));
            assert(has_face(gs[order[j] as int], g));
            if root@[f] == root@[g] {
                assert(has_face(gs[order[i] as int], g));
                let a = choose|a: int| 0 <= a < gf[i].len() && (#[trigger] gf[i][a]).0 == g;
                assert(fg[gf[i][a].0 as int].0 == i);
                assert(fg[f] == fg[g]);
            }
            if fg[f] == fg[g] {
                assert(root@[f] == root@[g]);
            }
        }
        assert forall|i: int, j: int| 0 <= i < j < gf.len() implies group_before(
            group_key_of(t, #[trigger] gf[i]),
            gf[i][0].0,
            group_key_of(t, #[trigger] gf[j]),
            gf[j][0].0,
        ) by {
            assert(keys[order[i] as int]@ == group_key_of(t, gs[order[i] as int]));
            assert(keys[order[j] as int]@ == group_key_of(t, gs[order[j] as int]));
        }
        assert forall|i: int| 0 <= i < gf.len() implies (#[trigger] gf[i]).len() >= 1 && faces_increasing(gf[i]) by {
            assert(gf[i] == gs[order[i] as int]);
        }
        assert forall|i: int, a: int| 0 <= i < gf.len() && 0 <= a < gf[i].len() implies (#[trigger] gf[i][a]).0 < n
            && fg[gf[i][a].0 as int].0 == i by {
            assert(gf[i] == gs[order[i] as int]);
        }
    }
    (face_group, group_faces)
}

/// A face listed in two groups lies in one group only.
proof fn lemma_groups_disjoint(root: Seq<u32>, gs: Seq<Seq<FaceId>>, k: int, l: int, f: int, b: int, a: int)
    requires
        super::groups::groups_by_root(root, gs),
        0 <= k < gs.len(),
        0 <= l < gs.len(),
        0 <= b < gs[k].len(),
        0 <= a < gs[l].len(),
        gs[k][b].0 == f,
        gs[l][a].0 == f,
    ensures
        k == l,
{
    assert(has_face(gs[k], f));
    assert(has_face(gs[l], f));
    assert(gs[k][b].0 < root.len());
    if k != l {
        assert(root[(gs[k])[0].0 as int] != root[(gs[l])[0].0 as int]);
    }
}

/// The sorted pair of raw site ids `cells` resolve to.
pub open spec fn spec_edge_key(cells: [VoronoiCellId; 2]) -> (u32, u32) {
    let a = cells[0].0.0;
    let b = cells[1].0.0;
    if a <= b {
        (a, b)
    } else {
        (b, a)
    }
}

/// Lexicographic order on pairs.
pub open spec fn key_pair_lt(a: (u32, u32), b: (u32, u32)) -> bool {
    a.0 < b.0 || (a.0 == b.0 && a.1 < b.1)
}

/// The sorted pair of raw site ids `cells` resolve to: the key Voronoi
/// edges are ordered by.
pub fn edge_key(cells: [VoronoiCellId; 2]) -> (k: [u32; 2])
    ensures
        k[0] == spec_edge_key(cells).0,
        k[1] == spec_edge_key(cells).1,
{
    let a = cells[0].0.raw();
    let b = cells[1].0.raw();
    if a <= b {
        [a, b]
    } else {
        [b, a]
    }
}

/// Delaunay edge `e` has a dual Voronoi edge: it is a boundary edge, or
/// its two faces lie in different groups.
pub open spec fn has_dual<P>(t: &Triangulation2<P>, face_group: Seq<VoronoiVertexId>, e: int) -> bool {
    let ef = t.spec_edge_faces()[e];
    ef[1] is None || face_group[face_index(ef[0])] != face_group[face_index(ef[1])]
}

/// `edge` is the dual of Delaunay edge `e`: it separates the cells of
/// `e`'s endpoints (in `e`'s orientation), names `e` as its source, and is
/// a ray from the group of `e`'s one face on the boundary, or a segment
/// between the two different groups of `e`'s faces inside.
pub open spec fn dual_edge_of<P>(t: &Triangulation2<P>, face_group: Seq<VoronoiVertexId>, e: int, edge: VoronoiEdge) -> bool {
    let uv = t.spec_edges()[e];
    let ef = t.spec_edge_faces()[e];
    &&& edge.cells[0] == VoronoiCellId(uv.0)
    &&& edge.cells[1] == VoronoiCellId(uv.1)
    &&& edge.source_edge == EdgeId(e as u32)
    &&& match edge.kind {
        VoronoiEdgeKind::Unbounded { finite_vertex } => ef[1] is None && finite_vertex == face_group[face_index(ef[0])],
        VoronoiEdgeKind::Bounded { vertices } => {
            &&& ef[1] is Some
            &&& vertices[0] == face_group[face_index(ef[0])]
            &&& vertices[1] == face_group[face_index(ef[1])]
            &&& vertices[0] != vertices[1]
        },
    }
}

/// The Voronoi edges are the duals of the Delaunay edges that have one,
/// each once, in strictly increasing order of their sorted cell pair.
pub open spec fn edges_canonical<P>(t: &Triangulation2<P>, face_group: Seq<VoronoiVertexId>, edges: Seq<VoronoiEdge>) -> bool {
    &&& forall|j: int|
        0 <= j < edges.len() ==> (#[trigger] edges[j]).source_edge.0 < t.spec_edges().len() && dual_edge_of(
            t,
            face_group,
            edges[j].source_edge.0 as int,
            edges[j],
        )
    &&& forall|e: int| 0 <= e < t.spec_edges().len() && #[trigger] has_dual(t, face_group, e) ==> is_source(edges, e)
    &&& forall|i: int, j: int|
        0 <= i < j < edges.len() ==> key_pair_lt(
            spec_edge_key((#[trigger] edges[i]).cells),
            spec_edge_key((#[trigger] edges[j]).cells),
        )
}

/// Some edge of `edges` is dual to Delaunay edge `e`.
pub open spec fn is_source(edges: Seq<VoronoiEdge>, e: int) -> bool {
    exists|j: int| 0 <= j < edges.len() && (#[trigger] edges[j]).source_edge.0 == e
}

/// Every edge's first recorded face is present.
pub proof fn lemma_first_face_present<P>(t: &Triangulation2<P>, e: int)
    requires
        t.well_formed(),
        0 <= e < t.spec_edges().len(),
    ensures
        t.spec_edge_faces()[e][0] is Some,
{
    let inc = super::topology::incidences(t.spec_faces(), t.spec_edges()[e]);
    assert(inc.len() >= 1);
}

/// The dual of every Delaunay edge that has one, in Delaunay edge order.
fn dual_edges<P>(t: &Triangulation2<P>, face_group: &Vec<VoronoiVertexId>) -> (r: Vec<VoronoiEdge>)
    requires
        face_group.len() == t.spec_faces().len(),
    ensures
        forall|j: int|
            0 <= j < r.len() ==> (#[trigger] r[j]).source_edge.0 < t.spec_edges().len() && dual_edge_of(
                t,
                face_group@,
                r[j].source_edge.0 as int,
                r[j],
            ),
        forall|i: int, j: int| 0 <= i < j < r.len() ==> (#[trigger] r[i]).source_edge.0 < (#[trigger] r[j]).source_edge.0,
        forall|e: int| 0 <= e < t.spec_edges().len() && #[trigger] has_dual(t, face_group@, e) ==> is_source(r@, e),
        r.len() <= t.spec_edges().len(),
{
    proof {
        use_type_invariant(t);
        lemma_well_formed_edge_bound(t.spec_faces(), t.spec_edges(), t.spec_edge_faces());
    }
    let m = t.edges().len();
    let mut r: Vec<VoronoiEdge> = Vec::new();
    let mut e: usize = 0;
    while e < m
        invariant
            t.well_formed(),
            m == t.spec_edges().len() <= u32::MAX,
            face_group.len() == t.spec_faces().len(),
            e <= m,
            r.len() <= e,
            forall|j: int|
                0 <= j < r.len() ==> (#[trigger] r[j]).source_edge.0 < e && dual_edge_of(
                    t,
                    face_group@,
                    r[j].source_edge.0 as int,
                    r[j],
                ),
            forall|i: int, j: int| 0 <= i < j < r.len() ==> (#[trigger] r[i]).source_edge.0 < (#[trigger] r[j]).source_edge.0,
            forall|x: int| 0 <= x < e && #[trigger] has_dual(t, face_group@, x) ==> is_source(r@, x),
        decreases m - e,
    {
        let id = EdgeId(e as u32);
        let uv = t.edge_vertices(id);
        let ef = t.adjacent_faces(id);
        let cells = [VoronoiCellId(uv.0), VoronoiCellId(uv.1)];
        proof {
            lemma_first_face_present(t, e as int);
            lemma_edge_faces_contain_edge(t.spec_faces(), t.spec_edges(), t.spec_edge_faces(), e as int, 0);
            if ef[1] is Some {
                lemma_edge_faces_contain_edge(t.spec_faces(), t.spec_edges(), t.spec_edge_faces(), e as int, 1);
            }
        }
        let ghost r0 = r@;
        match (ef[0], ef[1]) {
            (Some(f), None) => {
                r.push(VoronoiEdge {
                    cells,
                    source_edge: id,
                    kind: VoronoiEdgeKind::Unbounded { finite_vertex: face_group[f.0 as usize] },
                });
            },
            (Some(f1), Some(f2)) => {
                let g1 = face_group[f1.0 as usize];
                let g2 = face_group[f2.0 as usize];
                if g1 != g2 {
                    r.push(VoronoiEdge {
                        cells,
                        source_edge: id,
                        kind: VoronoiEdgeKind::Bounded { vertices: [g1, g2] },
                    });
                }
            },
            _ => {},
        }
        proof {
            assert forall|x: int| 0 <= x < e + 1 && #[trigger] has_dual(t, face_group@, x) implies is_source(r@, x) by {
                if x < e {
                    assert(is_source(r0, x));
                    let j = choose|j: int| 0 <= j < r0.len() && (#[trigger] r0[j]).source_edge.0 == x;
                    assert(r@[j] == r0[j]);
                } else {
                    assert(r@[r0.len() as int].source_edge.0 == x);
                }
            }
        }
        e += 1;
    }
    r
}

/// Reorders `raw` into strictly increasing order of edge key; the keys
/// must be distinct.
fn sort_by_edge_key(raw: &Vec<VoronoiEdge>) -> (r: Vec<VoronoiEdge>)
    requires
        forall|i: int, j: int|
            0 <= i < raw.len() && 0 <= j < raw.len() && i != j ==> spec_edge_key((#[trigger] raw[i]).cells)
                != spec_edge_key((#[trigger] raw[j]).cells),
    ensures
        r.len() == raw.len(),
        forall|x: VoronoiEdge| r@.contains(x) <==> raw@.contains(x),
        forall|i: int, j: int|
            0 <= i < j < r.len() ==> key_pair_lt(spec_edge_key((#[trigger] r[i]).cells), spec_edge_key((#[trigger] r[j]).cells)),
{
    let mut r: Vec<VoronoiEdge> = Vec::new();
    let mut m: usize = 0;
    while m < raw.len()
        invariant
            forall|i: int, j: int|
                0 <= i < raw.len() && 0 <= j < raw.len() && i != j ==> spec_edge_key((#[trigger] raw[i]).cells)
                    != spec_edge_key((#[trigger] raw[j]).cells),
            m <= raw.len(),
            r.len() == m,
            forall|x: VoronoiEdge| r@.contains(x) <==> raw@.take(m as int).contains(x),
            forall|i: int, j: int|
                0 <= i < j < r.len() ==> key_pair_lt(spec_edge_key((#[trigger] r[i]).cells), spec_edge_key((#[trigger] r[j]).cells)),
        decreases raw.len() - m,
    {
        let x = raw[m];
        let kx = edge_key(x.cells);
        let mut p: usize = 0;
        while p < r.len()
            invariant
                p <= r.len(),
                m < raw.len(),
                x == raw[m as int],
                forall|i: int, j: int|
                    0 <= i < raw.len() && 0 <= j < raw.len() && i != j ==> spec_edge_key((#[trigger] raw[i]).cells)
                        != spec_edge_key((#[trigger] raw[j]).cells),
                forall|y: VoronoiEdge| r@.contains(y) <==> raw@.take(m as int).contains(y),
                kx[0] == spec_edge_key(x.cells).0,
                kx[1] == spec_edge_key(x.cells).1,
                forall|q: int| 0 <= q < p ==> key_pair_lt(spec_edge_key((#[trigger] r[q]).cells), spec_edge_key(x.cells)),
            ensures
                p <= r.len(),
                forall|q: int| 0 <= q < p ==> key_pair_lt(spec_edge_key((#[trigger] r[q]).cells), spec_edge_key(x.cells)),
                p < r.len() ==> key_pair_lt(spec_edge_key(x.cells), spec_edge_key(r[p as int].cells)),
            decreases r.len() - p,
        {
            let kp = edge_key(r[p].cells);
            if kx[0] < kp[0] || (kx[0] == kp[0] && kx[1] < kp[1]) {
                break;
            }
            proof {
                assert(r@.contains(r[p as int]));
                assert(raw@.take(m as int).contains(r[p as int]));
                let t0 = raw@.take(m as int);
                let q = choose|q: int| 0 <= q < t0.len() && t0[q] == r[p as int];
                assert(raw[q] == r[p as int]);
                assert(spec_edge_key(raw[q].cells) != spec_edge_key(raw[m as int].cells));
                assert(kp[0] == spec_edge_key(r[p as int].cells).0);
                assert(kx[0] == spec_edge_key(x.cells).0);
                assert(key_pair_lt(spec_edge_key(r[p as int].cells), spec_edge_key(x.cells)));
            }
            p += 1;
        }
        let ghost before = r@;
        r.insert(p, x);
        proof {
            assert(r@ =~= before.subrange(0, p as int).push(x) + before.subrange(p as int, before.len() as int));
            assert forall|i: int, j: int| 0 <= i < j < r.len() implies key_pair_lt(
                spec_edge_key((#[trigger] r[i]).cells),
                spec_edge_key((#[trigger] r[j]).cells),
            ) by {
                if j < p {
                    assert(r[i] == before[i] && r[j] == before[j]);
                } else if j == p {
                    assert(r[i] == before[i]);
                } else if i < p {
                    assert(r[i] == before[i] && r[j] == before[j - 1]);
                } else if i == p {
                    assert(r[j] == before[j - 1]);
                    if j - 1 > p {
                        assert(key_pair_lt(spec_edge_key(before[p as int].cells), spec_edge_key(before[j - 1].cells)));
                    }
                } else {
                    assert(r[i] == before[i - 1] && r[j] == before[j - 1]);
                }
            }
            assert(raw@.take(m + 1) =~= raw@.take(m as int).push(x));
            assert forall|y: VoronoiEdge| r@.contains(y) <==> raw@.take(m + 1).contains(y) by {
                if r@.contains(y) {
                    let k = choose|k: int| 0 <= k < r@.len() && r@[k] == y;
                    if k < p {
                        assert(before[k] == y);
                        assert(before.contains(y));
                    } else if k > p {
                        assert(before[k - 1] == y);
                        assert(before.contains(y));
                    }
                    if y != x {
                        assert(raw@.take(m as int).contains(y));
                        let t0 = raw@.take(m as int);
                        let q = choose|q: int| 0 <= q < t0.len() && t0[q] == y;
                        assert(raw@.take(m + 1)[q] == y);
                    } else {
                        assert(raw@.take(m + 1)[m as int] == y);
                    }
                }
                let tk = raw@.take(m + 1);
                if tk.contains(y) {
                    let q = choose|q: int| 0 <= q < tk.len() && tk[q] == y;
                    if q < m {
                        assert(raw@.take(m as int)[q] == y);
                        assert(before.contains(y));
                        let k = choose|k: int| 0 <= k < before.len() && before[k] == y;
                        if k < p {
                            assert(r@[k] == y);
                        } else {
                            assert(r@[k + 1] == y);
                        }
                    } else {
                        assert(r@[p as int] == y);
                    }
                }
            }
        }
        m += 1;
    }
    proof {
        assert(raw@.take(raw.len() as int) =~= raw@);
    }
    r
}

/// Duals of different Delaunay edges have different edge keys.
proof fn lemma_dual_keys_distinct<P>(t: &Triangulation2<P>, face_group: Seq<VoronoiVertexId>, r: Seq<VoronoiEdge>)
    requires
        t.well_formed(),
        forall|j: int|
            0 <= j < r.len() ==> (#[trigger] r[j]).source_edge.0 < t.spec_edges().len() && dual_edge_of(
                t,
                face_group,
                r[j].source_edge.0 as int,
                r[j],
            ),
        forall|i: int, j: int| 0 <= i < j < r.len() ==> (#[trigger] r[i]).source_edge.0 < (#[trigger] r[j]).source_edge.0,
    ensures
        forall|i: int, j: int|
            0 <= i < r.len() && 0 <= j < r.len() && i != j ==> spec_edge_key((#[trigger] r[i]).cells)
                != spec_edge_key((#[trigger] r[j]).cells),
{
    assert forall|i: int, j: int| 0 <= i < r.len() && 0 <= j < r.len() && i != j implies spec_edge_key((#[trigger] r[i]).cells)
        != spec_edge_key((#[trigger] r[j]).cells) by {
        let e1 = r[i].source_edge.0 as int;
        let e2 = r[j].source_edge.0 as int;
        assert(e1 != e2);
        let es = t.spec_edges();
        assert(!same_edge(es[e1], es[e2]));
    }
}

/// A Voronoi diagram's topology, dual to a Delaunay triangulation: which
/// cells, vertices and edges exist and how they connect, with no
/// coordinates. Cells are the Delaunay sites; vertices are the groups of
/// Delaunay faces merged across cocircular edges; edges are the duals of
/// the Delaunay edges between different groups and of the hull edges.
pub struct Voronoi2<P> {
    delaunay: Triangulation2<P>,
    face_group: Vec<VoronoiVertexId>,
    group_faces: Vec<Vec<FaceId>>,
    edges: Vec<VoronoiEdge>,
    cocircular: Ghost<Seq<bool>>,
}

impl<P> Voronoi2<P> {
    /// The Delaunay triangulation this diagram is dual to.
    pub closed spec fn spec_delaunay(&self) -> Triangulation2<P> {
        self.delaunay
    }

    /// Which Delaunay edges were flagged cocircular when this diagram was
    /// built.
    pub closed spec fn spec_cocircular(&self) -> Seq<bool> {
        self.cocircular@
    }

    /// Each Delaunay face's Voronoi vertex.
    pub closed spec fn spec_face_group(&self) -> Seq<VoronoiVertexId> {
        self.face_group@
    }

    /// Each Voronoi vertex's Delaunay faces.
    pub closed spec fn spec_group_faces(&self) -> Seq<Seq<FaceId>> {
        self.group_faces@.map_values(|g: Vec<FaceId>| g@)
    }

    /// The Voronoi edges; `VoronoiEdgeId(i)` names the `i`-th.
    pub closed spec fn spec_edges(&self) -> Seq<VoronoiEdge> {
        self.edges@
    }

    /// The tables are those [`voronoi2`] builds from the Delaunay
    /// triangulation and the cocircular flags. Every value of this type
    /// satisfies it.
    #[verifier::type_invariant]
    pub open spec fn well_formed(&self) -> bool {
        &&& self.spec_cocircular().len() == self.spec_delaunay().spec_edges().len()
        &&& groups_canonical(&self.spec_delaunay(), self.spec_cocircular(), self.spec_face_group(), self.spec_group_faces())
        &&& edges_canonical(&self.spec_delaunay(), self.spec_face_group(), self.spec_edges())
        &&& self.spec_group_faces().len() <= self.spec_delaunay().spec_faces().len()
        &&& self.spec_edges().len() <= self.spec_delaunay().spec_edges().len()
    }
}

/// Builds the Voronoi topology dual to `delaunay`. `cocircular[e]` says
/// whether Delaunay edge `e`'s two faces are cocircular (the edge's
/// endpoints and both opposite vertices lie on one circle); faces joined
/// across such edges are merged into one Voronoi vertex, so a tie-break
/// among cocircular sites never shows as extra vertices or edges. Voronoi
/// vertices are numbered by their faces' sorted site set, then by first
/// face; Voronoi edges by their sorted site pair. An interior Delaunay edge
/// whose two faces fall in one group gives no Voronoi edge.
pub fn voronoi2<P>(delaunay: Triangulation2<P>, cocircular: &Vec<bool>) -> (v: Voronoi2<P>)
    requires
        cocircular.len() == delaunay.spec_edges().len(),
    ensures
        v.spec_delaunay() == delaunay,
        v.spec_cocircular() == cocircular@,
        groups_canonical(&delaunay, cocircular@, v.spec_face_group(), v.spec_group_faces()),
        edges_canonical(&delaunay, v.spec_face_group(), v.spec_edges()),
{
    proof {
        use_type_invariant(&delaunay);
    }
    let (face_group, group_faces) = build_groups(&delaunay, cocircular);
    let raw = dual_edges(&delaunay, &face_group);
    proof {
        lemma_dual_keys_distinct(&delaunay, face_group@, raw@);
    }
    let edges = sort_by_edge_key(&raw);
    proof {
        let fg = face_group@;
        assert forall|j: int| 0 <= j < edges.len() implies (#[trigger] edges@[j]).source_edge.0 < delaunay.spec_edges().len()
            && dual_edge_of(&delaunay, fg, edges@[j].source_edge.0 as int, edges@[j]) by {
            assert(edges@.contains(edges@[j]));
            let k = choose|k: int| 0 <= k < raw@.len() && raw@[k] == edges@[j];
            assert(raw[k] == edges@[j]);
        }
        assert forall|e: int| 0 <= e < delaunay.spec_edges().len() && #[trigger] has_dual(&delaunay, fg, e) implies is_source(edges@, e) by {
            assert(is_source(raw@, e));
            let k = choose|k: int| 0 <= k < raw@.len() && (#[trigger] raw@[k]).source_edge.0 == e;
            assert(raw@.contains(raw@[k]));
            assert(edges@.contains(raw@[k]));
            let j = choose|j: int| 0 <= j < edges@.len() && edges@[j] == raw@[k];
            assert(edges@[j].source_edge.0 == e);
        }
    }
    Voronoi2 { delaunay, face_group, group_faces, edges, cocircular: Ghost(cocircular@) }
}

/// The cells adjacent to `cell` across the first `m` edges, in edge
/// order: the other cell of each edge that has `cell` as one of its two.
pub open spec fn neighbors_upto(edges: Seq<VoronoiEdge>, cell: VoronoiCellId, m: int) -> Seq<VoronoiCellId>
    decreases m,
{
    if m <= 0 {
        Seq::empty()
    } else {
        let prev = neighbors_upto(edges, cell, m - 1);
        let e = edges[m - 1];
        if e.cells[0] == cell {
            prev.push(e.cells[1])
        } else if e.cells[1] == cell {
            prev.push(e.cells[0])
        } else {
            prev
        }
    }
}

/// `e` is a ray and `cell` is one of its two cells.
pub open spec fn unbounded_at(e: VoronoiEdge, cell: VoronoiCellId) -> bool {
    (e.cells[0] == cell || e.cells[1] == cell) && e.kind is Unbounded
}

/// Some edge of `edges` is a ray of `cell`.
pub open spec fn spec_cell_is_unbounded(edges: Seq<VoronoiEdge>, cell: VoronoiCellId) -> bool {
    exists|j: int| 0 <= j < edges.len() && #[trigger] unbounded_at(edges[j], cell)
}

/// `site` is an endpoint of a boundary edge of `t`: it lies on the hull.
pub open spec fn on_hull<P>(t: &Triangulation2<P>, site: VertexId) -> bool {
    exists|e: int|
        0 <= e < t.spec_edges().len() && (#[trigger] t.spec_edge_faces()[e])[1] is None && (t.spec_edges()[e].0 == site
            || t.spec_edges()[e].1 == site)
}

impl<P> Voronoi2<P> {
    /// Every cell: one per Delaunay site, in site order.
    pub fn cells(&self) -> (r: Vec<VoronoiCellId>)
        requires
            self.spec_delaunay().spec_vertices().len() <= u32::MAX + 1,
        ensures
            r.len() == self.spec_delaunay().spec_vertices().len(),
            forall|i: int| 0 <= i < r.len() ==> #[trigger] r[i] == VoronoiCellId(VertexId(i as u32)),
    {
        let n = self.delaunay.vertex_count();
        let mut r: Vec<VoronoiCellId> = Vec::new();
        let mut i: usize = 0;
        while i < n
            invariant
                n == self.spec_delaunay().spec_vertices().len() <= u32::MAX + 1,
                i <= n,
                r.len() == i,
                forall|k: int| 0 <= k < i ==> #[trigger] r[k] == VoronoiCellId(VertexId(k as u32)),
            decreases n - i,
        {
            r.push(VoronoiCellId(VertexId(i as u32)));
            i += 1;
        }
        r
    }

    /// Every Voronoi vertex (one per merged face group), in order.
    pub fn vertices(&self) -> (r: Vec<VoronoiVertexId>)
        ensures
            r.len() == self.spec_group_faces().len(),
            forall|i: int| 0 <= i < r.len() ==> #[trigger] r[i] == VoronoiVertexId(i as u32),
    {
        proof {
            use_type_invariant(self);
            use_type_invariant(&self.delaunay);
        }
        let n = self.group_faces.len();
        let mut r: Vec<VoronoiVertexId> = Vec::new();
        let mut i: usize = 0;
        while i < n
            invariant
                n == self.spec_group_faces().len() <= u32::MAX,
                i <= n,
                r.len() == i,
                forall|k: int| 0 <= k < i ==> #[trigger] r[k] == VoronoiVertexId(k as u32),
            decreases n - i,
        {
            r.push(VoronoiVertexId(i as u32));
            i += 1;
        }
        r
    }

    /// Every Voronoi edge, in order.
    pub fn edges(&self) -> (r: Vec<VoronoiEdgeId>)
        ensures
            r.len() == self.spec_edges().len(),
            forall|i: int| 0 <= i < r.len() ==> #[trigger] r[i] == VoronoiEdgeId(i as u32),
    {
        proof {
            use_type_invariant(self);
            use_type_invariant(&self.delaunay);
            lemma_well_formed_edge_bound(
                self.delaunay.spec_faces(),
                self.delaunay.spec_edges(),
                self.delaunay.spec_edge_faces(),
            );
        }
        let n = self.edges.len();
        let mut r: Vec<VoronoiEdgeId> = Vec::new();
        let mut i: usize = 0;
        while i < n
            invariant
                n == self.spec_edges().len() <= u32::MAX,
                i <= n,
                r.len() == i,
                forall|k: int| 0 <= k < i ==> #[trigger] r[k] == VoronoiEdgeId(k as u32),
            decreases n - i,
        {
            r.push(VoronoiEdgeId(i as u32));
            i += 1;
        }
        r
    }

    /// The Delaunay site `cell` surrounds.
    pub fn cell_site(&self, cell: VoronoiCellId) -> (r: VertexId)
        ensures
            r == cell.0,
    {
        cell.0
    }

    /// Every cell adjacent to `cell` across a Voronoi edge: the other cell
    /// of each edge incident to `cell`, in edge order.
    pub fn neighboring_cells(&self, cell: VoronoiCellId) -> (r: Vec<VoronoiCellId>)
        ensures
            r@ == neighbors_upto(self.spec_edges(), cell, self.spec_edges().len() as int),
    {
        let mut r: Vec<VoronoiCellId> = Vec::new();
        let mut i: usize = 0;
        while i < self.edges.len()
            invariant
                i <= self.edges.len(),
                r@ == neighbors_upto(self.spec_edges(), cell, i as int),
            decreases self.edges.len() - i,
        {
            let e = self.edges[i];
            if e.cells[0] == cell {
                r.push(e.cells[1]);
            } else if e.cells[1] == cell {
                r.push(e.cells[0]);
            }
            i += 1;
        }
        r
    }

    /// Whether `cell` has an unbounded edge (a ray).
    pub fn cell_is_unbounded(&self, cell: VoronoiCellId) -> (r: bool)
        ensures
            r == spec_cell_is_unbounded(self.spec_edges(), cell),
    {
        let mut i: usize = 0;
        while i < self.edges.len()
            invariant
                i <= self.edges.len(),
                forall|j: int| 0 <= j < i ==> !#[trigger] unbounded_at(self.spec_edges()[j], cell),
            decreases self.edges.len() - i,
        {
            let e = self.edges[i];
            if (e.cells[0] == cell || e.cells[1] == cell) && matches!(e.kind, VoronoiEdgeKind::Unbounded { .. }) {
                proof {
                    assert(unbounded_at(self.spec_edges()[i as int], cell));
                }
                return true;
            }
            i += 1;
        }
        false
    }

    /// `edge`'s two cells.
    pub fn edge_cells(&self, edge: VoronoiEdgeId) -> (r: [VoronoiCellId; 2])
        requires
            edge.0 < self.spec_edges().len(),
        ensures
            r == self.spec_edges()[edge.0 as int].cells,
    {
        self.edges[edge.0 as usize].cells
    }

    /// `edge`'s shape: a segment between two Voronoi vertices, or a ray
    /// from one.
    pub fn edge_kind(&self, edge: VoronoiEdgeId) -> (r: &VoronoiEdgeKind)
        requires
            edge.0 < self.spec_edges().len(),
        ensures
            *r == self.spec_edges()[edge.0 as int].kind,
    {
        &self.edges[edge.0 as usize].kind
    }

    /// The Delaunay edge `edge` is dual to.
    pub fn dual_delaunay_edge(&self, edge: VoronoiEdgeId) -> (r: EdgeId)
        requires
            edge.0 < self.spec_edges().len(),
        ensures
            r == self.spec_edges()[edge.0 as int].source_edge,
    {
        self.edges[edge.0 as usize].source_edge
    }

    /// The Delaunay faces merged into `vertex`, in increasing order.
    pub fn vertex_delaunay_faces(&self, vertex: VoronoiVertexId) -> (r: &[FaceId])
        requires
            vertex.0 < self.spec_group_faces().len(),
        ensures
            r@ == self.spec_group_faces()[vertex.0 as int],
    {
        self.group_faces[vertex.0 as usize].as_slice()
    }
}

/// Voronoi adjacency is symmetric: `b` is among the neighbors of `a`
/// exactly when `a` is among the neighbors of `b`.
pub proof fn lemma_neighboring_cells_symmetric(edges: Seq<VoronoiEdge>, a: VoronoiCellId, b: VoronoiCellId, m: int)
    requires
        0 <= m <= edges.len(),
    ensures
        neighbors_upto(edges, a, m).contains(b) <==> neighbors_upto(edges, b, m).contains(a),
    decreases m,
{
    if m > 0 {
        lemma_neighboring_cells_symmetric(edges, a, b, m - 1);
        let pa = neighbors_upto(edges, a, m - 1);
        let pb = neighbors_upto(edges, b, m - 1);
        let e = edges[m - 1];
        assert forall|s: Seq<VoronoiCellId>, x: VoronoiCellId, y: VoronoiCellId| #[trigger] s.push(x).contains(y) <==> (s.contains(y) || x == y) by {
            if s.push(x).contains(y) {
                let k = choose|k: int| 0 <= k < s.push(x).len() && s.push(x)[k] == y;
                if k < s.len() {
                    assert(s[k] == y);
                }
            }
            if s.contains(y) {
                let k = choose|k: int| 0 <= k < s.len() && s[k] == y;
                assert(s.push(x)[k] == y);
            }
            if x == y {
                assert(s.push(x)[s.len() as int] == y);
            }
        }
    }
}

/// A cell is unbounded exactly when its site lies on the Delaunay hull:
/// the rays are the duals of the boundary edges.
pub proof fn lemma_unbounded_iff_on_hull<P>(v: &Voronoi2<P>, cell: VoronoiCellId)
    requires
        v.well_formed(),
    ensures
        spec_cell_is_unbounded(v.spec_edges(), cell) <==> on_hull(&v.spec_delaunay(), cell.0),
{
    let t = v.spec_delaunay();
    let fg = v.spec_face_group();
    let edges = v.spec_edges();
    if spec_cell_is_unbounded(edges, cell) {
        let j = choose|j: int| 0 <= j < edges.len() && #[trigger] unbounded_at(edges[j], cell);
        let e = edges[j].source_edge.0 as int;
        assert(dual_edge_of(&t, fg, e, edges[j]));
        assert(t.spec_edge_faces()[e][1] is None);
    }
    if on_hull(&t, cell.0) {
        let e = choose|e: int|
            0 <= e < t.spec_edges().len() && (#[trigger] t.spec_edge_faces()[e])[1] is None && (t.spec_edges()[e].0 == cell.0
                || t.spec_edges()[e].1 == cell.0);
        assert(has_dual(&t, fg, e));
        assert(is_source(edges, e));
        let j = choose|j: int| 0 <= j < edges.len() && (#[trigger] edges[j]).source_edge.0 == e;
        assert(dual_edge_of(&t, fg, e, edges[j]));
        assert(unbounded_at(edges[j], cell));
    }
}

/// Every face's three vertices are distinct.
pub open spec fn faces_nondegenerate(faces: Seq<[VertexId; 3]>) -> bool {
    forall|i: int|
        0 <= i < faces.len() ==> (#[trigger] faces[i])[0] != faces[i][1] && faces[i][1] != faces[i][2] && faces[i][0]
            != faces[i][2]
}

/// The first vertex of `tri` that is neither `u` nor `v`.
pub open spec fn spec_third_vertex(tri: [VertexId; 3], u: VertexId, v: VertexId) -> VertexId {
    if tri[0] != u && tri[0] != v {
        tri[0]
    } else if tri[1] != u && tri[1] != v {
        tri[1]
    } else {
        tri[2]
    }
}

/// A triangle's vertex other than `u` and `v`, the endpoints of one of its
/// edges: its first vertex that is neither.
fn third_vertex<P>(t: &Triangulation2<P>, face: FaceId, u: VertexId, v: VertexId) -> (w: VertexId)
    requires
        face.0 < t.spec_faces().len(),
        exists|k: int| 0 <= k < 3 && #[trigger] t.spec_faces()[face.0 as int][k] != u && t.spec_faces()[face.0 as int][k] != v,
    ensures
        w == spec_third_vertex(t.spec_faces()[face.0 as int], u, v),
        w != u && w != v,
{
    let tri = t.face_vertices(face);
    if tri[0] != u && tri[0] != v {
        tri[0]
    } else if tri[1] != u && tri[1] != v {
        tri[1]
    } else {
        tri[2]
    }
}

/// For each Delaunay edge with two faces, its endpoints `u`, `v` and the
/// third vertices of its first and second face: the four sites whose
/// cocircularity decides whether [`voronoi2`] merges the two faces. `None`
/// for a boundary edge.
pub fn cocircularity_quads<P>(t: &Triangulation2<P>) -> (r: Vec<Option<[VertexId; 4]>>)
    requires
        faces_nondegenerate(t.spec_faces()),
    ensures
        r.len() == t.spec_edges().len(),
        forall|e: int| 0 <= e < r.len() ==> (#[trigger] r[e] is Some <==> t.spec_edge_faces()[e][1] is Some),
        forall|e: int|
            0 <= e < r.len() && #[trigger] r[e] is Some ==> ({
                let q = r[e]->0;
                let uv = t.spec_edges()[e];
                let ef = t.spec_edge_faces()[e];
                &&& q[0] == uv.0
                &&& q[1] == uv.1
                &&& q[2] == spec_third_vertex(t.spec_faces()[face_index(ef[0])], uv.0, uv.1)
                &&& q[3] == spec_third_vertex(t.spec_faces()[face_index(ef[1])], uv.0, uv.1)
            }),
{
    proof {
        use_type_invariant(t);
        lemma_well_formed_edge_bound(t.spec_faces(), t.spec_edges(), t.spec_edge_faces());
    }
    let m = t.edges().len();
    let mut r: Vec<Option<[VertexId; 4]>> = Vec::new();
    let mut e: usize = 0;
    while e < m
        invariant
            t.well_formed(),
            faces_nondegenerate(t.spec_faces()),
            m == t.spec_edges().len() <= u32::MAX,
            e <= m,
            r.len() == e,
            forall|x: int| 0 <= x < r.len() ==> (#[trigger] r[x] is Some <==> t.spec_edge_faces()[x][1] is Some),
            forall|x: int|
                0 <= x < r.len() && #[trigger] r[x] is Some ==> ({
                    let q = r[x]->0;
                    let uv = t.spec_edges()[x];
                    let ef = t.spec_edge_faces()[x];
                    &&& q[0] == uv.0
                    &&& q[1] == uv.1
                    &&& q[2] == spec_third_vertex(t.spec_faces()[face_index(ef[0])], uv.0, uv.1)
                    &&& q[3] == spec_third_vertex(t.spec_faces()[face_index(ef[1])], uv.0, uv.1)
                }),
        decreases m - e,
    {
        let id = EdgeId(e as u32);
        let uv = t.edge_vertices(id);
        let ef = t.adjacent_faces(id);
        proof {
            lemma_first_face_present(t, e as int);
        }
        match (ef[0], ef[1]) {
            (Some(f1), Some(f2)) => {
                proof {
                    lemma_third_exists(t, e as int, 0);
                    lemma_third_exists(t, e as int, 1);
                }
                let a = third_vertex(t, f1, uv.0, uv.1);
                let b = third_vertex(t, f2, uv.0, uv.1);
                r.push(Some([uv.0, uv.1, a, b]));
            },
            _ => {
                r.push(None);
            },
        }
        e += 1;
    }
    r
}

/// A face recorded against an edge has a vertex off that edge.
proof fn lemma_third_exists<P>(t: &Triangulation2<P>, e: int, j: int)
    requires
        t.well_formed(),
        faces_nondegenerate(t.spec_faces()),
        0 <= e < t.spec_edges().len(),
        0 <= j < 2,
        t.spec_edge_faces()[e][j] is Some,
    ensures
        ({
            let g = face_index(t.spec_edge_faces()[e][j]);
            let uv = t.spec_edges()[e];
            &&& 0 <= g < t.spec_faces().len()
            &&& exists|k: int| 0 <= k < 3 && #[trigger] t.spec_faces()[g][k] != uv.0 && t.spec_faces()[g][k] != uv.1
        }),
{
    lemma_edge_faces_contain_edge(t.spec_faces(), t.spec_edges(), t.spec_edge_faces(), e, j);
    let g = face_index(t.spec_edge_faces()[e][j]);
    let face = t.spec_faces()[g];
    let uv = t.spec_edges()[e];
    let k = choose|k: int| 0 <= k < 3 && same_edge(local_edge(face, k), uv);
    assert(face[k] != uv.0 && face[k] != uv.1);
}

/// Two consecutive groups have the same sorted site set.
pub open spec fn consecutive_keys_equal<P>(t: &Triangulation2<P>, group_faces: Seq<Seq<FaceId>>) -> bool {
    exists|i: int|
        0 <= i < group_faces.len() - 1 && group_key_of(t, #[trigger] group_faces[i]) == group_key_of(t, group_faces[i + 1])
}

impl<P> Voronoi2<P> {
    /// Checks every structural invariant of this diagram's tables and
    /// reports every violation found. Of a diagram [`voronoi2`] built, the
    /// only reports can be a group-order report, exactly where two
    /// consecutive Voronoi vertices have the same site set, and a
    /// same-cells report, exactly where an edge's endpoints coincide; so
    /// when every Delaunay face has three distinct vertices and no two
    /// consecutive groups share a site set, nothing is reported.
    pub fn validate_voronoi_topology(&self) -> (r: Vec<VoronoiTopologyError>)
        ensures
            !reports_not_inverse(r@),
            !reports_edges_unordered(r@),
            !reports_missing(r@),
            !reports_mismatch(r@),
            !reports_duplicate(r@),
            !reports_same_vertices(r@),
            !reports_ray_not_hull(r@),
            reports_groups_unordered(r@) <==> consecutive_keys_equal(&self.spec_delaunay(), self.spec_group_faces()),
            reports_same_cells(r@) <==> has_same_cells(self.spec_edges()),
            faces_nondegenerate(self.spec_delaunay().spec_faces()) ==> !reports_same_cells(r@),
            faces_nondegenerate(self.spec_delaunay().spec_faces()) && !consecutive_keys_equal(
                &self.spec_delaunay(),
                self.spec_group_faces(),
            ) ==> r.len() == 0,
            r@ == voronoi_reports(&self.spec_delaunay(), self.spec_face_group(), self.spec_group_faces(), self.spec_edges()),
    {
        proof {
            use_type_invariant(self);
            use_type_invariant(&self.delaunay);
            lemma_well_formed_edge_bound(
                self.delaunay.spec_faces(),
                self.delaunay.spec_edges(),
                self.delaunay.spec_edge_faces(),
            );
        }
        let r = validate_voronoi_tables(&self.delaunay, &self.face_group, &self.group_faces, &self.edges);
        proof {
            lemma_built_tables_pass(self);
            if r.len() > 0 {
                lemma_reports_nonempty(r@);
            }
        }
        r
    }
}

/// The tables [`voronoi2`] builds pass every check, except group order
/// exactly where consecutive groups share a site set, and distinct cells
/// exactly where an edge's endpoints coincide, which no edge of a
/// triangulation with nondegenerate faces does.
proof fn lemma_built_tables_pass<P>(v: &Voronoi2<P>)
    requires
        v.well_formed(),
        v.spec_delaunay().well_formed(),
    ensures
        super::voronoi_check::groups_inverse(v.spec_face_group(), v.spec_group_faces()),
        super::voronoi_check::edges_strictly_ordered(v.spec_edges()),
        !exists|e: int| 0 <= e < v.spec_delaunay().spec_edges().len() && #[trigger] dual_missing(&v.spec_delaunay(), v.spec_face_group(), v.spec_edges(), e),
        !exists|e: int| 0 <= e < v.spec_delaunay().spec_edges().len() && #[trigger] dual_mismatch(&v.spec_delaunay(), v.spec_face_group(), v.spec_edges(), e),
        !has_duplicate_face(v.spec_group_faces()),
        !has_same_vertices(v.spec_edges()),
        !has_ray_off_hull(&v.spec_delaunay(), v.spec_edges()),
        !super::voronoi_check::groups_strictly_ordered(&v.spec_delaunay(), v.spec_group_faces()) <==> consecutive_keys_equal(
            &v.spec_delaunay(),
            v.spec_group_faces(),
        ),
        faces_nondegenerate(v.spec_delaunay().spec_faces()) ==> !has_same_cells(v.spec_edges()),
{
    let t = v.spec_delaunay();
    let fg = v.spec_face_group();
    let gf = v.spec_group_faces();
    let edges = v.spec_edges();
    let m = t.spec_edges().len() as int;
    assert forall|e: int| 0 <= e < m implies !#[trigger] dual_missing(&t, fg, edges, e) by {
        lemma_first_with_source(edges, e, 0);
        if has_dual(&t, fg, e) {
            assert(is_source(edges, e));
            let j = choose|j: int| 0 <= j < edges.len() && (#[trigger] edges[j]).source_edge.0 == e;
            assert(0 <= j < edges.len() && edges[j].source_edge.0 == e);
        }
    }
    assert forall|e: int| 0 <= e < m implies !#[trigger] dual_mismatch(&t, fg, edges, e) by {
        lemma_first_with_source(edges, e, 0);
        if first_with_source(edges, e, 0) is Some {
            let j = first_with_source(edges, e, 0)->0;
            assert(dual_edge_of(&t, fg, e, edges[j]));
        }
    }
    assert forall|i: int, a: int, b: int|
        0 <= i < gf.len() && 0 <= a < b < gf[i].len() implies !(#[trigger] gf[i][a] == #[trigger] gf[i][b]) by {
        assert(faces_increasing(gf[i]));
        assert(gf[i][a].0 < gf[i][b].0);
    }
    assert forall|j: int| 0 <= j < edges.len() implies !super::voronoi_check::is_loop_segment((#[trigger] edges[j]).kind) by {
        assert(dual_edge_of(&t, fg, edges[j].source_edge.0 as int, edges[j]));
    }
    assert forall|j: int| 0 <= j < edges.len() implies !((#[trigger] edges[j]).kind is Unbounded && t.spec_edge_faces()[edges[j].source_edge.0 as int][1] is Some) by {
        assert(dual_edge_of(&t, fg, edges[j].source_edge.0 as int, edges[j]));
    }
    assert forall|j: int| 0 <= j < edges.len() - 1 implies key_pair_lt(spec_edge_key((#[trigger] edges[j]).cells), spec_edge_key(edges[j + 1].cells)) by {
        assert(key_pair_lt(spec_edge_key(edges[j].cells), spec_edge_key(edges[j + 1].cells)));
    }
    assert forall|i: int| 0 <= i < gf.len() - 1 implies (lex_lt(group_key_of(&t, #[trigger] gf[i]), group_key_of(&t, gf[i + 1]))
        <==> group_key_of(&t, gf[i]) != group_key_of(&t, gf[i + 1])) by {
        assert(group_before(group_key_of(&t, gf[i]), gf[i][0].0, group_key_of(&t, gf[i + 1]), gf[i + 1][0].0));
        super::keys::lemma_lex_asymmetric(group_key_of(&t, gf[i]), group_key_of(&t, gf[i]));
    }
    if consecutive_keys_equal(&t, gf) {
        let i = choose|i: int| 0 <= i < gf.len() - 1 && group_key_of(&t, #[trigger] gf[i]) == group_key_of(&t, gf[i + 1]);
        assert(!lex_lt(group_key_of(&t, gf[i]), group_key_of(&t, gf[i + 1])));
    }
    if !super::voronoi_check::groups_strictly_ordered(&t, gf) {
        let i = choose|i: int| 0 <= i < gf.len() - 1 && !lex_lt(group_key_of(&t, #[trigger] gf[i]), group_key_of(&t, gf[i + 1]));
        assert(group_key_of(&t, gf[i]) == group_key_of(&t, gf[i + 1]));
    }
    if faces_nondegenerate(t.spec_faces()) {
        assert forall|j: int| 0 <= j < edges.len() implies !((#[trigger] edges[j]).cells[0] == edges[j].cells[1]) by {
            let e = edges[j].source_edge.0 as int;
            assert(dual_edge_of(&t, fg, e, edges[j]));
            lemma_first_face_present(&t, e);
            lemma_edge_faces_contain_edge(t.spec_faces(), t.spec_edges(), t.spec_edge_faces(), e, 0);
            let g = face_index(t.spec_edge_faces()[e][0]);
            let k = choose|k: int| 0 <= k < 3 && same_edge(local_edge(t.spec_faces()[g], k), t.spec_edges()[e]);
            assert(t.spec_faces()[g][0] != t.spec_faces()[g][1]);
        }
    }
}

/// The four sites of edge `e`'s cocircularity test: its endpoints and the
/// third vertices of its first and second face.
pub open spec fn spec_quad<P>(t: &Triangulation2<P>, e: int) -> [VertexId; 4] {
    let uv = t.spec_edges()[e];
    let ef = t.spec_edge_faces()[e];
    [
        uv.0,
        uv.1,
        spec_third_vertex(t.spec_faces()[face_index(ef[0])], uv.0, uv.1),
        spec_third_vertex(t.spec_faces()[face_index(ef[1])], uv.0, uv.1),
    ]
}

/// Every site of `q` names one of `n` vertices.
pub open spec fn quad_in_range(q: [VertexId; 4], n: int) -> bool {
    q[0].0 < n && q[1].0 < n && q[2].0 < n && q[3].0 < n
}

/// For each Delaunay edge, whether [`voronoi2`] should merge its two
/// faces: the edge has two faces and `incircle`, asked for the edge's
/// endpoints and the two third vertices ([`cocircularity_quads`]), answers
/// zero. `incircle(a, b, c, d)` is the sign of `d` against the circle
/// through `a`, `b`, `c`.
pub fn cocircular_flags<G: Fn((i64, i64), (i64, i64), (i64, i64), (i64, i64)) -> Sign>(
    t: &Triangulation2<(i64, i64)>,
    incircle: &G,
) -> (r: Vec<bool>)
    requires
        faces_nondegenerate(t.spec_faces()),
        forall|a: (i64, i64), b: (i64, i64), c: (i64, i64), d: (i64, i64)| incircle.requires((a, b, c, d)),
    ensures
        r.len() == t.spec_edges().len(),
        forall|e: int| 0 <= e < r.len() && #[trigger] r[e] ==> t.spec_edge_faces()[e][1] is Some && quad_in_range(
            spec_quad(t, e),
            t.spec_vertices().len() as int,
        ),
        forall|e: int|
            0 <= e < r.len() && t.spec_edge_faces()[e][1] is Some && quad_in_range(spec_quad(t, e), t.spec_vertices().len() as int)
                ==> exists|s: Sign|
                #![trigger incircle.ensures(
                    (
                        t.spec_vertices()[spec_quad(t, e)[0].0 as int],
                        t.spec_vertices()[spec_quad(t, e)[1].0 as int],
                        t.spec_vertices()[spec_quad(t, e)[2].0 as int],
                        t.spec_vertices()[spec_quad(t, e)[3].0 as int],
                    ),
                    s,
                )]
                incircle.ensures(
                    (
                        t.spec_vertices()[spec_quad(t, e)[0].0 as int],
                        t.spec_vertices()[spec_quad(t, e)[1].0 as int],
                        t.spec_vertices()[spec_quad(t, e)[2].0 as int],
                        t.spec_vertices()[spec_quad(t, e)[3].0 as int],
                    ),
                    s,
                ) && r[e] == (s == Sign::Zero),
{
    let quads = cocircularity_quads(t);
    let pos = vertex_positions(t);
    let n = pos.len();
    let mut r: Vec<bool> = Vec::new();
    let mut e: usize = 0;
    while e < quads.len()
        invariant
            e <= quads.len(),
            n == pos.len(),
            pos@ == t.spec_vertices(),
            r.len() == e,
            quads.len() == t.spec_edges().len(),
            forall|x: int| 0 <= x < quads.len() ==> (#[trigger] quads[x] is Some <==> t.spec_edge_faces()[x][1] is Some),
            forall|x: int| 0 <= x < quads.len() && #[trigger] quads[x] is Some ==> quads[x]->0 == spec_quad(t, x),
            forall|a: (i64, i64), b: (i64, i64), c: (i64, i64), d: (i64, i64)| incircle.requires((a, b, c, d)),
            forall|x: int| 0 <= x < e && #[trigger] r[x] ==> t.spec_edge_faces()[x][1] is Some && quad_in_range(
                spec_quad(t, x),
                n as int,
            ),
            forall|x: int|
                0 <= x < e && t.spec_edge_faces()[x][1] is Some && quad_in_range(spec_quad(t, x), n as int) ==> exists|s: Sign|
                    #![trigger incircle.ensures(
                        (
                            pos@[spec_quad(t, x)[0].0 as int],
                            pos@[spec_quad(t, x)[1].0 as int],
                            pos@[spec_quad(t, x)[2].0 as int],
                            pos@[spec_quad(t, x)[3].0 as int],
                        ),
                        s,
                    )]
                    incircle.ensures(
                        (
                            pos@[spec_quad(t, x)[0].0 as int],
                            pos@[spec_quad(t, x)[1].0 as int],
                            pos@[spec_quad(t, x)[2].0 as int],
                            pos@[spec_quad(t, x)[3].0 as int],
                        ),
                        s,
                    ) && r[x] == (s == Sign::Zero),
        decreases quads.len() - e,
    {
        proof {
            if quads[e as int] is Some {
                assert(quads[e as int]->0 =~= spec_quad(t, e as int));
            }
        }
        let flag = match quads[e] {
            Some(q) => {
                if (q[0].0 as usize) < n && (q[1].0 as usize) < n && (q[2].0 as usize) < n && (q[3].0 as usize) < n {
                    let s = incircle(pos[q[0].0 as usize], pos[q[1].0 as usize], pos[q[2].0 as usize], pos[q[3].0 as usize]);
                    s == Sign::Zero
                } else {
                    false
                }
            },
            None => false,
        };
        r.push(flag);
        e += 1;
    }
    r
}

} // verus!
