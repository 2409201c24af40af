use vstd::prelude::*;

use super::topology::{assemble_triangulation, is_assembled_from, Triangulation2};
use crate::hull::{
    collinear_answer, convex_hull2, dedup_sorted, hull_of, lemma_hull_of_unique, lemma_sorted_dedup_unique, orient_deterministic,
    sorted_dedup_of,
};
use crate::ids::VertexId;
use crate::kinds::HullBoundaryPoints;
use super::voronoi::faces_nondegenerate;
use crate::sign::{Orientation, Sign};

verus! {

broadcast use vstd::seq_lib::group_seq_properties;

/// The symbolic "point at infinity" vertex index of the incremental
/// construction; never a real index into the point list.
pub const GHOST: usize = usize::MAX;

/// `true` iff `idx` is the symbolic point at infinity.
pub fn is_ghost(idx: usize) -> (r: bool)
    ensures
        r == (idx == GHOST),
{
    idx == GHOST
}

/// Directed edge `k` of triangle `t`: `(t0, t1)`, `(t1, t2)`, `(t2, t0)`.
pub open spec fn tri_edge(t: [usize; 3], k: int) -> (usize, usize) {
    if k == 0 {
        (t[0], t[1])
    } else if k == 1 {
        (t[1], t[2])
    } else {
        (t[2], t[0])
    }
}

/// The indices of the triangles flagged bad, ascending.
pub open spec fn bad_indices(is_bad: Seq<bool>) -> Seq<int> {
    Seq::new(is_bad.len(), |i: int| i).filter(|i: int| is_bad[i])
}

/// Every directed edge of the flagged triangles, triangle by triangle.
pub open spec fn cavity_edges(tris: Seq<[usize; 3]>, bad: Seq<int>) -> Seq<(usize, usize)> {
    Seq::new(3 * bad.len(), |x: int| tri_edge(tris[bad[x / 3]], x % 3))
}

/// The cavity boundary: the flagged triangles' directed edges whose
/// reverse is not also one of them, in order.
pub open spec fn cavity_boundary(edges: Seq<(usize, usize)>) -> Seq<(usize, usize)> {
    edges.filter(|e: (usize, usize)| !edges.contains((e.1, e.0)))
}

/// `Vec::swap_remove` on a sequence.
pub open spec fn swap_removed<T>(s: Seq<T>, i: int) -> Seq<T> {
    s.update(i, s.last()).drop_last()
}

/// Removing the given ascending indices by `swap_remove`, highest first.
pub open spec fn swap_remove_all<T>(s: Seq<T>, idx: Seq<int>) -> Seq<T>
    decreases idx.len(),
{
    if idx.len() == 0 {
        s
    } else {
        swap_remove_all(swap_removed(s, idx.last()), idx.drop_last())
    }
}

/// Strictly increasing values below `m`: the one at position `x` leaves
/// room for those after it.
proof fn lemma_increasing_room(s: Seq<usize>, m: int, x: int)
    requires
        forall|x1: int, x2: int| 0 <= x1 < x2 < s.len() ==> #[trigger] s[x1] < #[trigger] s[x2],
        forall|y: int| 0 <= y < s.len() ==> (#[trigger] s[y]) < m,
        0 <= x < s.len(),
    ensures
        s[x] <= m - (s.len() - x),
    decreases s.len() - x,
{
    if x + 1 < s.len() {
        lemma_increasing_room(s, m, x + 1);
    }
}

/// The indices `i` with `is_bad[i]`, ascending.
fn collect_bad(is_bad: &Vec<bool>) -> (bad: Vec<usize>)
    ensures
        bad@.map_values(|b: usize| b as int) == bad_indices(is_bad@),
        forall|x1: int, x2: int| 0 <= x1 < x2 < bad@.len() ==> #[trigger] bad@[x1] < #[trigger] bad@[x2],
        forall|x: int| 0 <= x < bad@.len() ==> (#[trigger] bad@[x]) < is_bad.len(),
{
    let ghost all = Seq::new(is_bad.len() as nat, |i: int| i);
    let ghost bpred = |i: int| is_bad@[i];
    let mut bad: Vec<usize> = Vec::new();
    let mut i: usize = 0;
    while i < is_bad.len()
        invariant
            i <= is_bad.len(),
            all == Seq::new(is_bad.len() as nat, |i: int| i),
            bpred == (|i: int| is_bad@[i]),
            bad@.map_values(|b: usize| b as int) == all.take(i as int).filter(bpred),
            forall|x1: int, x2: int| 0 <= x1 < x2 < bad@.len() ==> #[trigger] bad@[x1] < #[trigger] bad@[x2],
            forall|j: int| 0 <= j < bad@.len() ==> (#[trigger] bad@[j]) < i,
        decreases is_bad.len() - i,
    {
        proof {
            assert(all.take(i + 1) =~= all.take(i as int).push(i as int));
            all.take(i as int).lemma_filter_push(i as int, bpred);
        }
        let ghost old_bad = bad@;
        if is_bad[i] {
            bad.push(i);
            proof {
                assert(bad@.map_values(|b: usize| b as int) =~= old_bad.map_values(|b: usize| b as int).push(i as int));
            }
        }
        i += 1;
    }
    proof {
        assert(all.take(i as int) =~= all);
    }
    bad
}

/// The directed edges of the triangles at the indices `bad`, triangle
/// by triangle.
fn collect_cavity_edges(tris: &Vec<[usize; 3]>, bad: &Vec<usize>) -> (edges: Vec<(usize, usize)>)
    requires
        forall|x: int| 0 <= x < bad@.len() ==> (#[trigger] bad@[x]) < tris.len(),
    ensures
        edges@ == cavity_edges(tris@, bad@.map_values(|b: usize| b as int)),
{
    let ghost badi = bad@.map_values(|b: usize| b as int);
    let ghost cav = cavity_edges(tris@, badi);
    let mut edges: Vec<(usize, usize)> = Vec::new();
    let mut j: usize = 0;
    while j < bad.len()
        invariant
            j <= bad.len(),
            badi == bad@.map_values(|b: usize| b as int),
            forall|x: int| 0 <= x < bad@.len() ==> (#[trigger] bad@[x]) < tris.len(),
            cav == cavity_edges(tris@, badi),
            edges@ == cav.take(3 * j),
        decreases bad.len() - j,
    {
        let t = tris[bad[j]];
        proof {
            assert(cav.len() == 3 * bad.len());
            assert((3 * j) / 3 == j && (3 * j + 1) / 3 == j && (3 * j + 2) / 3 == j);
            assert(cav[3 * j as int] == (t[0], t[1]));
            assert(cav[3 * j + 1] == (t[1], t[2]));
            assert(cav[3 * j + 2] == (t[2], t[0]));
            assert(cav.take(3 * (j + 1)) =~= cav.take(3 * j).push((t[0], t[1])).push((t[1], t[2])).push((t[2], t[0])));
        }
        edges.push((t[0], t[1]));
        edges.push((t[1], t[2]));
        edges.push((t[2], t[0]));
        j += 1;
    }
    proof {
        assert(cav.take(3 * j) =~= cav);
    }
    edges
}

/// The edges of `edges` whose reverse is not among them, in order.
fn boundary_of(edges: &Vec<(usize, usize)>) -> (boundary: Vec<(usize, usize)>)
    ensures
        boundary@ == cavity_boundary(edges@),
{
    let ghost cav = edges@;
    let ghost epred = |e: (usize, usize)| !cav.contains((e.1, e.0));
    let mut boundary: Vec<(usize, usize)> = Vec::new();
    let mut k: usize = 0;
    while k < edges.len()
        invariant
            edges@ == cav,
            k <= edges.len(),
            epred == (|e: (usize, usize)| !cav.contains((e.1, e.0))),
            boundary@ == cav.take(k as int).filter(epred),
        decreases edges.len() - k,
    {
        let (u, v) = edges[k];
        let mut found = false;
        let mut m: usize = 0;
        while m < edges.len()
            invariant
                edges@ == cav,
                m <= edges.len(),
                found == exists|m2: int| 0 <= m2 < m && #[trigger] cav[m2] == (v, u),
            decreases edges.len() - m,
        {
            if edges[m].0 == v && edges[m].1 == u {
                found = true;
                assert(cav[m as int] == (v, u));
            }
            m += 1;
        }
        proof {
            assert(cav.take(k + 1) =~= cav.take(k as int).push(cav[k as int]));
            cav.take(k as int).lemma_filter_push(cav[k as int], epred);
            if found {
                let m2 = choose|m2: int| 0 <= m2 < m && #[trigger] cav[m2] == (v, u);
                assert(cav.contains((v, u)));
            } else {
                assert(!cav.contains((v, u)));
            }
        }
        if !found {
            boundary.push((u, v));
        }
        k += 1;
    }
    proof {
        assert(cav.take(k as int) =~= cav);
    }
    boundary
}

/// Removes the triangles at the ascending indices `bad` by `swap_remove`,
/// highest index first.
fn remove_bad(tris: &mut Vec<[usize; 3]>, bad: &Vec<usize>)
    requires
        forall|x1: int, x2: int| 0 <= x1 < x2 < bad@.len() ==> #[trigger] bad@[x1] < #[trigger] bad@[x2],
        forall|x: int| 0 <= x < bad@.len() ==> (#[trigger] bad@[x]) < old(tris).len(),
    ensures
        final(tris)@ == swap_remove_all(old(tris)@, bad@.map_values(|b: usize| b as int)),
{
    let ghost old_tris = tris@;
    let ghost badi = bad@.map_values(|b: usize| b as int);
    let mut r: usize = bad.len();
    while r > 0
        invariant
            r <= bad.len(),
            badi == bad@.map_values(|b: usize| b as int),
            forall|x1: int, x2: int| 0 <= x1 < x2 < bad@.len() ==> #[trigger] bad@[x1] < #[trigger] bad@[x2],
            forall|x: int| 0 <= x < bad@.len() ==> (#[trigger] bad@[x]) < old_tris.len(),
            tris.len() == old_tris.len() - (bad.len() - r),
            swap_remove_all(tris@, badi.take(r as int)) == swap_remove_all(old_tris, badi),
        decreases r,
    {
        proof {
            lemma_increasing_room(bad@, old_tris.len() as int, r - 1);
            assert(badi.take(r as int).drop_last() =~= badi.take(r - 1));
            assert(badi.take(r as int).last() == bad@[r - 1] as int);
        }
        tris.swap_remove(bad[r - 1]);
        r -= 1;
    }
    proof {
        assert(badi.take(0) =~= Seq::<int>::empty());
        assert(badi.take(bad.len() as int) =~= badi);
    }
}

/// One incremental insertion step of the cavity construction: removes
/// the triangles flagged in `is_bad` (by `swap_remove`, highest index
/// first) and fans every cavity boundary edge `(u, v)` to the new point
/// as `[u, v, p_idx]`, appended in boundary order.
pub fn insert_point(tris: &mut Vec<[usize; 3]>, is_bad: &Vec<bool>, p_idx: usize)
    requires
        is_bad.len() == old(tris).len(),
    ensures
        ({
            let bad = bad_indices(is_bad@);
            let boundary = cavity_boundary(cavity_edges(old(tris)@, bad));
            final(tris)@ == swap_remove_all(old(tris)@, bad) + boundary.map_values(
                |e: (usize, usize)| [e.0, e.1, p_idx],
            )
        }),
{
    let bad = collect_bad(is_bad);
    let edges = collect_cavity_edges(tris, &bad);
    let boundary = boundary_of(&edges);
    remove_bad(tris, &bad);
    let ghost removed = tris@;
    let ghost fan = |e: (usize, usize)| [e.0, e.1, p_idx];
    let mut q: usize = 0;
    while q < boundary.len()
        invariant
            q <= boundary.len(),
            fan == (|e: (usize, usize)| [e.0, e.1, p_idx]),
            tris@ == removed + boundary@.take(q as int).map_values(fan),
        decreases boundary.len() - q,
    {
        let (u, v) = boundary[q];
        tris.push([u, v, p_idx]);
        proof {
            assert(boundary@.take(q + 1) =~= boundary@.take(q as int).push((u, v)));
            assert(boundary@.take(q + 1).map_values(fan) =~= boundary@.take(q as int).map_values(fan).push([u, v, p_idx]));
            assert(tris@ =~= removed + boundary@.take(q + 1).map_values(fan));
        }
        q += 1;
    }
    proof {
        assert(boundary@.take(q as int) =~= boundary@);
    }
}

/// The triangle has no ghost vertex.
pub open spec fn is_real(t: [usize; 3]) -> bool {
    t[0] != GHOST && t[1] != GHOST && t[2] != GHOST
}

/// The triangle as a face of vertex handles.
pub open spec fn to_face(t: [usize; 3]) -> [VertexId; 3] {
    [VertexId(t[0] as u32), VertexId(t[1] as u32), VertexId(t[2] as u32)]
}

/// Builds the triangulation topology from the incremental construction's
/// raw triangle list: every triangle with a ghost vertex is dropped and
/// the rest, in order, become the faces over the vertex list `pts`.
pub fn build_topology<P>(pts: Vec<P>, tris: Vec<[usize; 3]>) -> (t: Triangulation2<P>)
    requires
        3 * tris.len() <= u32::MAX,
    ensures
        t.spec_vertices() == pts@,
        t.spec_faces() == tris@.filter(|x: [usize; 3]| is_real(x)).map_values(|x: [usize; 3]| to_face(x)),
        is_assembled_from(t.spec_faces(), t.spec_face_neighbors(), t.spec_edges(), t.spec_edge_faces()),
{
    let ghost rpred = |x: [usize; 3]| is_real(x);
    let ghost conv = |x: [usize; 3]| to_face(x);
    let mut faces: Vec<[VertexId; 3]> = Vec::new();
    let mut i: usize = 0;
    while i < tris.len()
        invariant
            i <= tris.len(),
            3 * tris.len() <= u32::MAX,
            rpred == (|x: [usize; 3]| is_real(x)),
            conv == (|x: [usize; 3]| to_face(x)),
            faces@ == tris@.take(i as int).filter(rpred).map_values(conv),
            faces@.len() <= i,
        decreases tris.len() - i,
    {
        let tri = tris[i];
        proof {
            assert(tris@.take(i + 1) =~= tris@.take(i as int).push(tri));
            tris@.take(i as int).lemma_filter_push(tri, rpred);
            tris@.take(i as int).filter(rpred).lemma_push_map_commute(conv, tri);
        }
        if !is_ghost(tri[0]) && !is_ghost(tri[1]) && !is_ghost(tri[2]) {
            faces.push([VertexId(tri[0] as u32), VertexId(tri[1] as u32), VertexId(tri[2] as u32)]);
        }
        i += 1;
    }
    proof {
        assert(tris@.take(i as int) =~= tris@);
    }
    assemble_triangulation(pts, faces)
}

/// At most one of the triangle's vertices is the ghost.
pub open spec fn at_most_one_ghost(t: [usize; 3]) -> bool {
    !(t[0] == GHOST && t[1] == GHOST) && !(t[1] == GHOST && t[2] == GHOST) && !(t[0] == GHOST && t[2] == GHOST)
}

/// Every element left by a `swap_remove` was in the sequence.
proof fn lemma_swap_removed_subset<T>(s: Seq<T>, i: int)
    requires
        0 <= i < s.len(),
    ensures
        forall|j: int| 0 <= j < swap_removed(s, i).len() ==> s.contains(#[trigger] swap_removed(s, i)[j]),
{
    assert forall|j: int| 0 <= j < swap_removed(s, i).len() implies s.contains(#[trigger] swap_removed(s, i)[j]) by {
        if j == i {
            assert(s[s.len() - 1] == swap_removed(s, i)[j]);
        } else {
            assert(s[j] == swap_removed(s, i)[j]);
        }
    }
}

/// Every element left by removing ascending valid indices was in the
/// sequence.
proof fn lemma_swap_remove_all_subset<T>(s: Seq<T>, idx: Seq<int>)
    requires
        forall|x1: int, x2: int| 0 <= x1 < x2 < idx.len() ==> #[trigger] idx[x1] < #[trigger] idx[x2],
        forall|x: int| 0 <= x < idx.len() ==> 0 <= #[trigger] idx[x] < s.len(),
    ensures
        forall|j: int| 0 <= j < swap_remove_all(s, idx).len() ==> s.contains(#[trigger] swap_remove_all(s, idx)[j]),
    decreases idx.len(),
{
    if idx.len() > 0 {
        let s2 = swap_removed(s, idx.last());
        lemma_swap_removed_subset(s, idx.last());
        let rest = idx.drop_last();
        assert forall|x: int| 0 <= x < rest.len() implies 0 <= #[trigger] rest[x] < s2.len() by {
            assert(idx[x] < idx[idx.len() - 1]);
        }
        lemma_swap_remove_all_subset(s2, rest);
        assert forall|j: int| 0 <= j < swap_remove_all(s, idx).len() implies s.contains(#[trigger] swap_remove_all(s, idx)[j]) by {
            let y = swap_remove_all(s2, rest)[j];
            assert(s2.contains(y));
            let k = choose|k: int| 0 <= k < s2.len() && s2[k] == y;
            assert(s.contains(s2[k]));
        }
    }
}

/// The cavity construction never creates a triangle with two ghost
/// vertices: if every triangle has at most one ghost and the inserted
/// point is real, the same holds afterwards.
pub proof fn lemma_insert_keeps_single_ghost(tris: Seq<[usize; 3]>, is_bad: Seq<bool>, p_idx: usize)
    requires
        is_bad.len() == tris.len(),
        forall|i: int| 0 <= i < tris.len() ==> at_most_one_ghost(#[trigger] tris[i]),
        p_idx != GHOST,
    ensures
        ({
            let bad = bad_indices(is_bad);
            let boundary = cavity_boundary(cavity_edges(tris, bad));
            let result = swap_remove_all(tris, bad) + boundary.map_values(|e: (usize, usize)| [e.0, e.1, p_idx]);
            forall|i: int| 0 <= i < result.len() ==> at_most_one_ghost(#[trigger] result[i])
        }),
{
    let bad = bad_indices(is_bad);
    let all = Seq::new(is_bad.len(), |i: int| i);
    let bpred = |i: int| is_bad[i];
    lemma_filter_of_range_sorted(is_bad);
    let cav = cavity_edges(tris, bad);
    let boundary = cavity_boundary(cav);
    let kept = swap_remove_all(tris, bad);
    lemma_swap_remove_all_subset(tris, bad);
    let fan = |e: (usize, usize)| [e.0, e.1, p_idx];
    let result = kept + boundary.map_values(fan);
    assert forall|i: int| 0 <= i < result.len() implies at_most_one_ghost(#[trigger] result[i]) by {
        if i < kept.len() {
            assert(tris.contains(kept[i]));
        } else {
            let j = i - kept.len();
            let e = boundary[j];
            let epred = |e: (usize, usize)| !cav.contains((e.1, e.0));
            assert(cav.filter(epred).contains(e)) by {
                assert(boundary[j] == e);
            }
            cav.lemma_filter_contains_rev(epred, e);
            let x = choose|x: int| 0 <= x < cav.len() && cav[x] == e;
            let tri = tris[bad[x / 3]];
            assert(at_most_one_ghost(tri));
            assert(result[i] == [e.0, e.1, p_idx]);
        }
    }
}

/// The bad indices below `m`, ascending.
pub open spec fn bad_indices_upto(is_bad: Seq<bool>, m: int) -> Seq<int> {
    Seq::new(m as nat, |i: int| i).filter(|i: int| is_bad[i])
}

proof fn lemma_bad_step(is_bad: Seq<bool>, m: int)
    requires
        0 <= m,
    ensures
        bad_indices_upto(is_bad, m + 1) == if is_bad[m] {
            bad_indices_upto(is_bad, m).push(m)
        } else {
            bad_indices_upto(is_bad, m)
        },
{
    let pred = |i: int| is_bad[i];
    let s = Seq::new(m as nat, |i: int| i);
    assert(Seq::new((m + 1) as nat, |i: int| i) =~= s.push(m));
    s.lemma_filter_push(m, pred);
}

proof fn lemma_bad_sorted_upto(is_bad: Seq<bool>, m: int)
    requires
        0 <= m,
    ensures
        forall|x1: int, x2: int|
            0 <= x1 < x2 < bad_indices_upto(is_bad, m).len() ==> #[trigger] bad_indices_upto(is_bad, m)[x1]
                < #[trigger] bad_indices_upto(is_bad, m)[x2],
        forall|x: int| 0 <= x < bad_indices_upto(is_bad, m).len() ==> 0 <= #[trigger] bad_indices_upto(is_bad, m)[x] < m,
    decreases m,
{
    if m > 0 {
        lemma_bad_sorted_upto(is_bad, m - 1);
        lemma_bad_step(is_bad, m - 1);
    }
}

/// The triangle's three entries are pairwise different.
pub open spec fn tri_distinct(t: [usize; 3]) -> bool {
    t[0] != t[1] && t[1] != t[2] && t[0] != t[2]
}

/// `x` is the ghost, a corner of `first`, or a point before `i`.
pub open spec fn entry_before(x: usize, first: [usize; 3], i: int) -> bool {
    x == GHOST || x == first[0] || x == first[1] || x == first[2] || x < i
}

/// Every entry of `t` is the ghost, a corner of `first`, or a point
/// before `i`.
pub open spec fn entries_before(t: [usize; 3], first: [usize; 3], i: int) -> bool {
    entry_before(t[0], first, i) && entry_before(t[1], first, i) && entry_before(t[2], first, i)
}

/// The cavity construction keeps every triangle's entries distinct and
/// made of the ghost, the starting corners and the points inserted so
/// far: the new point is in no triangle yet, and every cavity boundary
/// edge joins two different entries.
pub proof fn lemma_insert_keeps_distinct(tris: Seq<[usize; 3]>, is_bad: Seq<bool>, p: usize, first: [usize; 3])
    requires
        is_bad.len() == tris.len(),
        forall|i: int| 0 <= i < tris.len() ==> tri_distinct(#[trigger] tris[i]) && entries_before(tris[i], first, p as int),
        p != GHOST,
        p != first[0] && p != first[1] && p != first[2],
    ensures
        ({
            let bad = bad_indices(is_bad);
            let boundary = cavity_boundary(cavity_edges(tris, bad));
            let result = swap_remove_all(tris, bad) + boundary.map_values(|e: (usize, usize)| [e.0, e.1, p]);
            forall|i: int| 0 <= i < result.len() ==> tri_distinct(#[trigger] result[i]) && entries_before(result[i], first, p + 1)
        }),
{
    let bad = bad_indices(is_bad);
    lemma_filter_of_range_sorted(is_bad);
    let cav = cavity_edges(tris, bad);
    let boundary = cavity_boundary(cav);
    let kept = swap_remove_all(tris, bad);
    lemma_swap_remove_all_subset(tris, bad);
    let fan = |e: (usize, usize)| [e.0, e.1, p];
    let result = kept + boundary.map_values(fan);
    assert forall|i: int| 0 <= i < result.len() implies tri_distinct(#[trigger] result[i]) && entries_before(result[i], first, p + 1) by {
        if i < kept.len() {
            assert(tris.contains(kept[i]));
            let k = choose|k: int| 0 <= k < tris.len() && tris[k] == kept[i];
            assert(tri_distinct(tris[k]) && entries_before(tris[k], first, p as int));
        } else {
            let j = i - kept.len();
            let e = boundary[j];
            let epred = |e: (usize, usize)| !cav.contains((e.1, e.0));
            assert(cav.filter(epred).contains(e)) by {
                assert(boundary[j] == e);
            }
            cav.lemma_filter_contains_rev(epred, e);
            let x = choose|x: int| 0 <= x < cav.len() && cav[x] == e;
            let tri = tris[bad[x / 3]];
            assert(tri_distinct(tri) && entries_before(tri, first, p as int));
            assert(result[i] == [e.0, e.1, p]);
        }
    }
}

/// The ascending bad indices are strictly increasing valid indices.
proof fn lemma_filter_of_range_sorted(is_bad: Seq<bool>)
    ensures
        forall|x1: int, x2: int|
            0 <= x1 < x2 < bad_indices(is_bad).len() ==> #[trigger] bad_indices(is_bad)[x1] < #[trigger] bad_indices(
                is_bad,
            )[x2],
        forall|x: int| 0 <= x < bad_indices(is_bad).len() ==> 0 <= #[trigger] bad_indices(is_bad)[x] < is_bad.len(),
{
    lemma_bad_sorted_upto(is_bad, is_bad.len() as int);
    assert(bad_indices(is_bad) == bad_indices_upto(is_bad, is_bad.len() as int));
}

/// One insertion step on `tris` for the point `p`, by the flags of the
/// triangles it invalidates: what [`insert_point`] leaves.
pub open spec fn inserted(tris: Seq<[usize; 3]>, flags: Seq<bool>, p: usize) -> Seq<[usize; 3]> {
    let bad = bad_indices(flags);
    swap_remove_all(tris, bad) + cavity_boundary(cavity_edges(tris, bad)).map_values(|e: (usize, usize)| [e.0, e.1, p])
}

/// The starting triangles: `first` and the ghost triangles on its outer
/// edges.
pub open spec fn initial_triangles(first: [usize; 3]) -> Seq<[usize; 3]> {
    seq![[first[0], first[1], first[2]], [first[1], first[0], GHOST], [first[2], first[1], GHOST], [first[0], first[2], GHOST]]
}

/// `after` follows `before` by the step for point `i`: nothing for a
/// corner of `first`; otherwise the insertion of `i` with one flag per
/// triangle, each an answer that `allowed` admits for that triangle and
/// point.
pub open spec fn insertion_step(
    allowed: spec_fn([usize; 3], usize, bool) -> bool,
    first: [usize; 3],
    before: Seq<[usize; 3]>,
    i: usize,
    after: Seq<[usize; 3]>,
) -> bool {
    if i == first[0] || i == first[1] || i == first[2] {
        after == before
    } else {
        exists|flags: Seq<bool>|
            #[trigger] inserted(before, flags, i) == after && flags.len() == before.len() && forall|k: int|
                0 <= k < before.len() ==> #[trigger] allowed(before[k], i, flags[k])
    }
}

/// The answers the closure `is_bad` may give.
pub open spec fn answers_of<F: Fn([usize; 3], usize) -> bool>(is_bad: F) -> spec_fn([usize; 3], usize, bool) -> bool {
    |t: [usize; 3], i: usize, b: bool| is_bad.ensures((t, i), b)
}

/// State `j + 1` of `states` follows state `j` by the step for point `j`.
pub open spec fn run_step(
    allowed: spec_fn([usize; 3], usize, bool) -> bool,
    first: [usize; 3],
    states: Seq<Seq<[usize; 3]>>,
    j: int,
) -> bool {
    insertion_step(allowed, first, states[j], j as usize, states[j + 1])
}

/// `states` is a run of the construction: it starts at the starting
/// triangles and each state follows the one before it.
pub open spec fn insertion_run(
    allowed: spec_fn([usize; 3], usize, bool) -> bool,
    first: [usize; 3],
    states: Seq<Seq<[usize; 3]>>,
) -> bool {
    &&& states.len() >= 1
    &&& states[0] == initial_triangles(first)
    &&& forall|j: int| 0 <= j < states.len() - 1 ==> #[trigger] run_step(allowed, first, states, j)
}

/// A run under `a1` is a run under any `a2` that admits every answer
/// `a1` admits.
pub proof fn lemma_run_weaken(
    a1: spec_fn([usize; 3], usize, bool) -> bool,
    a2: spec_fn([usize; 3], usize, bool) -> bool,
    first: [usize; 3],
    states: Seq<Seq<[usize; 3]>>,
)
    requires
        insertion_run(a1, first, states),
        forall|t: [usize; 3], i: usize, b: bool| #[trigger] a1(t, i, b) ==> a2(t, i, b),
    ensures
        insertion_run(a2, first, states),
{
    assert forall|j: int| 0 <= j < states.len() - 1 implies #[trigger] run_step(a2, first, states, j) by {
        assert(run_step(a1, first, states, j));
        let i = j as usize;
        if !(i == first[0] || i == first[1] || i == first[2]) {
            let flags = choose|flags: Seq<bool>|
                #[trigger] inserted(states[j], flags, i) == states[j + 1] && flags.len() == states[j].len() && forall|k: int|
                    0 <= k < states[j].len() ==> #[trigger] a1(states[j][k], i, flags[k]);
            assert forall|k: int| 0 <= k < states[j].len() implies #[trigger] a2(states[j][k], i, flags[k]) by {
                assert(a1(states[j][k], i, flags[k]));
            }
            assert(inserted(states[j], flags, i) == states[j + 1]);
        }
    }
}

/// `allowed` admits one answer per triangle and point.
pub open spec fn answers_unique(allowed: spec_fn([usize; 3], usize, bool) -> bool) -> bool {
    forall|t: [usize; 3], i: usize, b1: bool, b2: bool| #[trigger] allowed(t, i, b1) && #[trigger] allowed(t, i, b2) ==> b1 == b2
}

/// Two runs from the same start, under an `allowed` with one answer per
/// triangle and point, agree at every state.
proof fn lemma_runs_agree(
    allowed: spec_fn([usize; 3], usize, bool) -> bool,
    first: [usize; 3],
    st1: Seq<Seq<[usize; 3]>>,
    st2: Seq<Seq<[usize; 3]>>,
    i: int,
)
    requires
        answers_unique(allowed),
        insertion_run(allowed, first, st1),
        insertion_run(allowed, first, st2),
        0 <= i < st1.len(),
        st1.len() == st2.len(),
    ensures
        st1[i] == st2[i],
    decreases i,
{
    if i > 0 {
        lemma_runs_agree(allowed, first, st1, st2, i - 1);
        assert(run_step(allowed, first, st1, i - 1));
        assert(run_step(allowed, first, st2, i - 1));
        let p = (i - 1) as usize;
        let before = st1[i - 1];
        if !(p == first[0] || p == first[1] || p == first[2]) {
            let f1 = choose|flags: Seq<bool>|
                #[trigger] inserted(before, flags, p) == st1[i] && flags.len() == before.len() && forall|k: int|
                    0 <= k < before.len() ==> #[trigger] allowed(before[k], p, flags[k]);
            let f2 = choose|flags: Seq<bool>|
                #[trigger] inserted(before, flags, p) == st2[i] && flags.len() == before.len() && forall|k: int|
                    0 <= k < before.len() ==> #[trigger] allowed(before[k], p, flags[k]);
            assert forall|k: int| 0 <= k < before.len() implies f1[k] == f2[k] by {
                assert(allowed(before[k], p, f1[k]) && allowed(before[k], p, f2[k]));
            }
            assert(f1 =~= f2);
        }
    }
}

/// The incremental Delaunay construction over points `0..n`, before the
/// ghost triangles are dropped: the counterclockwise triangle `first`
/// with a closed fan of ghost triangles around its outer edges, then every
/// other point inserted in index order. `is_bad(t, i)` says whether
/// triangle `t`'s circumcircle strictly holds point `i` (for a triangle
/// with the ghost vertex, whether `i` lies strictly left of its real
/// edge). Every triangle keeps at most one ghost vertex.
pub fn incremental_triangles<F: Fn([usize; 3], usize) -> bool>(n: usize, first: [usize; 3], is_bad: &F) -> (r: Vec<
    [usize; 3],
>)
    requires
        n < GHOST,
        first[0] < n && first[1] < n && first[2] < n,
        forall|t: [usize; 3], i: usize| is_bad.requires((t, i)),
    ensures
        forall|k: int| 0 <= k < r.len() ==> at_most_one_ghost(#[trigger] r@[k]),
        exists|states: Seq<Seq<[usize; 3]>>|
            #[trigger] insertion_run(answers_of(*is_bad), first, states) && states.len() == n + 1 && states[n as int] == r@,
        tri_distinct(first) ==> forall|k: int|
            0 <= k < r.len() ==> tri_distinct(#[trigger] r@[k]) && entries_before(r@[k], first, n as int),
{
    let ia = first[0];
    let ib = first[1];
    let ic = first[2];
    let mut tris: Vec<[usize; 3]> = vec![[ia, ib, ic], [ib, ia, GHOST], [ic, ib, GHOST], [ia, ic, GHOST]];
    let ghost mut states: Seq<Seq<[usize; 3]>> = seq![tris@];
    proof {
        assert(tris@ =~= initial_triangles(first));
    }
    let mut i: usize = 0;
    while i < n
        invariant
            n < GHOST,
            i <= n,
            first[0] == ia && first[1] == ib && first[2] == ic,
            forall|t: [usize; 3], j: usize| is_bad.requires((t, j)),
            forall|k: int| 0 <= k < tris.len() ==> at_most_one_ghost(#[trigger] tris@[k]),
            insertion_run(answers_of(*is_bad), first, states),
            states.len() == i + 1,
            states[i as int] == tris@,
            tri_distinct(first) ==> forall|k: int|
                0 <= k < tris.len() ==> tri_distinct(#[trigger] tris@[k]) && entries_before(tris@[k], first, i as int),
        decreases n - i,
    {
        let ghost before = tris@;
        if i != ia && i != ib && i != ic {
            let mut flags: Vec<bool> = Vec::new();
            let mut k: usize = 0;
            while k < tris.len()
                invariant
                    k <= tris.len(),
                    flags.len() == k,
                    forall|t: [usize; 3], j: usize| is_bad.requires((t, j)),
                    forall|x: int| 0 <= x < k ==> #[trigger] is_bad.ensures((tris@[x], i), flags@[x]),
                decreases tris.len() - k,
            {
                let b = is_bad(tris[k], i);
                flags.push(b);
                k += 1;
            }
            proof {
                lemma_insert_keeps_single_ghost(tris@, flags@, i);
                if tri_distinct(first) {
                    lemma_insert_keeps_distinct(tris@, flags@, i, first);
                }
            }
            insert_point(&mut tris, &flags, i);
            proof {
                assert(tris@ =~= inserted(before, flags@, i));
                assert(insertion_step(answers_of(*is_bad), first, before, i, tris@));
            }
        }
        proof {
            if tri_distinct(first) && tris@ == before {
                assert forall|k: int| 0 <= k < tris.len() implies tri_distinct(#[trigger] tris@[k]) && entries_before(
                    tris@[k],
                    first,
                    i + 1,
                ) by {
                    assert(entries_before(tris@[k], first, i as int));
                }
            }
            let old_states = states;
            states = states.push(tris@);
            assert(run_step(answers_of(*is_bad), first, states, i as int));
            assert forall|j: int| 0 <= j < states.len() - 1 implies #[trigger] run_step(answers_of(*is_bad), first, states, j) by {
                if j < i {
                    assert(run_step(answers_of(*is_bad), first, old_states, j));
                    assert(states[j] == old_states[j] && states[j + 1] == old_states[j + 1]);
                }
            }
        }
        i += 1;
    }
    tris
}

/// What [`is_bad`] answers for triangle `t` and point `i` of `pts`: for a
/// real triangle, that `incircle` puts point `i` strictly inside its
/// circle; for a triangle whose one ghost vertex is at position `g`, that
/// `orient` puts point `i` strictly left of the real edge that follows
/// it; `false` for an index out of range or any other triangle.
pub open spec fn bad_answer<
    F: Fn((i64, i64), (i64, i64), (i64, i64)) -> Orientation,
    G: Fn((i64, i64), (i64, i64), (i64, i64), (i64, i64)) -> Sign,
>(pts: Seq<(i64, i64)>, t: [usize; 3], i: usize, orient: F, incircle: G, r: bool) -> bool {
    let n = pts.len();
    if i >= n {
        !r
    } else if t[0] < n && t[1] < n && t[2] < n {
        exists|s: Sign| #[trigger] incircle.ensures((pts[t[0] as int], pts[t[1] as int], pts[t[2] as int], pts[i as int]), s) && r == (s == Sign::Positive)
    } else if t[0] == GHOST && t[1] < n && t[2] < n {
        exists|o: Orientation| #[trigger] orient.ensures((pts[t[1] as int], pts[t[2] as int], pts[i as int]), o) && r == (o == Orientation::CounterClockwise)
    } else if t[0] < n && t[1] == GHOST && t[2] < n {
        exists|o: Orientation| #[trigger] orient.ensures((pts[t[2] as int], pts[t[0] as int], pts[i as int]), o) && r == (o == Orientation::CounterClockwise)
    } else if t[0] < n && t[1] < n && t[2] == GHOST {
        exists|o: Orientation| #[trigger] orient.ensures((pts[t[0] as int], pts[t[1] as int], pts[i as int]), o) && r == (o == Orientation::CounterClockwise)
    } else {
        !r
    }
}

/// Whether point `i` invalidates triangle `t` of the incremental
/// construction over `pts`: for a real triangle, `i` lies strictly inside
/// its circumcircle; for one with the ghost vertex, `i` lies strictly
/// left of its real edge, taken in the triangle's own order.
pub fn is_bad<F: Fn((i64, i64), (i64, i64), (i64, i64)) -> Orientation, G: Fn((i64, i64), (i64, i64), (i64, i64), (i64, i64)) -> Sign>(
    pts: &Vec<(i64, i64)>,
    t: [usize; 3],
    i: usize,
    orient: &F,
    incircle: &G,
) -> (r: bool)
    requires
        forall|a: (i64, i64), b: (i64, i64), c: (i64, i64)| orient.requires((a, b, c)),
        forall|a: (i64, i64), b: (i64, i64), c: (i64, i64), d: (i64, i64)| incircle.requires((a, b, c, d)),
    ensures
        bad_answer(pts@, t, i, *orient, *incircle, r),
{
    let n = pts.len();
    if i >= n {
        return false;
    }
    let p = pts[i];
    let (i0, i1, i2) = (t[0] < n, t[1] < n, t[2] < n);
    if i0 && i1 && i2 {
        incircle(pts[t[0]], pts[t[1]], pts[t[2]], p) == Sign::Positive
    } else if t[0] == GHOST && i1 && i2 {
        orient(pts[t[1]], pts[t[2]], p) == Orientation::CounterClockwise
    } else if i0 && t[1] == GHOST && i2 {
        orient(pts[t[2]], pts[t[0]], p) == Orientation::CounterClockwise
    } else if i0 && i1 && t[2] == GHOST {
        orient(pts[t[0]], pts[t[1]], p) == Orientation::CounterClockwise
    } else {
        false
    }
}

/// The three placements of the ghost vertex in a triangle over the real
/// edge `a -> b` judge a point alike: each asks for the turn `a, b, p`.
pub proof fn lemma_ghost_rotation_agrees<
    F: Fn((i64, i64), (i64, i64), (i64, i64)) -> Orientation,
    G: Fn((i64, i64), (i64, i64), (i64, i64), (i64, i64)) -> Sign,
>(pts: Seq<(i64, i64)>, a: usize, b: usize, i: usize, orient: F, incircle: G, r1: bool, r2: bool, r3: bool)
    requires
        orient_deterministic(orient),
        pts.len() < GHOST,
        a < pts.len() && b < pts.len(),
        bad_answer(pts, [a, b, GHOST], i, orient, incircle, r1),
        bad_answer(pts, [GHOST, a, b], i, orient, incircle, r2),
        bad_answer(pts, [b, GHOST, a], i, orient, incircle, r3),
    ensures
        r1 == r2 && r1 == r3,
{
    if i < pts.len() {
        let o1 = choose|o: Orientation| #[trigger] orient.ensures((pts[a as int], pts[b as int], pts[i as int]), o) && r1 == (o
            == Orientation::CounterClockwise);
        let o2 = choose|o: Orientation| #[trigger] orient.ensures((pts[a as int], pts[b as int], pts[i as int]), o) && r2 == (o
            == Orientation::CounterClockwise);
        let o3 = choose|o: Orientation| #[trigger] orient.ensures((pts[a as int], pts[b as int], pts[i as int]), o) && r3 == (o
            == Orientation::CounterClockwise);
    }
}

/// `t` has no vertex and no face.
pub open spec fn no_triangulation<P>(t: Triangulation2<P>) -> bool {
    t.spec_vertices().len() == 0 && t.spec_faces().len() == 0
}

/// The answers [`is_bad`] may give over the points `pts`.
pub open spec fn bad_answers<
    F: Fn((i64, i64), (i64, i64), (i64, i64)) -> Orientation,
    G: Fn((i64, i64), (i64, i64), (i64, i64), (i64, i64)) -> Sign,
>(pts: Seq<(i64, i64)>, orient: F, incircle: G) -> spec_fn([usize; 3], usize, bool) -> bool {
    |t: [usize; 3], i: usize, b: bool| bad_answer(pts, t, i, orient, incircle, b)
}

/// The search for a point off the line through the first two of `d`
/// stops at `ic`: every point from the third one before `ic` was answered
/// collinear, and the point at `ic`, if any, was answered otherwise.
pub open spec fn start_index<F: Fn((i64, i64), (i64, i64), (i64, i64)) -> Orientation>(
    orient: F,
    d: Seq<(i64, i64)>,
    ic: int,
) -> bool {
    &&& 2 <= ic <= d.len()
    &&& forall|k: int| 2 <= k < ic ==> #[trigger] collinear_answer(orient, d[0], d[1], d[k])
    &&& ic < d.len() ==> exists|o: Orientation| o != Orientation::Collinear && #[trigger] orient.ensures((d[0], d[1], d[ic]), o)
}

/// The starting triangle over the first two points and point `ic`, turned
/// counterclockwise by the answer `o` for them.
pub open spec fn first_triangle(o: Orientation, ic: int) -> [usize; 3] {
    if o == Orientation::Clockwise {
        [1usize, 0usize, ic as usize]
    } else {
        [0usize, 1usize, ic as usize]
    }
}

/// `t` is built over the points `d` from the final triangles `last` of
/// the construction: no triangulation when their count would not fit
/// the `u32` ids, else the vertices `d` and the triangles without the
/// ghost vertex, in order.
pub open spec fn built_from<P>(d: Seq<P>, last: Seq<[usize; 3]>, t: Triangulation2<P>) -> bool {
    if last.len() > 1431655765 {
        no_triangulation(t)
    } else {
        t.spec_vertices() == d && t.spec_faces() == last.filter(|x: [usize; 3]| is_real(x)).map_values(|x: [usize; 3]| to_face(x))
    }
}

/// What [`delaunay2`] gives for `points`, stated over the answers of
/// `orient` and `incircle`: the sorted distinct points `d` and their
/// hull `h` (extreme points only); no triangulation when the hull has
/// fewer than three corners, when the points do not fit the ids, or when
/// no point is off the line through the first two; otherwise the
/// triangles of a run of the construction from the counterclockwise
/// starting triangle, each step flagging triangles as [`is_bad`] may.
pub open spec fn delaunay_outcome<
    F: Fn((i64, i64), (i64, i64), (i64, i64)) -> Orientation,
    G: Fn((i64, i64), (i64, i64), (i64, i64), (i64, i64)) -> Sign,
>(points: Seq<(i64, i64)>, orient: F, incircle: G, t: Triangulation2<(i64, i64)>) -> bool {
    exists|d: Seq<(i64, i64)>, h: Seq<(i64, i64)>|
        sorted_dedup_of(d, points) && #[trigger] hull_of(d, HullBoundaryPoints::ExtremesOnly, orient, h) && if h.len() < 3
            || d.len() >= GHOST || d.len() > u32::MAX {
            no_triangulation(t)
        } else {
            exists|ic: int|
                #[trigger] start_index(orient, d, ic) && if ic == d.len() {
                    no_triangulation(t)
                } else {
                    exists|o: Orientation, states: Seq<Seq<[usize; 3]>>|
                        #![trigger orient.ensures((d[0], d[1], d[ic]), o), insertion_run(bad_answers(d, orient, incircle), first_triangle(o, ic), states)]
                        orient.ensures((d[0], d[1], d[ic]), o) && insertion_run(
                            bad_answers(d, orient, incircle),
                            first_triangle(o, ic),
                            states,
                        ) && states.len() == d.len() + 1 && built_from(d, states[d.len() as int], t)
                }
        }
}

/// The in-circle oracle gives one answer per quadruple.
pub open spec fn incircle_deterministic<G: Fn((i64, i64), (i64, i64), (i64, i64), (i64, i64)) -> Sign>(incircle: G) -> bool {
    forall|a: (i64, i64), b: (i64, i64), c: (i64, i64), q: (i64, i64), s1: Sign, s2: Sign|
        #[trigger] incircle.ensures((a, b, c, q), s1) && #[trigger] incircle.ensures((a, b, c, q), s2) ==> s1 == s2
}

/// With one answer per question to each oracle, [`is_bad`] has one
/// answer per triangle and point.
proof fn lemma_bad_answers_unique<
    F: Fn((i64, i64), (i64, i64), (i64, i64)) -> Orientation,
    G: Fn((i64, i64), (i64, i64), (i64, i64), (i64, i64)) -> Sign,
>(pts: Seq<(i64, i64)>, orient: F, incircle: G)
    requires
        orient_deterministic(orient),
        incircle_deterministic(incircle),
    ensures
        answers_unique(bad_answers(pts, orient, incircle)),
{
    assert forall|t: [usize; 3], i: usize, b1: bool, b2: bool|
        #[trigger] bad_answers(pts, orient, incircle)(t, i, b1) && #[trigger] bad_answers(pts, orient, incircle)(t, i, b2)
        implies b1 == b2 by {
        assert(bad_answer(pts, t, i, orient, incircle, b1));
        assert(bad_answer(pts, t, i, orient, incircle, b2));
    }
}

/// With one answer per triple, the search for the third starting point
/// stops at one place.
proof fn lemma_start_index_unique<F: Fn((i64, i64), (i64, i64), (i64, i64)) -> Orientation>(
    orient: F,
    d: Seq<(i64, i64)>,
    i1: int,
    i2: int,
)
    requires
        orient_deterministic(orient),
        start_index(orient, d, i1),
        start_index(orient, d, i2),
    ensures
        i1 == i2,
{
    if i1 < i2 {
        assert(collinear_answer(orient, d[0], d[1], d[i1]));
    } else if i2 < i1 {
        assert(collinear_answer(orient, d[0], d[1], d[i2]));
    }
}

/// The Delaunay triangulation does not depend on the order in which the
/// input lists its points, nor on how often it repeats one: two inputs
/// with the same points give the same vertices and the same faces, in
/// the same order, when each oracle gives one answer per question.
pub proof fn lemma_delaunay_order_independent<
    F: Fn((i64, i64), (i64, i64), (i64, i64)) -> Orientation,
    G: Fn((i64, i64), (i64, i64), (i64, i64), (i64, i64)) -> Sign,
>(
    p1: Seq<(i64, i64)>,
    p2: Seq<(i64, i64)>,
    orient: F,
    incircle: G,
    t1: Triangulation2<(i64, i64)>,
    t2: Triangulation2<(i64, i64)>,
)
    requires
        orient_deterministic(orient),
        incircle_deterministic(incircle),
        forall|p: (i64, i64)| p1.contains(p) <==> p2.contains(p),
        delaunay_outcome(p1, orient, incircle, t1),
        delaunay_outcome(p2, orient, incircle, t2),
    ensures
        t1.spec_vertices() == t2.spec_vertices(),
        t1.spec_faces() == t2.spec_faces(),
{
    let (d1, h1) = choose|d: Seq<(i64, i64)>, h: Seq<(i64, i64)>|
        sorted_dedup_of(d, p1) && #[trigger] hull_of(d, HullBoundaryPoints::ExtremesOnly, orient, h) && if h.len() < 3
            || d.len() >= GHOST || d.len() > u32::MAX {
            no_triangulation(t1)
        } else {
            exists|ic: int|
                #[trigger] start_index(orient, d, ic) && if ic == d.len() {
                    no_triangulation(t1)
                } else {
                    exists|o: Orientation, states: Seq<Seq<[usize; 3]>>|
                        #![trigger orient.ensures((d[0], d[1], d[ic]), o), insertion_run(bad_answers(d, orient, incircle), first_triangle(o, ic), states)]
                        orient.ensures((d[0], d[1], d[ic]), o) && insertion_run(
                            bad_answers(d, orient, incircle),
                            first_triangle(o, ic),
                            states,
                        ) && states.len() == d.len() + 1 && built_from(d, states[d.len() as int], t1)
                }
        };
    let (d2, h2) = choose|d: Seq<(i64, i64)>, h: Seq<(i64, i64)>|
        sorted_dedup_of(d, p2) && #[trigger] hull_of(d, HullBoundaryPoints::ExtremesOnly, orient, h) && if h.len() < 3
            || d.len() >= GHOST || d.len() > u32::MAX {
            no_triangulation(t2)
        } else {
            exists|ic: int|
                #[trigger] start_index(orient, d, ic) && if ic == d.len() {
                    no_triangulation(t2)
                } else {
                    exists|o: Orientation, states: Seq<Seq<[usize; 3]>>|
                        #![trigger orient.ensures((d[0], d[1], d[ic]), o), insertion_run(bad_answers(d, orient, incircle), first_triangle(o, ic), states)]
                        orient.ensures((d[0], d[1], d[ic]), o) && insertion_run(
                            bad_answers(d, orient, incircle),
                            first_triangle(o, ic),
                            states,
                        ) && states.len() == d.len() + 1 && built_from(d, states[d.len() as int], t2)
                }
        };
    assert(sorted_dedup_of(d2, p1));
    lemma_sorted_dedup_unique(d1, d2, p1);
    lemma_hull_of_unique(d1, HullBoundaryPoints::ExtremesOnly, orient, h1, h2);
    let d = d1;
    if !(h1.len() < 3 || d.len() >= GHOST || d.len() > u32::MAX) {
        let ic1 = choose|ic: int|
            #[trigger] start_index(orient, d, ic) && if ic == d.len() {
                no_triangulation(t1)
            } else {
                exists|o: Orientation, states: Seq<Seq<[usize; 3]>>|
                    #![trigger orient.ensures((d[0], d[1], d[ic]), o), insertion_run(bad_answers(d, orient, incircle), first_triangle(o, ic), states)]
                    orient.ensures((d[0], d[1], d[ic]), o) && insertion_run(
                        bad_answers(d, orient, incircle),
                        first_triangle(o, ic),
                        states,
                    ) && states.len() == d.len() + 1 && built_from(d, states[d.len() as int], t1)
            };
        let ic2 = choose|ic: int|
            #[trigger] start_index(orient, d, ic) && if ic == d.len() {
                no_triangulation(t2)
            } else {
                exists|o: Orientation, states: Seq<Seq<[usize; 3]>>|
                    #![trigger orient.ensures((d[0], d[1], d[ic]), o), insertion_run(bad_answers(d, orient, incircle), first_triangle(o, ic), states)]
                    orient.ensures((d[0], d[1], d[ic]), o) && insertion_run(
                        bad_answers(d, orient, incircle),
                        first_triangle(o, ic),
                        states,
                    ) && states.len() == d.len() + 1 && built_from(d, states[d.len() as int], t2)
            };
        lemma_start_index_unique(orient, d, ic1, ic2);
        let ic = ic1;
        if ic != d.len() {
            let (o1, s1) = choose|o: Orientation, states: Seq<Seq<[usize; 3]>>|
                #![trigger orient.ensures((d[0], d[1], d[ic]), o), insertion_run(bad_answers(d, orient, incircle), first_triangle(o, ic), states)]
                orient.ensures((d[0], d[1], d[ic]), o) && insertion_run(
                    bad_answers(d, orient, incircle),
                    first_triangle(o, ic),
                    states,
                ) && states.len() == d.len() + 1 && built_from(d, states[d.len() as int], t1);
            let (o2, s2) = choose|o: Orientation, states: Seq<Seq<[usize; 3]>>|
                #![trigger orient.ensures((d[0], d[1], d[ic]), o), insertion_run(bad_answers(d, orient, incircle), first_triangle(o, ic), states)]
                orient.ensures((d[0], d[1], d[ic]), o) && insertion_run(
                    bad_answers(d, orient, incircle),
                    first_triangle(o, ic),
                    states,
                ) && states.len() == d.len() + 1 && built_from(d, states[d.len() as int], t2);
            assert(o1 == o2);
            lemma_bad_answers_unique(d, orient, incircle);
            lemma_runs_agree(bad_answers(d, orient, incircle), first_triangle(o1, ic), s1, s2, d.len() as int);
        }
    }
}

/// The Delaunay triangulation of `points` by incremental insertion:
/// duplicates are collapsed and the points sorted; fewer than three
/// distinct points, or all of them collinear (the convex hull has fewer
/// than three corners), give the empty triangulation; otherwise the first
/// two points and the first point off their line start a
/// counterclockwise triangle and every other point is inserted in sorted
/// order. `orient(a, b, c)` is the orientation of `a`, `b`, `c` and
/// `incircle(a, b, c, d)` the sign of `d` against the circle through `a`,
/// `b`, `c` (positive inside, for a counterclockwise triangle). The
/// vertices are the sorted distinct points; the empty triangulation has
/// no vertex. A construction whose point or triangle count would not fit
/// the `u32` ids also gives the empty triangulation. Every face has three
/// distinct vertices; the whole outcome is [`delaunay_outcome`].
pub fn delaunay2<
    F: Fn((i64, i64), (i64, i64), (i64, i64)) -> Orientation,
    G: Fn((i64, i64), (i64, i64), (i64, i64), (i64, i64)) -> Sign,
>(points: &Vec<(i64, i64)>, orient: &F, incircle: &G) -> (t: Triangulation2<(i64, i64)>)
    requires
        forall|a: (i64, i64), b: (i64, i64), c: (i64, i64)| orient.requires((a, b, c)),
        forall|a: (i64, i64), b: (i64, i64), c: (i64, i64), d: (i64, i64)| incircle.requires((a, b, c, d)),
    ensures
        t.spec_vertices().len() == 0 || sorted_dedup_of(t.spec_vertices(), points@),
        t.spec_vertices().len() == 0 ==> t.spec_faces().len() == 0,
        t.spec_vertices().len() > 0 ==> t.spec_vertices().len() >= 3,
        forall|d: Seq<(i64, i64)>| sorted_dedup_of(d, points@) && d.len() < 3 ==> t.spec_vertices().len() == 0,
        faces_nondegenerate(t.spec_faces()),
        delaunay_outcome(points@, *orient, *incircle, t),
{
    let pts = dedup_sorted(points);
    let hull = convex_hull2(&pts, HullBoundaryPoints::ExtremesOnly, orient);
    let ghost d = pts@;
    proof {
        let d0 = choose|d: Seq<(i64, i64)>| sorted_dedup_of(d, pts@) && hull_of(d, HullBoundaryPoints::ExtremesOnly, *orient, hull@);
        assert(sorted_dedup_of(pts@, pts@));
        lemma_sorted_dedup_unique(d0, pts@, pts@);
        assert(hull_of(d, HullBoundaryPoints::ExtremesOnly, *orient, hull@));
        assert(sorted_dedup_of(d, points@));
        assert forall|d2: Seq<(i64, i64)>| sorted_dedup_of(d2, points@) && d2.len() < 3 implies hull@.len() < 3 by {
            lemma_sorted_dedup_unique(d2, pts@, points@);
        }
    }
    if hull.len() < 3 {
        return Triangulation2::empty();
    }
    let n = pts.len();
    if n >= GHOST || n > u32::MAX as usize {
        return Triangulation2::empty();
    }
    let mut ic: usize = 2;
    loop
        invariant
            forall|a: (i64, i64), b: (i64, i64), c: (i64, i64)| orient.requires((a, b, c)),
            n == pts.len(),
            d == pts@,
            3 <= n,
            2 <= ic <= n,
            forall|k: int| 2 <= k < ic ==> #[trigger] collinear_answer(*orient, d[0], d[1], d[k]),
        ensures
            2 <= ic <= n,
            forall|k: int| 2 <= k < ic ==> #[trigger] collinear_answer(*orient, d[0], d[1], d[k]),
            ic < n ==> exists|o: Orientation| o != Orientation::Collinear && #[trigger] orient.ensures((d[0], d[1], d[ic as int]), o),
        decreases n - ic,
    {
        if ic == n {
            break;
        }
        let o = orient(pts[0], pts[1], pts[ic]);
        if o != Orientation::Collinear {
            proof {
                assert(orient.ensures((d[0], d[1], d[ic as int]), o));
            }
            break;
        }
        ic += 1;
    }
    proof {
        assert(start_index(*orient, d, ic as int));
    }
    if ic == n {
        return Triangulation2::empty();
    }
    let o2 = orient(pts[0], pts[1], pts[ic]);
    let mut ia: usize = 0;
    let mut ib: usize = 1;
    if o2 == Orientation::Clockwise {
        ia = 1;
        ib = 0;
    }
    let first = [ia, ib, ic];
    proof {
        assert(first == first_triangle(o2, ic as int));
    }
    let bad = |t: [usize; 3], i: usize| -> (r: bool)
        requires
            forall|a: (i64, i64), b: (i64, i64), c: (i64, i64)| orient.requires((a, b, c)),
            forall|a: (i64, i64), b: (i64, i64), c: (i64, i64), d: (i64, i64)| incircle.requires((a, b, c, d)),
        ensures
            bad_answer(pts@, t, i, *orient, *incircle, r),
        { is_bad(&pts, t, i, orient, incircle) };
    let tris = incremental_triangles(n, first, &bad);
    let ghost states = choose|states: Seq<Seq<[usize; 3]>>|
        #[trigger] insertion_run(answers_of(bad), first, states) && states.len() == n + 1 && states[n as int] == tris@;
    proof {
        assert forall|t: [usize; 3], i: usize, b: bool| #[trigger] answers_of(bad)(t, i, b) implies bad_answers(
            d,
            *orient,
            *incircle,
        )(t, i, b) by {
            assert(bad.ensures((t, i), b));
        }
        lemma_run_weaken(answers_of(bad), bad_answers(d, *orient, *incircle), first, states);
        assert(orient.ensures((d[0], d[1], d[ic as int]), o2));
    }
    if tris.len() > 1431655765 {
        return Triangulation2::empty();
    }
    let t = build_topology(pts, tris);
    proof {
        assert(tri_distinct(first));
        let rpred = |x: [usize; 3]| is_real(x);
        let kept = tris@.filter(rpred);
        assert forall|j: int| 0 <= j < t.spec_faces().len() implies (#[trigger] t.spec_faces()[j])[0] != t.spec_faces()[j][1]
            && t.spec_faces()[j][1] != t.spec_faces()[j][2] && t.spec_faces()[j][0] != t.spec_faces()[j][2] by {
            let x = kept[j];
            assert(kept.contains(x));
            tris@.lemma_filter_contains_rev(rpred, x);
            let k = choose|k: int| 0 <= k < tris@.len() && tris@[k] == x;
            assert(tri_distinct(tris@[k]) && entries_before(tris@[k], first, n as int));
            assert(t.spec_faces()[j] == to_face(x));
            assert(x[0] < n && x[1] < n && x[2] < n);
        }
        assert(built_from(d, states[n as int], t));
    }
    t
}
} // verus!
