use vstd::prelude::*;

use super::cdt::{
    adjacent_faces_of_edge, adjacent_result, apex_index, apexes_defined, back_pointer_present, canon, contains_pair, edge_exists, face_has, fix_back_pointer,
    flip_bound, flip_edge, flip_ok, flipped_neighbors, flipped_rows, interior_reports, replace_first, row_has, shared_and_apex, others, spec_canon,
    spec_edge_exists, unconstrained_interior_edges, CdtError,
};
use super::topology::{assemble_triangulation, edges_cover, incidence_edge, is_listed, local_edge, same_edge, Triangulation2};
use super::cdt::{constrained_ids, ConstrainedTriangulation2};
use crate::ids::EdgeId;
use crate::ids::{FaceId, VertexId};

verus! {

/// The faces after flipping the edge shared by `fa` and `fb`: with `p`
/// the apex of `fa`, `q` the apex of `fb` and `u`, `v` the vertices after
/// `p` in `fa`, `fa` becomes `[p, u, q]` and `fb` becomes `[p, q, v]`.
pub open spec fn flipped_faces(faces: Seq<[VertexId; 3]>, fa: FaceId, fb: FaceId) -> Seq<[VertexId; 3]> {
    let a = faces[fa.0 as int];
    let b = faces[fb.0 as int];
    let pa = apex_index(a, b);
    let pb = apex_index(b, a);
    let p = a[pa];
    let q = b[pb];
    let u = a[(pa + 1) % 3];
    let v = a[(pa + 2) % 3];
    faces.update(fa.0 as int, [p, u, q]).update(fb.0 as int, [p, q, v])
}

/// The edge a flip of `fa` and `fb` removes: the two vertices of `fa`
/// after its apex.
pub open spec fn flipped_edge(faces: Seq<[VertexId; 3]>, fa: FaceId, fb: FaceId) -> (VertexId, VertexId) {
    let a = faces[fa.0 as int];
    let pa = apex_index(a, faces[fb.0 as int]);
    (a[(pa + 1) % 3], a[(pa + 2) % 3])
}

/// A flip creates the edge between the two apexes and keeps every edge
/// other than the one it removes.
pub proof fn lemma_flip_edges(faces: Seq<[VertexId; 3]>, nb: Seq<[Option<FaceId>; 3]>, fa: FaceId, fb: FaceId, c: VertexId, d: VertexId)
    requires
        flip_ok(faces, nb, fa, fb),
    ensures
        spec_edge_exists(
            flipped_faces(faces, fa, fb),
            faces[fa.0 as int][apex_index(faces[fa.0 as int], faces[fb.0 as int])],
            faces[fb.0 as int][apex_index(faces[fb.0 as int], faces[fa.0 as int])],
        ),
        spec_edge_exists(faces, c, d) && !same_edge((c, d), flipped_edge(faces, fa, fb)) ==> spec_edge_exists(
            flipped_faces(faces, fa, fb),
            c,
            d,
        ),
        flipped_faces(faces, fa, fb).len() == faces.len(),
{
    let a = faces[fa.0 as int];
    let b = faces[fb.0 as int];
    let pa = apex_index(a, b);
    let pb = apex_index(b, a);
    let p = a[pa];
    let q = b[pb];
    let u = a[(pa + 1) % 3];
    let v = a[(pa + 2) % 3];
    let new = flipped_faces(faces, fa, fb);
    assert(fa != fb) by {
        if fa == fb {
            assert(face_has(b, a[0]) && face_has(b, a[1]) && face_has(b, a[2]));
        }
    }
    assert(new[fa.0 as int] == [p, u, q]);
    assert(new[fb.0 as int] == [p, q, v]);
    assert(face_has(new[fa.0 as int], p) && face_has(new[fa.0 as int], q));
    assert(b[(pb + 1) % 3] == v && b[(pb + 2) % 3] == u);
    if spec_edge_exists(faces, c, d) && !same_edge((c, d), (u, v)) {
        let i = choose|i: int| 0 <= i < faces.len() && face_has(#[trigger] faces[i], c) && face_has(faces[i], d);
        if i == fa.0 as int {
            assert(face_has(a, c) && face_has(a, d));
            assert(c == p || c == u || c == v);
            assert(d == p || d == u || d == v);
            if (c == p || c == u) && (d == p || d == u) {
                assert(face_has(new[fa.0 as int], c) && face_has(new[fa.0 as int], d));
            } else {
                assert(face_has(new[fb.0 as int], c) && face_has(new[fb.0 as int], d));
            }
        } else if i == fb.0 as int {
            assert(face_has(b, c) && face_has(b, d));
            assert(c == q || c == u || c == v);
            assert(d == q || d == u || d == v);
            if (c == q || c == u) && (d == q || d == u) {
                assert(face_has(new[fa.0 as int], c) && face_has(new[fa.0 as int], d));
            } else {
                assert(face_has(new[fb.0 as int], c) && face_has(new[fb.0 as int], d));
            }
        } else {
            assert(new[i] == faces[i]);
        }
    }
}

fn apex_position(a: [VertexId; 3], b: [VertexId; 3]) -> (r: usize)
    ensures
        r == apex_index(a, b),
{
    if !(b[0] == a[0] || b[1] == a[0] || b[2] == a[0]) {
        0
    } else if !(b[0] == a[1] || b[1] == a[1] || b[2] == a[1]) {
        1
    } else if !(b[0] == a[2] || b[1] == a[2] || b[2] == a[2]) {
        2
    } else {
        3
    }
}

fn row_has_exec(row: [Option<FaceId>; 3], x: Option<FaceId>) -> (r: bool)
    ensures
        r == row_has(row, x),
{
    row[0] == x || row[1] == x || row[2] == x
}

fn replace_first_exec(row: [Option<FaceId>; 3], from: Option<FaceId>, to: Option<FaceId>) -> (r: [Option<FaceId>; 3])
    ensures
        r == replace_first(row, from, to),
{
    if row[0] == from {
        [to, row[1], row[2]]
    } else if row[1] == from {
        [row[0], to, row[2]]
    } else {
        [row[0], row[1], to]
    }
}

/// Whether the edge shared by `fa` and `fb` can be flipped as the tables
/// stand: [`flip_ok`].
pub fn can_apply_flip(faces: &Vec<[VertexId; 3]>, face_neighbors: &Vec<[Option<FaceId>; 3]>, fa: FaceId, fb: FaceId) -> (r: bool)
    ensures
        r == flip_ok(faces@, face_neighbors@, fa, fb),
{
    let n = faces.len();
    if fa.0 as usize >= n || fb.0 as usize >= n || face_neighbors.len() != n {
        return false;
    }
    let a = faces[fa.0 as usize];
    let b = faces[fb.0 as usize];
    let pa = apex_position(a, b);
    let pb = apex_position(b, a);
    if pa >= 3 || pb >= 3 {
        return false;
    }
    let distinct = (pa == 0 || a[0] != a[pa]) && (pa == 1 || a[1] != a[pa]) && (pa == 2 || a[2] != a[pa]);
    proof {
        assert(distinct == (forall|j: int| 0 <= j < 3 && j != apex_index(a, b) ==> #[trigger] a[j] != a[apex_index(a, b)]));
    }
    if !distinct {
        return false;
    }
    if b[(pb + 1) % 3] != a[(pa + 2) % 3] || b[(pb + 2) % 3] != a[(pa + 1) % 3] {
        return false;
    }
    let na = face_neighbors[fa.0 as usize];
    let nbb = face_neighbors[fb.0 as usize];
    let row_a: [Option<FaceId>; 3] = [nbb[(pb + 1) % 3], Some(fb), na[(pa + 2) % 3]];
    let row_b: [Option<FaceId>; 3] = [nbb[(pb + 2) % 3], na[(pa + 1) % 3], Some(fa)];
    let ghost nb1 = flipped_rows(faces@, face_neighbors@, fa, fb);
    let outer1 = nbb[(pb + 1) % 3];
    let outer2 = na[(pa + 1) % 3];
    let row1: Option<[Option<FaceId>; 3]> = match outer1 {
        Some(o) => {
            if o.0 as usize >= n {
                return false;
            }
            let row = if o == fb {
                row_b
            } else if o == fa {
                row_a
            } else {
                face_neighbors[o.0 as usize]
            };
            proof {
                assert(row == nb1[o.0 as int]);
            }
            if !row_has_exec(row, Some(fb)) {
                return false;
            }
            Some(row)
        },
        None => None,
    };
    proof {
        assert(back_pointer_present(nb1, outer1, Some(fb)));
    }
    let ghost nb2 = fix_back_pointer(nb1, outer1, Some(fb), Some(fa));
    match outer2 {
        Some(o2) => {
            if o2.0 as usize >= n {
                return false;
            }
            let base = if o2 == fb {
                row_b
            } else if o2 == fa {
                row_a
            } else {
                face_neighbors[o2.0 as usize]
            };
            proof {
                assert(base == nb1[o2.0 as int]);
            }
            let row = match (outer1, row1) {
                (Some(o), Some(r1)) => {
                    if o == o2 {
                        replace_first_exec(r1, Some(fb), Some(fa))
                    } else {
                        base
                    }
                },
                _ => base,
            };
            proof {
                assert(row == nb2[o2.0 as int]);
            }
            row_has_exec(row, Some(fa))
        },
        None => true,
    }
}

/// The pairs of the first `m` reports whose answer is `true`, in order.
pub open spec fn selected(reps: Seq<(VertexId, VertexId, FaceId, FaceId)>, ans: Seq<bool>, m: int) -> Seq<(VertexId, VertexId)>
    decreases m,
{
    if m <= 0 {
        Seq::empty()
    } else {
        let s = selected(reps, ans, m - 1);
        if ans[m - 1] {
            s.push((reps[m - 1].0, reps[m - 1].1))
        } else {
            s
        }
    }
}

/// Every unconstrained interior edge that properly crosses the segment
/// `(u, v)`, as its canonical vertex pair, in order of first appearance:
/// `crosses(u, v, a, b)` says whether segment `(a, b)` properly crosses
/// segment `(u, v)`.
fn crossing_edges<F: Fn(VertexId, VertexId, VertexId, VertexId) -> bool>(
    faces: &Vec<[VertexId; 3]>,
    face_neighbors: &Vec<[Option<FaceId>; 3]>,
    constrained_pairs: &Vec<(VertexId, VertexId)>,
    u: VertexId,
    v: VertexId,
    crosses: &F,
) -> (r: Vec<(VertexId, VertexId)>)
    requires
        face_neighbors.len() == faces.len(),
        3 * faces.len() <= usize::MAX,
        forall|a: VertexId, b: VertexId, c: VertexId, d: VertexId| crosses.requires((a, b, c, d)),
    ensures
        ({
            let reps = interior_reports(faces@, face_neighbors@, constrained_pairs@, 3 * faces.len());
            exists|ans: Seq<bool>|
                ans.len() == reps.len() && (forall|i: int|
                    0 <= i < reps.len() ==> crosses.ensures((u, v, reps[i].0, reps[i].1), #[trigger] ans[i])) && r@
                    == selected(reps, ans, reps.len() as int)
        }),
{
    let reps = unconstrained_interior_edges(faces, face_neighbors, constrained_pairs);
    let mut r: Vec<(VertexId, VertexId)> = Vec::new();
    let ghost mut ans: Seq<bool> = Seq::empty();
    let mut i: usize = 0;
    while i < reps.len()
        invariant
            forall|a: VertexId, b: VertexId, c: VertexId, d: VertexId| crosses.requires((a, b, c, d)),
            i <= reps.len(),
            ans.len() == i,
            forall|k: int| 0 <= k < i ==> crosses.ensures((u, v, reps@[k].0, reps@[k].1), #[trigger] ans[k]),
            r@ == selected(reps@, ans, i as int),
        decreases reps.len() - i,
    {
        let e = reps[i];
        let c = crosses(u, v, e.0, e.1);
        let ghost old_ans = ans;
        proof {
            ans = ans.push(c);
            lemma_selected_prefix(reps@, ans, i as int);
            lemma_selected_prefix(reps@, old_ans, i as int);
            assert(ans.take(i as int) =~= old_ans.take(i as int));
        }
        if c {
            r.push((e.0, e.1));
        }
        i += 1;
    }
    proof {
        assert(reps@ == interior_reports(faces@, face_neighbors@, constrained_pairs@, 3 * faces.len()));
    }
    r
}

/// Only the first `m` answers matter to [`selected`].
proof fn lemma_selected_prefix(reps: Seq<(VertexId, VertexId, FaceId, FaceId)>, ans: Seq<bool>, m: int)
    requires
        0 <= m <= ans.len(),
    ensures
        selected(reps, ans, m) == selected(reps, ans.take(m), m),
    decreases m,
{
    if m > 0 {
        lemma_selected_prefix(reps, ans, m - 1);
        lemma_selected_prefix(reps, ans.take(m), m - 1);
        assert(ans.take(m).take(m - 1) =~= ans.take(m - 1));
    }
}

/// Whether the quadrilateral of the adjacent faces `fa`, `fb` is strictly
/// convex, so their shared edge can flip: `convex(p, q, a, b)` says
/// whether `a` and `b` lie strictly on opposite sides of the line through
/// the apexes `p` and `q`.
fn can_flip<G: Fn(VertexId, VertexId, VertexId, VertexId) -> bool>(
    faces: &Vec<[VertexId; 3]>,
    fa: FaceId,
    fb: FaceId,
    convex: &G,
) -> (r: bool)
    requires
        (fa.0 as int) < faces.len(),
        (fb.0 as int) < faces.len(),
        apexes_defined(faces@[fa.0 as int], faces@[fb.0 as int]),
        forall|a: VertexId, b: VertexId, c: VertexId, d: VertexId| convex.requires((a, b, c, d)),
    ensures
        ({
            let x = faces@[fa.0 as int];
            let y = faces@[fb.0 as int];
            let ia = apex_index(x, y);
            let sh = others(x, ia);
            convex.ensures((x[ia], y[apex_index(y, x)], sh.0, sh.1), r)
        }),
{
    let (a, b, p, q) = shared_and_apex(faces, fa, fb);
    convex(p, q, a, b)
}

/// The edge shared by `fa` and `fb` is locally Delaunay by the oracle:
/// `in_circle(x, y, z, w)` says whether `w` lies strictly inside the
/// circle through `x`, `y`, `z`, and neither face's circle holds the
/// other's apex.
pub open spec fn delaunay_by<H: Fn(VertexId, VertexId, VertexId, VertexId) -> bool>(
    in_circle: H,
    faces: Seq<[VertexId; 3]>,
    fa: FaceId,
    fb: FaceId,
) -> bool {
    let x = faces[fa.0 as int];
    let y = faces[fb.0 as int];
    let p = x[apex_index(x, y)];
    let q = y[apex_index(y, x)];
    &&& in_circle.ensures((x[0], x[1], x[2], q), false)
    &&& in_circle.ensures((y[0], y[1], y[2], p), false)
}

/// Whether the edge shared by `fa` and `fb` is locally Delaunay: neither
/// face's circumcircle strictly holds the other's apex.
fn is_locally_delaunay<H: Fn(VertexId, VertexId, VertexId, VertexId) -> bool>(
    faces: &Vec<[VertexId; 3]>,
    fa: FaceId,
    fb: FaceId,
    in_circle: &H,
) -> (r: bool)
    requires
        (fa.0 as int) < faces.len(),
        (fb.0 as int) < faces.len(),
        apexes_defined(faces@[fa.0 as int], faces@[fb.0 as int]),
        forall|a: VertexId, b: VertexId, c: VertexId, d: VertexId| in_circle.requires((a, b, c, d)),
    ensures
        r ==> delaunay_by(*in_circle, faces@, fa, fb),
        !r ==> ({
            let x = faces@[fa.0 as int];
            let y = faces@[fb.0 as int];
            in_circle.ensures((x[0], x[1], x[2], y[apex_index(y, x)]), true) || (in_circle.ensures(
                (x[0], x[1], x[2], y[apex_index(y, x)]),
                false,
            ) && in_circle.ensures((y[0], y[1], y[2], x[apex_index(x, y)]), true))
        }),
{
    let (_, _, p, q) = shared_and_apex(faces, fa, fb);
    let tri_a = faces[fa.0 as usize];
    let tri_b = faces[fb.0 as usize];
    let a_holds_q = in_circle(tri_a[0], tri_a[1], tri_a[2], q);
    if a_holds_q {
        return false;
    }
    let b_holds_p = in_circle(tri_b[0], tri_b[1], tri_b[2], p);
    !b_holds_p
}

/// The report `rep`'s two faces are in range, share an edge as a flip
/// needs, and `ic` answers that neither apex lies inside the other
/// face's circle.
pub open spec fn report_good(
    ic: spec_fn(VertexId, VertexId, VertexId, VertexId, bool) -> bool,
    f: Seq<[VertexId; 3]>,
    rep: (VertexId, VertexId, FaceId, FaceId),
) -> bool {
    let x = f[rep.2.0 as int];
    let y = f[rep.3.0 as int];
    &&& rep.2.0 < f.len() && rep.3.0 < f.len()
    &&& apexes_defined(x, y)
    &&& ic(x[0], x[1], x[2], y[apex_index(y, x)], false)
    &&& ic(y[0], y[1], y[2], x[apex_index(x, y)], false)
}

/// The report `rep` fails: its faces are out of range or do not share an
/// edge as a flip needs, or `ic` answers that `fb`'s apex lies inside
/// `fa`'s circle, or else that `fa`'s apex lies inside `fb`'s.
pub open spec fn report_bad(
    ic: spec_fn(VertexId, VertexId, VertexId, VertexId, bool) -> bool,
    f: Seq<[VertexId; 3]>,
    rep: (VertexId, VertexId, FaceId, FaceId),
) -> bool {
    let x = f[rep.2.0 as int];
    let y = f[rep.3.0 as int];
    ||| !(rep.2.0 < f.len() && rep.3.0 < f.len() && apexes_defined(x, y))
    ||| ic(x[0], x[1], x[2], y[apex_index(y, x)], true)
    ||| ic(x[0], x[1], x[2], y[apex_index(y, x)], false) && ic(y[0], y[1], y[2], x[apex_index(x, y)], true)
}

/// What [`find_first_bad_unconstrained_edge`] gives by the answers `ic`:
/// none when every unconstrained interior edge's report is good;
/// otherwise the faces of the first report that fails.
pub open spec fn first_bad_result(
    ic: spec_fn(VertexId, VertexId, VertexId, VertexId, bool) -> bool,
    f: Seq<[VertexId; 3]>,
    nb: Seq<[Option<FaceId>; 3]>,
    pairs: Seq<(VertexId, VertexId)>,
    r: Option<(FaceId, FaceId)>,
) -> bool {
    let reps = interior_reports(f, nb, pairs, 3 * f.len() as int);
    match r {
        None => forall|i: int| 0 <= i < reps.len() ==> #[trigger] report_good(ic, f, reps[i]),
        Some((fa, fb)) => exists|i: int|
            0 <= i < reps.len() && reps[i].2 == fa && reps[i].3 == fb && #[trigger] report_bad(ic, f, reps[i]) && forall|k: int|
                0 <= k < i ==> #[trigger] report_good(ic, f, reps[k]),
    }
}

/// The first unconstrained interior edge (in report order) that is not
/// locally Delaunay by the oracle, or whose two faces do not share an
/// edge as a flip needs, as its face pair; `None` if every one is locally
/// Delaunay.
fn find_first_bad_unconstrained_edge<H: Fn(VertexId, VertexId, VertexId, VertexId) -> bool>(
    faces: &Vec<[VertexId; 3]>,
    face_neighbors: &Vec<[Option<FaceId>; 3]>,
    constrained_pairs: &Vec<(VertexId, VertexId)>,
    in_circle: &H,
) -> (r: Option<(FaceId, FaceId)>)
    requires
        face_neighbors.len() == faces.len(),
        3 * faces.len() <= usize::MAX,
        forall|a: VertexId, b: VertexId, c: VertexId, d: VertexId| in_circle.requires((a, b, c, d)),
    ensures
        ({
            let reps = interior_reports(faces@, face_neighbors@, constrained_pairs@, 3 * faces.len());
            &&& r is None ==> forall|i: int|
                0 <= i < reps.len() ==> (#[trigger] reps[i]).2.0 < faces.len() && reps[i].3.0 < faces.len()
                    && apexes_defined(faces@[reps[i].2.0 as int], faces@[reps[i].3.0 as int]) && delaunay_by(
                    *in_circle,
                    faces@,
                    reps[i].2,
                    reps[i].3,
                )
            &&& r matches Some((fa, fb)) ==> exists|i: int| 0 <= i < reps.len() && (#[trigger] reps[i]).2 == fa && reps[i].3 == fb
        }),
        first_bad_result(quad_answers(*in_circle), faces@, face_neighbors@, constrained_pairs@, r),
{
    let reps = unconstrained_interior_edges(faces, face_neighbors, constrained_pairs);
    let mut i: usize = 0;
    while i < reps.len()
        invariant
            forall|a: VertexId, b: VertexId, c: VertexId, d: VertexId| in_circle.requires((a, b, c, d)),
            reps@ == interior_reports(faces@, face_neighbors@, constrained_pairs@, 3 * faces.len()),
            i <= reps.len(),
            forall|k: int|
                0 <= k < i ==> (#[trigger] reps@[k]).2.0 < faces.len() && reps@[k].3.0 < faces.len() && apexes_defined(
                    faces@[reps@[k].2.0 as int],
                    faces@[reps@[k].3.0 as int],
                ) && delaunay_by(*in_circle, faces@, reps@[k].2, reps@[k].3),
            forall|k: int| 0 <= k < i ==> #[trigger] report_good(quad_answers(*in_circle), faces@, reps@[k]),
        decreases reps.len() - i,
    {
        let (_, _, fa, fb) = reps[i];
        proof {
            assert(reps@[i as int].2 == fa && reps@[i as int].3 == fb);
            assert(report_bad(quad_answers(*in_circle), faces@, reps@[i as int]) ==> first_bad_result(
                quad_answers(*in_circle),
                faces@,
                face_neighbors@,
                constrained_pairs@,
                Some((fa, fb)),
            ));
        }
        if fa.0 as usize >= faces.len() || fb.0 as usize >= faces.len() {
            return Some((fa, fb));
        }
        let x = faces[fa.0 as usize];
        let y = faces[fb.0 as usize];
        let pa = apex_position(x, y);
        let pb = apex_position(y, x);
        if pa >= 3 || pb >= 3 {
            return Some((fa, fb));
        }
        let distinct = (pa == 0 || x[0] != x[pa]) && (pa == 1 || x[1] != x[pa]) && (pa == 2 || x[2] != x[pa]);
        proof {
            assert(distinct == (forall|j: int| 0 <= j < 3 && j != apex_index(x, y) ==> #[trigger] x[j] != x[apex_index(x, y)]));
        }
        if !distinct {
            return Some((fa, fb));
        }
        if !is_locally_delaunay(faces, fa, fb, in_circle) {
            return Some((fa, fb));
        }
        proof {
            assert(report_good(quad_answers(*in_circle), faces@, reps@[i as int]));
        }
        i += 1;
    }
    None
}

/// Every constrained pair is stored in canonical form.
pub open spec fn pairs_canonical(pairs: Seq<(VertexId, VertexId)>) -> bool {
    forall|i: int| 0 <= i < pairs.len() ==> #[trigger] pairs[i] == spec_canon(pairs[i].0, pairs[i].1)
}

/// Every constrained pair that is an edge of `before` is an edge of
/// `after`.
pub open spec fn constraints_kept(
    before: Seq<[VertexId; 3]>,
    after: Seq<[VertexId; 3]>,
    pairs: Seq<(VertexId, VertexId)>,
) -> bool {
    forall|i: int|
        0 <= i < pairs.len() && spec_edge_exists(before, (#[trigger] pairs[i]).0, pairs[i].1) ==> spec_edge_exists(
            after,
            pairs[i].0,
            pairs[i].1,
        )
}

/// Flips the edge shared by `fa` and `fb`, which must be flippable and
/// not constrained: every constrained edge stays, and the edge between
/// the two apexes appears.
fn flip_unconstrained(
    faces: &mut Vec<[VertexId; 3]>,
    face_neighbors: &mut Vec<[Option<FaceId>; 3]>,
    constrained_pairs: &Vec<(VertexId, VertexId)>,
    fa: FaceId,
    fb: FaceId,
)
    requires
        flip_ok(old(faces)@, old(face_neighbors)@, fa, fb),
        pairs_canonical(constrained_pairs@),
        !constrained_pairs@.contains(
            spec_canon(flipped_edge(old(faces)@, fa, fb).0, flipped_edge(old(faces)@, fa, fb).1),
        ),
    ensures
        final(faces)@ == flipped_faces(old(faces)@, fa, fb),
        final(face_neighbors)@ == flipped_neighbors(old(faces)@, old(face_neighbors)@, fa, fb),
        final(faces).len() == old(faces).len(),
        final(face_neighbors).len() == old(face_neighbors).len(),
        constraints_kept(old(faces)@, final(faces)@, constrained_pairs@),
        spec_edge_exists(
            final(faces)@,
            old(faces)@[fa.0 as int][apex_index(old(faces)@[fa.0 as int], old(faces)@[fb.0 as int])],
            old(faces)@[fb.0 as int][apex_index(old(faces)@[fb.0 as int], old(faces)@[fa.0 as int])],
        ),
{
    let ghost f0 = faces@;
    let ghost n0 = face_neighbors@;
    proof {
        let uv = flipped_edge(f0, fa, fb);
        assert forall|i: int|
            0 <= i < constrained_pairs@.len() && spec_edge_exists(f0, (#[trigger] constrained_pairs@[i]).0, constrained_pairs@[i].1) implies spec_edge_exists(
            flipped_faces(f0, fa, fb),
            constrained_pairs@[i].0,
            constrained_pairs@[i].1,
        ) by {
            let c = constrained_pairs@[i];
            lemma_flip_edges(f0, n0, fa, fb, c.0, c.1);
            if same_edge((c.0, c.1), uv) {
                assert(c == spec_canon(c.0, c.1));
                assert(spec_canon(c.0, c.1) == spec_canon(uv.0, uv.1));
                assert(constrained_pairs@.contains(spec_canon(uv.0, uv.1)));
            }
        }
        lemma_flip_edges(f0, n0, fa, fb, VertexId(0), VertexId(0));
    }
    flip_edge(faces, face_neighbors, fa, fb);
}

/// The two shared vertices [`shared_and_apex`] reports name the edge a
/// flip removes.
proof fn lemma_shared_is_flipped_edge(faces: Seq<[VertexId; 3]>, fa: FaceId, fb: FaceId)
    requires
        apex_index(faces[fa.0 as int], faces[fb.0 as int]) < 3,
    ensures
        ({
            let a = faces[fa.0 as int];
            let sh = others(a, apex_index(a, faces[fb.0 as int]));
            let uv = flipped_edge(faces, fa, fb);
            spec_canon(sh.0, sh.1) == spec_canon(uv.0, uv.1)
        }),
{
}

/// The answers the closure `f` may give, as a predicate on its
/// arguments and answer.
pub open spec fn quad_answers<F: Fn(VertexId, VertexId, VertexId, VertexId) -> bool>(f: F) -> spec_fn(
    VertexId,
    VertexId,
    VertexId,
    VertexId,
    bool,
) -> bool {
    |a: VertexId, b: VertexId, c: VertexId, d: VertexId, r: bool| f.ensures((a, b, c, d), r)
}

/// The queue the insertion of `(u, v)` starts with: the unconstrained
/// interior edges, in report order, that `cr` answers cross `(u, v)`.
pub open spec fn initial_queue(
    cr: spec_fn(VertexId, VertexId, VertexId, VertexId, bool) -> bool,
    faces: Seq<[VertexId; 3]>,
    nb: Seq<[Option<FaceId>; 3]>,
    pairs: Seq<(VertexId, VertexId)>,
    u: VertexId,
    v: VertexId,
    q: Seq<(VertexId, VertexId)>,
) -> bool {
    let reps = interior_reports(faces, nb, pairs, 3 * faces.len() as int);
    exists|ans: Seq<bool>|
        ans.len() == reps.len() && (forall|i: int| 0 <= i < reps.len() ==> cr(u, v, reps[i].0, reps[i].1, #[trigger] ans[i]))
            && q == selected(reps, ans, reps.len() as int)
}

/// One pass of the insertion of `(u, v)` from the state `s` (faces,
/// neighbor table, queue, queue head), as the answers of `cr` (crossing)
/// and `cv` (convexity) allow: `fin` says whether the insertion ends
/// there, `ok` whether it then succeeds, and `s2` is the state after.
/// An empty queue ends it, successfully when `(u, v)` is an edge; a
/// popped edge with no two faces is dropped; one whose faces cannot be
/// flipped as the tables stand ends it in failure; one whose
/// quadrilateral is not convex goes back on the queue; a constrained one
/// is dropped; any other is flipped, which ends it in success when the
/// new diagonal is `(u, v)`, and otherwise queues the new diagonal when
/// it still crosses `(u, v)`.
pub open spec fn insert_step(
    cr: spec_fn(VertexId, VertexId, VertexId, VertexId, bool) -> bool,
    cv: spec_fn(VertexId, VertexId, VertexId, VertexId, bool) -> bool,
    pairs: Seq<(VertexId, VertexId)>,
    u: VertexId,
    v: VertexId,
    s: (Seq<[VertexId; 3]>, Seq<[Option<FaceId>; 3]>, Seq<(VertexId, VertexId)>, int),
    fin: bool,
    ok: bool,
    s2: (Seq<[VertexId; 3]>, Seq<[Option<FaceId>; 3]>, Seq<(VertexId, VertexId)>, int),
) -> bool {
    let (f, nb, q, h) = s;
    if h >= q.len() {
        fin && ok == spec_edge_exists(f, u, v) && s2 == s
    } else {
        let (a, b) = q[h];
        exists|adj: Option<(FaceId, FaceId)>|
            #[trigger] adjacent_result(f, nb, a, b, adj) && match adj {
                None => !fin && s2 == (f, nb, q, h + 1),
                Some((fa, fb)) => if !flip_ok(f, nb, fa, fb) {
                    fin && !ok && s2 == s
                } else {
                    let x = f[fa.0 as int];
                    let y = f[fb.0 as int];
                    let ia = apex_index(x, y);
                    let sh = others(x, ia);
                    let p = x[ia];
                    let w = y[apex_index(y, x)];
                    exists|c: bool|
                        #[trigger] cv(p, w, sh.0, sh.1, c) && if !c {
                            !fin && s2 == (f, nb, q.push((a, b)), h + 1)
                        } else if pairs.contains(spec_canon(sh.0, sh.1)) {
                            !fin && s2 == (f, nb, q, h + 1)
                        } else if (p == u && w == v) || (p == v && w == u) {
                            fin && ok && s2 == (flipped_faces(f, fa, fb), flipped_neighbors(f, nb, fa, fb), q, h + 1)
                        } else {
                            exists|k: bool|
                                #[trigger] cr(u, v, p, w, k) && !fin && s2 == (
                                    flipped_faces(f, fa, fb),
                                    flipped_neighbors(f, nb, fa, fb),
                                    if k {
                                        q.push(spec_canon(p, w))
                                    } else {
                                        q
                                    },
                                    h + 1,
                                )
                        }
                },
            }
    }
}

/// State `j + 1` of `states` follows state `j` by a pass that does not
/// end the insertion.
pub open spec fn insert_step_at(
    cr: spec_fn(VertexId, VertexId, VertexId, VertexId, bool) -> bool,
    cv: spec_fn(VertexId, VertexId, VertexId, VertexId, bool) -> bool,
    pairs: Seq<(VertexId, VertexId)>,
    u: VertexId,
    v: VertexId,
    states: Seq<(Seq<[VertexId; 3]>, Seq<[Option<FaceId>; 3]>, Seq<(VertexId, VertexId)>, int)>,
    j: int,
) -> bool {
    insert_step(cr, cv, pairs, u, v, states[j], false, false, states[j + 1])
}

/// A run of the insertion of `(u, v)` from the state `s0`, with at most
/// `bound` passes, that ends with outcome `ok` and the tables `ff`, `fnb`:
/// every pass but the last continues; the last one ends it, or, after
/// `bound` passes, the insertion fails as the tables stand.
pub open spec fn insert_run(
    cr: spec_fn(VertexId, VertexId, VertexId, VertexId, bool) -> bool,
    cv: spec_fn(VertexId, VertexId, VertexId, VertexId, bool) -> bool,
    pairs: Seq<(VertexId, VertexId)>,
    u: VertexId,
    v: VertexId,
    s0: (Seq<[VertexId; 3]>, Seq<[Option<FaceId>; 3]>, Seq<(VertexId, VertexId)>, int),
    bound: int,
    ok: bool,
    ff: Seq<[VertexId; 3]>,
    fnb: Seq<[Option<FaceId>; 3]>,
) -> bool {
    exists|states: Seq<(Seq<[VertexId; 3]>, Seq<[Option<FaceId>; 3]>, Seq<(VertexId, VertexId)>, int)>|
        #![trigger states[0]]
        states.len() >= 1 && states.len() <= bound + 1 && states[0] == s0 && (forall|j: int|
            0 <= j < states.len() - 1 ==> #[trigger] insert_step_at(cr, cv, pairs, u, v, states, j)) && if states.len() - 1
            < bound {
            exists|s2: (Seq<[VertexId; 3]>, Seq<[Option<FaceId>; 3]>, Seq<(VertexId, VertexId)>, int)|
                #[trigger] insert_step(cr, cv, pairs, u, v, states[states.len() - 1], true, ok, s2) && s2.0 == ff && s2.1 == fnb
        } else {
            !ok && states[states.len() - 1].0 == ff && states[states.len() - 1].1 == fnb
        }
}

/// What inserting the constraint `(u, v)` into the tables `(f, nb)`
/// gives: nothing changes when it is an edge already; otherwise a run
/// from the crossing edges' queue.
pub open spec fn insert_result(
    cr: spec_fn(VertexId, VertexId, VertexId, VertexId, bool) -> bool,
    cv: spec_fn(VertexId, VertexId, VertexId, VertexId, bool) -> bool,
    pairs: Seq<(VertexId, VertexId)>,
    u: VertexId,
    v: VertexId,
    f: Seq<[VertexId; 3]>,
    nb: Seq<[Option<FaceId>; 3]>,
    ok: bool,
    ff: Seq<[VertexId; 3]>,
    fnb: Seq<[Option<FaceId>; 3]>,
) -> bool {
    if spec_edge_exists(f, u, v) {
        ok && ff == f && fnb == nb
    } else {
        exists|q0: Seq<(VertexId, VertexId)>|
            #[trigger] initial_queue(cr, f, nb, pairs, u, v, q0) && insert_run(
                cr,
                cv,
                pairs,
                u,
                v,
                (f, nb, q0, 0int),
                4 * f.len() as int + 16,
                ok,
                ff,
                fnb,
            )
    }
}

/// Realizes `(u, v)` as an edge by flipping the edges that properly cross
/// it, kept in a first-in first-out queue: each popped edge still present
/// is flipped when its quadrilateral is convex and put back otherwise,
/// and a new diagonal that still crosses `(u, v)` is queued. Succeeds at
/// once when `(u, v)` is already an edge, or when a flip creates it, or
/// when the queue runs dry with `(u, v)` present; fails after
/// `4 * faces + 16` passes, or when a popped pair of faces cannot be
/// flipped as the tables stand. A constrained edge is never flipped, so
/// every constrained edge present stays.
pub fn insert_constraint_edge<
    F: Fn(VertexId, VertexId, VertexId, VertexId) -> bool,
    G: Fn(VertexId, VertexId, VertexId, VertexId) -> bool,
>(
    faces: &mut Vec<[VertexId; 3]>,
    face_neighbors: &mut Vec<[Option<FaceId>; 3]>,
    constrained_pairs: &Vec<(VertexId, VertexId)>,
    u: VertexId,
    v: VertexId,
    crosses: &F,
    convex: &G,
) -> (r: Result<(), CdtError>)
    requires
        old(face_neighbors).len() == old(faces).len(),
        4 * old(faces).len() + 16 <= usize::MAX,
        pairs_canonical(constrained_pairs@),
        forall|a: VertexId, b: VertexId, c: VertexId, d: VertexId| crosses.requires((a, b, c, d)),
        forall|a: VertexId, b: VertexId, c: VertexId, d: VertexId| convex.requires((a, b, c, d)),
    ensures
        final(faces).len() == old(faces).len(),
        final(face_neighbors).len() == old(face_neighbors).len(),
        constraints_kept(old(faces)@, final(faces)@, constrained_pairs@),
        r is Ok ==> spec_edge_exists(final(faces)@, u, v),
        r is Err ==> r == Err::<(), CdtError>(CdtError::ConstraintInsertionFailed),
        spec_edge_exists(old(faces)@, u, v) ==> r is Ok && final(faces)@ == old(faces)@ && final(face_neighbors)@ == old(
            face_neighbors,
        )@,
        insert_result(
            quad_answers(*crosses),
            quad_answers(*convex),
            constrained_pairs@,
            u,
            v,
            old(faces)@,
            old(face_neighbors)@,
            r is Ok,
            final(faces)@,
            final(face_neighbors)@,
        ),
{
    if edge_exists(faces, u, v) {
        return Ok(());
    }
    let ghost f0 = faces@;
    let ghost nb0 = face_neighbors@;
    let ghost cr = quad_answers(*crosses);
    let ghost cvs = quad_answers(*convex);
    let n = faces.len();
    let mut queue = crossing_edges(faces, face_neighbors, constrained_pairs, u, v, crosses);
    proof {
        let reps = interior_reports(f0, nb0, constrained_pairs@, 3 * f0.len() as int);
        let ans = choose|ans: Seq<bool>|
            ans.len() == reps.len() && (forall|i: int|
                0 <= i < reps.len() ==> crosses.ensures((u, v, reps[i].0, reps[i].1), #[trigger] ans[i])) && queue@ == selected(
                reps,
                ans,
                reps.len() as int,
            );
        assert forall|i: int| 0 <= i < reps.len() implies cr(u, v, reps[i].0, reps[i].1, #[trigger] ans[i]) by {
            assert(crosses.ensures((u, v, reps[i].0, reps[i].1), ans[i]));
        }
        assert(initial_queue(cr, f0, nb0, constrained_pairs@, u, v, queue@));
    }
    let ghost q0 = queue@;
    let mut head: usize = 0;
    let bound = flip_bound(n);
    let mut passes: usize = 0;
    let ghost mut states: Seq<(Seq<[VertexId; 3]>, Seq<[Option<FaceId>; 3]>, Seq<(VertexId, VertexId)>, int)> = seq![
        (f0, nb0, q0, 0int),
    ];
    while passes < bound
        invariant
            faces.len() == n,
            face_neighbors.len() == n,
            n == old(faces).len(),
            n == old(face_neighbors).len(),
            f0 == old(faces)@,
            nb0 == old(face_neighbors)@,
            !spec_edge_exists(f0, u, v),
            4 * n + 16 <= usize::MAX,
            bound == 4 * n + 16,
            pairs_canonical(constrained_pairs@),
            forall|a: VertexId, b: VertexId, c: VertexId, d: VertexId| crosses.requires((a, b, c, d)),
            forall|a: VertexId, b: VertexId, c: VertexId, d: VertexId| convex.requires((a, b, c, d)),
            constraints_kept(f0, faces@, constrained_pairs@),
            passes <= bound,
            cr == quad_answers(*crosses),
            cvs == quad_answers(*convex),
            initial_queue(cr, f0, nb0, constrained_pairs@, u, v, q0),
            states.len() == passes + 1,
            states[0] == (f0, nb0, q0, 0int),
            states[states.len() - 1] == (faces@, face_neighbors@, queue@, head as int),
            forall|j: int| 0 <= j < states.len() - 1 ==> #[trigger] insert_step_at(cr, cvs, constrained_pairs@, u, v, states, j),
        decreases bound - passes,
    {
        let ghost cur = (faces@, face_neighbors@, queue@, head as int);
        passes += 1;
        if head >= queue.len() {
            if !edge_exists(faces, u, v) {
                proof {
                    assert(insert_step(cr, cvs, constrained_pairs@, u, v, cur, true, false, cur));
                    assert(states[0] == (f0, nb0, q0, 0int));
                    assert(insert_run(cr, cvs, constrained_pairs@, u, v, (f0, nb0, q0, 0int), 4 * f0.len() as int + 16, false, faces@, face_neighbors@));
                }
                return Err(CdtError::ConstraintInsertionFailed);
            }
            proof {
                assert(insert_step(cr, cvs, constrained_pairs@, u, v, cur, true, true, cur));
                assert(states[0] == (f0, nb0, q0, 0int));
                assert(insert_run(cr, cvs, constrained_pairs@, u, v, (f0, nb0, q0, 0int), 4 * f0.len() as int + 16, true, faces@, face_neighbors@));
            }
            return Ok(());
        }
        let (a, b) = queue[head];
        head += 1;
        let adj = adjacent_faces_of_edge(faces, face_neighbors, a, b);
        match adj {
            None => {
                proof {
                    assert(adjacent_result(cur.0, cur.1, a, b, adj));
                }
            },
            Some((fa, fb)) => {
                if !can_apply_flip(faces, face_neighbors, fa, fb) {
                    proof {
                        assert(adjacent_result(cur.0, cur.1, a, b, adj));
                        assert(insert_step(cr, cvs, constrained_pairs@, u, v, cur, true, false, cur));
                        assert(states[0] == (f0, nb0, q0, 0int));
                        assert(insert_run(cr, cvs, constrained_pairs@, u, v, (f0, nb0, q0, 0int), 4 * f0.len() as int + 16, false, faces@, face_neighbors@));
                    }
                    return Err(CdtError::ConstraintInsertionFailed);
                }
                let ghost x = faces@[fa.0 as int];
                let ghost y = faces@[fb.0 as int];
                let ghost ia = apex_index(x, y);
                let ghost sh = others(x, ia);
                let cflip = can_flip(faces, fa, fb, convex);
                proof {
                    assert(adjacent_result(cur.0, cur.1, a, b, adj));
                    assert(cvs(x[ia], y[apex_index(y, x)], sh.0, sh.1, cflip));
                }
                if !cflip {
                    queue.push((a, b));
                } else {
                    let (s0, s1, p, q) = shared_and_apex(faces, fa, fb);
                    proof {
                        lemma_shared_is_flipped_edge(faces@, fa, fb);
                    }
                    if !contains_pair(constrained_pairs, canon(s0, s1)) {
                        let ghost before = faces@;
                        flip_unconstrained(faces, face_neighbors, constrained_pairs, fa, fb);
                        proof {
                            assert forall|i: int|
                                0 <= i < constrained_pairs@.len() && spec_edge_exists(f0, (#[trigger] constrained_pairs@[i]).0, constrained_pairs@[i].1) implies spec_edge_exists(
                                faces@,
                                constrained_pairs@[i].0,
                                constrained_pairs@[i].1,
                            ) by {
                                assert(spec_edge_exists(before, constrained_pairs@[i].0, constrained_pairs@[i].1));
                            }
                        }
                        if (p == u && q == v) || (p == v && q == u) {
                            proof {
                                if p == v {
                                    let i = choose|i: int| 0 <= i < faces@.len() && face_has(#[trigger] faces@[i], p) && face_has(faces@[i], q);
                                    assert(face_has(faces@[i], u) && face_has(faces@[i], v));
                                }
                                let s2 = (faces@, face_neighbors@, queue@, head as int);
                                assert(insert_step(cr, cvs, constrained_pairs@, u, v, cur, true, true, s2));
                                assert(states[0] == (f0, nb0, q0, 0int));
                                assert(insert_run(cr, cvs, constrained_pairs@, u, v, (f0, nb0, q0, 0int), 4 * f0.len() as int + 16, true, faces@, face_neighbors@));
                            }
                            return Ok(());
                        }
                        let k = crosses(u, v, p, q);
                        proof {
                            assert(cr(u, v, p, q, k));
                        }
                        if k {
                            queue.push(canon(p, q));
                        }
                    }
                }
            },
        }
        proof {
            let next = (faces@, face_neighbors@, queue@, head as int);
            assert(insert_step(cr, cvs, constrained_pairs@, u, v, cur, false, false, next));
            let old_states = states;
            states = states.push(next);
            assert forall|j: int| 0 <= j < states.len() - 1 implies #[trigger] insert_step_at(cr, cvs, constrained_pairs@, u, v, states, j) by {
                if j < old_states.len() - 1 {
                    assert(insert_step_at(cr, cvs, constrained_pairs@, u, v, old_states, j));
                    assert(states[j] == old_states[j] && states[j + 1] == old_states[j + 1]);
                } else {
                    assert(states[j] == cur && states[j + 1] == next);
                }
            }
        }
    }
    proof {
        assert(states[0] == (f0, nb0, q0, 0int));
        assert(insert_run(cr, cvs, constrained_pairs@, u, v, (f0, nb0, q0, 0int), 4 * f0.len() as int + 16, false, faces@, face_neighbors@));
    }
    Err(CdtError::ConstraintInsertionFailed)
}

/// One pass of the restoring loop from the tables `s`, as the answers of
/// `cv` (convexity) and `ic` (in-circle) allow: `fin` says whether the
/// loop ends there, `ok` whether it then succeeds, and `s2` is the
/// tables after. No failing report ends it in success; a failing
/// report whose faces cannot be flipped as the tables stand, whose
/// quadrilateral is not convex, or whose edge is constrained ends it in
/// failure; any other is flipped.
pub open spec fn restore_step(
    cv: spec_fn(VertexId, VertexId, VertexId, VertexId, bool) -> bool,
    ic: spec_fn(VertexId, VertexId, VertexId, VertexId, bool) -> bool,
    pairs: Seq<(VertexId, VertexId)>,
    s: (Seq<[VertexId; 3]>, Seq<[Option<FaceId>; 3]>),
    fin: bool,
    ok: bool,
    s2: (Seq<[VertexId; 3]>, Seq<[Option<FaceId>; 3]>),
) -> bool {
    let (f, nb) = s;
    exists|bad: Option<(FaceId, FaceId)>|
        #[trigger] first_bad_result(ic, f, nb, pairs, bad) && match bad {
            None => fin && ok && s2 == s,
            Some((fa, fb)) => if !flip_ok(f, nb, fa, fb) {
                fin && !ok && s2 == s
            } else {
                let x = f[fa.0 as int];
                let y = f[fb.0 as int];
                let ia = apex_index(x, y);
                let sh = others(x, ia);
                exists|c: bool|
                    #[trigger] cv(x[ia], y[apex_index(y, x)], sh.0, sh.1, c) && if !c || pairs.contains(spec_canon(sh.0, sh.1)) {
                        fin && !ok && s2 == s
                    } else {
                        !fin && s2 == (flipped_faces(f, fa, fb), flipped_neighbors(f, nb, fa, fb))
                    }
            },
        }
}

/// State `j + 1` of `states` follows state `j` by a pass that does not
/// end the restoring loop.
pub open spec fn restore_step_at(
    cv: spec_fn(VertexId, VertexId, VertexId, VertexId, bool) -> bool,
    ic: spec_fn(VertexId, VertexId, VertexId, VertexId, bool) -> bool,
    pairs: Seq<(VertexId, VertexId)>,
    states: Seq<(Seq<[VertexId; 3]>, Seq<[Option<FaceId>; 3]>)>,
    j: int,
) -> bool {
    restore_step(cv, ic, pairs, states[j], false, false, states[j + 1])
}

/// A run of the restoring loop from the tables `s0`, with at most `bound`
/// passes, that ends with outcome `ok` and the tables `s`: every pass but
/// the last flips; the last one ends it, or, after `bound` passes, the
/// loop fails as the tables stand.
pub open spec fn restore_run(
    cv: spec_fn(VertexId, VertexId, VertexId, VertexId, bool) -> bool,
    ic: spec_fn(VertexId, VertexId, VertexId, VertexId, bool) -> bool,
    pairs: Seq<(VertexId, VertexId)>,
    s0: (Seq<[VertexId; 3]>, Seq<[Option<FaceId>; 3]>),
    bound: int,
    ok: bool,
    s: (Seq<[VertexId; 3]>, Seq<[Option<FaceId>; 3]>),
) -> bool {
    exists|states: Seq<(Seq<[VertexId; 3]>, Seq<[Option<FaceId>; 3]>)>|
        #![trigger states[0]]
        states.len() >= 1 && states.len() <= bound + 1 && states[0] == s0 && (forall|j: int|
            0 <= j < states.len() - 1 ==> #[trigger] restore_step_at(cv, ic, pairs, states, j)) && if states.len() - 1 < bound {
            restore_step(cv, ic, pairs, states[states.len() - 1], true, ok, s)
        } else {
            !ok && states[states.len() - 1] == s
        }
}

/// Restores local Delaunay-ness on every unconstrained interior edge by
/// repeatedly flipping the first one the oracle finds illegal, until
/// none is left; fails after `4 * faces + 16` flips, or when an illegal
/// edge's faces cannot be flipped (as the tables stand, or because their
/// quadrilateral is not convex). Every constrained edge present stays.
pub fn restore_unconstrained_delaunay<
    G: Fn(VertexId, VertexId, VertexId, VertexId) -> bool,
    H: Fn(VertexId, VertexId, VertexId, VertexId) -> bool,
>(
    faces: &mut Vec<[VertexId; 3]>,
    face_neighbors: &mut Vec<[Option<FaceId>; 3]>,
    constrained_pairs: &Vec<(VertexId, VertexId)>,
    convex: &G,
    in_circle: &H,
) -> (r: Result<(), CdtError>)
    requires
        old(face_neighbors).len() == old(faces).len(),
        4 * old(faces).len() + 16 <= usize::MAX,
        pairs_canonical(constrained_pairs@),
        forall|a: VertexId, b: VertexId, c: VertexId, d: VertexId| convex.requires((a, b, c, d)),
        forall|a: VertexId, b: VertexId, c: VertexId, d: VertexId| in_circle.requires((a, b, c, d)),
    ensures
        final(faces).len() == old(faces).len(),
        final(face_neighbors).len() == old(face_neighbors).len(),
        constraints_kept(old(faces)@, final(faces)@, constrained_pairs@),
        r is Err ==> r == Err::<(), CdtError>(CdtError::ConstraintInsertionFailed),
        r is Ok ==> ({
            let reps = interior_reports(final(faces)@, final(face_neighbors)@, constrained_pairs@, 3 * old(faces).len());
            forall|i: int|
                0 <= i < reps.len() ==> (#[trigger] reps[i]).2.0 < old(faces).len() && reps[i].3.0 < old(faces).len()
                    && apexes_defined(final(faces)@[reps[i].2.0 as int], final(faces)@[reps[i].3.0 as int]) && delaunay_by(
                    *in_circle,
                    final(faces)@,
                    reps[i].2,
                    reps[i].3,
                )
        }),
        restore_run(
            quad_answers(*convex),
            quad_answers(*in_circle),
            constrained_pairs@,
            (old(faces)@, old(face_neighbors)@),
            4 * old(faces).len() as int + 16,
            r is Ok,
            (final(faces)@, final(face_neighbors)@),
        ),
{
    let ghost f0 = faces@;
    let ghost nb0 = face_neighbors@;
    let ghost cvs = quad_answers(*convex);
    let ghost ics = quad_answers(*in_circle);
    let n = faces.len();
    let bound = flip_bound(n);
    let mut iter: usize = 0;
    let ghost mut states: Seq<(Seq<[VertexId; 3]>, Seq<[Option<FaceId>; 3]>)> = seq![(f0, nb0)];
    while iter < bound
        invariant
            faces.len() == n,
            face_neighbors.len() == n,
            n == old(faces).len(),
            n == old(face_neighbors).len(),
            f0 == old(faces)@,
            nb0 == old(face_neighbors)@,
            4 * n + 16 <= usize::MAX,
            bound == 4 * n + 16,
            pairs_canonical(constrained_pairs@),
            forall|a: VertexId, b: VertexId, c: VertexId, d: VertexId| convex.requires((a, b, c, d)),
            forall|a: VertexId, b: VertexId, c: VertexId, d: VertexId| in_circle.requires((a, b, c, d)),
            constraints_kept(f0, faces@, constrained_pairs@),
            iter <= bound,
            cvs == quad_answers(*convex),
            ics == quad_answers(*in_circle),
            states.len() == iter + 1,
            states[0] == (f0, nb0),
            states[states.len() - 1] == (faces@, face_neighbors@),
            forall|j: int| 0 <= j < states.len() - 1 ==> #[trigger] restore_step_at(cvs, ics, constrained_pairs@, states, j),
        decreases bound - iter,
    {
        let ghost cur = (faces@, face_neighbors@);
        let bad = find_first_bad_unconstrained_edge(faces, face_neighbors, constrained_pairs, in_circle);
        proof {
            assert(first_bad_result(ics, cur.0, cur.1, constrained_pairs@, bad));
        }
        match bad {
            None => {
                proof {
                    assert(restore_step(cvs, ics, constrained_pairs@, cur, true, true, cur));
                    assert(states[0] == (f0, nb0));
                }
                return Ok(());
            },
            Some((fa, fb)) => {
                if !can_apply_flip(faces, face_neighbors, fa, fb) {
                    proof {
                        assert(restore_step(cvs, ics, constrained_pairs@, cur, true, false, cur));
                        assert(states[0] == (f0, nb0));
                    }
                    return Err(CdtError::ConstraintInsertionFailed);
                }
                let ghost x = faces@[fa.0 as int];
                let ghost y = faces@[fb.0 as int];
                let ghost ia = apex_index(x, y);
                let ghost sh = others(x, ia);
                let cflip = can_flip(faces, fa, fb, convex);
                proof {
                    assert(cvs(x[ia], y[apex_index(y, x)], sh.0, sh.1, cflip));
                }
                if !cflip {
                    proof {
                        assert(restore_step(cvs, ics, constrained_pairs@, cur, true, false, cur));
                        assert(states[0] == (f0, nb0));
                    }
                    return Err(CdtError::ConstraintInsertionFailed);
                }
                let (s0, s1, _, _) = shared_and_apex(faces, fa, fb);
                proof {
                    lemma_shared_is_flipped_edge(faces@, fa, fb);
                }
                if contains_pair(constrained_pairs, canon(s0, s1)) {
                    proof {
                        assert(restore_step(cvs, ics, constrained_pairs@, cur, true, false, cur));
                        assert(states[0] == (f0, nb0));
                    }
                    return Err(CdtError::ConstraintInsertionFailed);
                }
                let ghost before = faces@;
                flip_unconstrained(faces, face_neighbors, constrained_pairs, fa, fb);
                proof {
                    assert forall|i: int|
                        0 <= i < constrained_pairs@.len() && spec_edge_exists(f0, (#[trigger] constrained_pairs@[i]).0, constrained_pairs@[i].1) implies spec_edge_exists(
                        faces@,
                        constrained_pairs@[i].0,
                        constrained_pairs@[i].1,
                    ) by {
                        assert(spec_edge_exists(before, constrained_pairs@[i].0, constrained_pairs@[i].1));
                    }
                    let next = (faces@, face_neighbors@);
                    assert(restore_step(cvs, ics, constrained_pairs@, cur, false, false, next));
                    let old_states = states;
                    states = states.push(next);
                    assert forall|j: int| 0 <= j < states.len() - 1 implies #[trigger] restore_step_at(cvs, ics, constrained_pairs@, states, j) by {
                        if j < old_states.len() - 1 {
                            assert(restore_step_at(cvs, ics, constrained_pairs@, old_states, j));
                            assert(states[j] == old_states[j] && states[j + 1] == old_states[j + 1]);
                        } else {
                            assert(states[j] == cur && states[j + 1] == next);
                        }
                    }
                }
            },
        }
        iter += 1;
    }
    proof {
        assert(states[0] == (f0, nb0));
    }
    Err(CdtError::ConstraintInsertionFailed)
}

/// Each constraint `(a, b)` with `a != b` is an edge of `t`, marked
/// constrained.
pub open spec fn constraints_realized<P>(
    t: &Triangulation2<P>,
    marked: Seq<EdgeId>,
    constraints: Seq<(VertexId, VertexId)>,
) -> bool {
    forall|i: int|
        0 <= i < constraints.len() && (#[trigger] constraints[i]).0 != constraints[i].1 ==> exists|e: int|
            0 <= e < t.spec_edges().len() && spec_canon(t.spec_edges()[e].0, t.spec_edges()[e].1) == spec_canon(
                constraints[i].0,
                constraints[i].1,
            ) && #[trigger] marked.contains(EdgeId(e as u32))
}

/// The first `k` constraints of `c` in canonical form.
pub open spec fn canon_pairs(c: Seq<(VertexId, VertexId)>, k: int) -> Seq<(VertexId, VertexId)> {
    Seq::new(k as nat, |j: int| spec_canon(c[j].0, c[j].1))
}

/// Tables `j + 1` follow tables `j` by a successful insertion of
/// constraint `j`, with the constraints before it kept.
pub open spec fn insert_ok_at(
    cr: spec_fn(VertexId, VertexId, VertexId, VertexId, bool) -> bool,
    cv: spec_fn(VertexId, VertexId, VertexId, VertexId, bool) -> bool,
    c: Seq<(VertexId, VertexId)>,
    tables: Seq<(Seq<[VertexId; 3]>, Seq<[Option<FaceId>; 3]>)>,
    j: int,
) -> bool {
    insert_result(cr, cv, canon_pairs(c, j), c[j].0, c[j].1, tables[j].0, tables[j].1, true, tables[j + 1].0, tables[j + 1].1)
}

/// Every unconstrained interior edge of the tables `(f, nb)` has a good
/// report by the answers `ic`: locally Delaunay.
pub open spec fn tables_locally_delaunay(
    ic: spec_fn(VertexId, VertexId, VertexId, VertexId, bool) -> bool,
    f: Seq<[VertexId; 3]>,
    nb: Seq<[Option<FaceId>; 3]>,
    pairs: Seq<(VertexId, VertexId)>,
) -> bool {
    let reps = interior_reports(f, nb, pairs, 3 * f.len() as int);
    forall|i: int| 0 <= i < reps.len() ==> #[trigger] report_good(ic, f, reps[i])
}

/// What constraining `t` by `c` gives, by the answers of `cr`, `cv` and
/// `ic`: the constraints are inserted in order, each keeping those before
/// it, from `t`'s tables; the first insertion that fails makes the whole
/// fail; when all succeed, the restoring loop runs on the last tables
/// with every constraint kept, and its outcome is the outcome, with the
/// faces `ff` on success.
pub open spec fn constrain_outcome<P>(
    cr: spec_fn(VertexId, VertexId, VertexId, VertexId, bool) -> bool,
    cv: spec_fn(VertexId, VertexId, VertexId, VertexId, bool) -> bool,
    ic: spec_fn(VertexId, VertexId, VertexId, VertexId, bool) -> bool,
    t: Triangulation2<P>,
    c: Seq<(VertexId, VertexId)>,
    ok: bool,
    ff: Seq<[VertexId; 3]>,
) -> bool {
    exists|tables: Seq<(Seq<[VertexId; 3]>, Seq<[Option<FaceId>; 3]>)>|
        #![trigger tables[0]]
        1 <= tables.len() <= c.len() + 1 && tables[0] == (t.spec_faces(), t.spec_face_neighbors()) && (forall|j: int|
            0 <= j < tables.len() - 1 ==> #[trigger] insert_ok_at(cr, cv, c, tables, j)) && if tables.len() - 1 < c.len() {
            let k = tables.len() - 1;
            !ok && exists|s: (Seq<[VertexId; 3]>, Seq<[Option<FaceId>; 3]>)|
                #[trigger] insert_result(cr, cv, canon_pairs(c, k), c[k].0, c[k].1, tables[k].0, tables[k].1, false, s.0, s.1)
        } else {
            let last = tables[tables.len() - 1];
            exists|s: (Seq<[VertexId; 3]>, Seq<[Option<FaceId>; 3]>)|
                #[trigger] restore_run(cv, ic, canon_pairs(c, c.len() as int), last, 4 * last.0.len() as int + 16, ok, s) && (ok
                    ==> s.0 == ff && tables_locally_delaunay(ic, s.0, s.1, canon_pairs(c, c.len() as int)))
        }
}

/// `a1` admits no answer that `a2` does not.
pub open spec fn answers_within(
    a1: spec_fn(VertexId, VertexId, VertexId, VertexId, bool) -> bool,
    a2: spec_fn(VertexId, VertexId, VertexId, VertexId, bool) -> bool,
) -> bool {
    forall|a: VertexId, b: VertexId, c: VertexId, d: VertexId, r: bool| #[trigger] a1(a, b, c, d, r) ==> a2(a, b, c, d, r)
}

proof fn lemma_insert_step_within(
    cr1: spec_fn(VertexId, VertexId, VertexId, VertexId, bool) -> bool,
    cv1: spec_fn(VertexId, VertexId, VertexId, VertexId, bool) -> bool,
    cr2: spec_fn(VertexId, VertexId, VertexId, VertexId, bool) -> bool,
    cv2: spec_fn(VertexId, VertexId, VertexId, VertexId, bool) -> bool,
    pairs: Seq<(VertexId, VertexId)>,
    u: VertexId,
    v: VertexId,
    s: (Seq<[VertexId; 3]>, Seq<[Option<FaceId>; 3]>, Seq<(VertexId, VertexId)>, int),
    fin: bool,
    ok: bool,
    s2: (Seq<[VertexId; 3]>, Seq<[Option<FaceId>; 3]>, Seq<(VertexId, VertexId)>, int),
)
    requires
        answers_within(cr1, cr2),
        answers_within(cv1, cv2),
        insert_step(cr1, cv1, pairs, u, v, s, fin, ok, s2),
    ensures
        insert_step(cr2, cv2, pairs, u, v, s, fin, ok, s2),
{
    let (f, nb, q, h) = s;
    if h < q.len() {
        let (a, b) = q[h];
        let adj = choose|adj: Option<(FaceId, FaceId)>|
            #[trigger] adjacent_result(f, nb, a, b, adj) && match adj {
                None => !fin && s2 == (f, nb, q, h + 1),
                Some((fa, fb)) => if !flip_ok(f, nb, fa, fb) {
                    fin && !ok && s2 == s
                } else {
                    let x = f[fa.0 as int];
                    let y = f[fb.0 as int];
                    let ia = apex_index(x, y);
                    let sh = others(x, ia);
                    let p = x[ia];
                    let w = y[apex_index(y, x)];
                    exists|c: bool|
                        #[trigger] cv1(p, w, sh.0, sh.1, c) && if !c {
                            !fin && s2 == (f, nb, q.push((a, b)), h + 1)
                        } else if pairs.contains(spec_canon(sh.0, sh.1)) {
                            !fin && s2 == (f, nb, q, h + 1)
                        } else if (p == u && w == v) || (p == v && w == u) {
                            fin && ok && s2 == (flipped_faces(f, fa, fb), flipped_neighbors(f, nb, fa, fb), q, h + 1)
                        } else {
                            exists|k: bool|
                                #[trigger] cr1(u, v, p, w, k) && !fin && s2 == (
                                    flipped_faces(f, fa, fb),
                                    flipped_neighbors(f, nb, fa, fb),
                                    if k {
                                        q.push(spec_canon(p, w))
                                    } else {
                                        q
                                    },
                                    h + 1,
                                )
                        }
                },
            };
        if let Some((fa, fb)) = adj {
            if flip_ok(f, nb, fa, fb) {
                let x = f[fa.0 as int];
                let y = f[fb.0 as int];
                let ia = apex_index(x, y);
                let sh = others(x, ia);
                let p = x[ia];
                let w = y[apex_index(y, x)];
                let c = choose|c: bool|
                    #[trigger] cv1(p, w, sh.0, sh.1, c) && if !c {
                        !fin && s2 == (f, nb, q.push((a, b)), h + 1)
                    } else if pairs.contains(spec_canon(sh.0, sh.1)) {
                        !fin && s2 == (f, nb, q, h + 1)
                    } else if (p == u && w == v) || (p == v && w == u) {
                        fin && ok && s2 == (flipped_faces(f, fa, fb), flipped_neighbors(f, nb, fa, fb), q, h + 1)
                    } else {
                        exists|k: bool|
                            #[trigger] cr1(u, v, p, w, k) && !fin && s2 == (
                                flipped_faces(f, fa, fb),
                                flipped_neighbors(f, nb, fa, fb),
                                if k {
                                    q.push(spec_canon(p, w))
                                } else {
                                    q
                                },
                                h + 1,
                            )
                    };
                assert(cv2(p, w, sh.0, sh.1, c));
                if c && !pairs.contains(spec_canon(sh.0, sh.1)) && !((p == u && w == v) || (p == v && w == u)) {
                    let k = choose|k: bool|
                        #[trigger] cr1(u, v, p, w, k) && !fin && s2 == (
                            flipped_faces(f, fa, fb),
                            flipped_neighbors(f, nb, fa, fb),
                            if k {
                                q.push(spec_canon(p, w))
                            } else {
                                q
                            },
                            h + 1,
                        );
                    assert(cr2(u, v, p, w, k));
                }
            }
        }
    }
}

proof fn lemma_insert_result_within(
    cr1: spec_fn(VertexId, VertexId, VertexId, VertexId, bool) -> bool,
    cv1: spec_fn(VertexId, VertexId, VertexId, VertexId, bool) -> bool,
    cr2: spec_fn(VertexId, VertexId, VertexId, VertexId, bool) -> bool,
    cv2: spec_fn(VertexId, VertexId, VertexId, VertexId, bool) -> bool,
    pairs: Seq<(VertexId, VertexId)>,
    u: VertexId,
    v: VertexId,
    f: Seq<[VertexId; 3]>,
    nb: Seq<[Option<FaceId>; 3]>,
    ok: bool,
    ff: Seq<[VertexId; 3]>,
    fnb: Seq<[Option<FaceId>; 3]>,
)
    requires
        answers_within(cr1, cr2),
        answers_within(cv1, cv2),
        insert_result(cr1, cv1, pairs, u, v, f, nb, ok, ff, fnb),
    ensures
        insert_result(cr2, cv2, pairs, u, v, f, nb, ok, ff, fnb),
{
    if !spec_edge_exists(f, u, v) {
        let q0 = choose|q0: Seq<(VertexId, VertexId)>|
            #[trigger] initial_queue(cr1, f, nb, pairs, u, v, q0) && insert_run(
                cr1,
                cv1,
                pairs,
                u,
                v,
                (f, nb, q0, 0int),
                4 * f.len() as int + 16,
                ok,
                ff,
                fnb,
            );
        let reps = interior_reports(f, nb, pairs, 3 * f.len() as int);
        let ans = choose|ans: Seq<bool>|
            ans.len() == reps.len() && (forall|i: int| 0 <= i < reps.len() ==> cr1(u, v, reps[i].0, reps[i].1, #[trigger] ans[i]))
                && q0 == selected(reps, ans, reps.len() as int);
        assert forall|i: int| 0 <= i < reps.len() implies cr2(u, v, reps[i].0, reps[i].1, #[trigger] ans[i]) by {
            assert(cr1(u, v, reps[i].0, reps[i].1, ans[i]));
        }
        assert(initial_queue(cr2, f, nb, pairs, u, v, q0));
        let bound = 4 * f.len() as int + 16;
        let states = choose|states: Seq<(Seq<[VertexId; 3]>, Seq<[Option<FaceId>; 3]>, Seq<(VertexId, VertexId)>, int)>|
            #![trigger states[0]]
            states.len() >= 1 && states.len() <= bound + 1 && states[0] == (f, nb, q0, 0int) && (forall|j: int|
                0 <= j < states.len() - 1 ==> #[trigger] insert_step_at(cr1, cv1, pairs, u, v, states, j)) && if states.len() - 1
                < bound {
                exists|s2: (Seq<[VertexId; 3]>, Seq<[Option<FaceId>; 3]>, Seq<(VertexId, VertexId)>, int)|
                    #[trigger] insert_step(cr1, cv1, pairs, u, v, states[states.len() - 1], true, ok, s2) && s2.0 == ff && s2.1
                        == fnb
            } else {
                !ok && states[states.len() - 1].0 == ff && states[states.len() - 1].1 == fnb
            };
        assert forall|j: int| 0 <= j < states.len() - 1 implies #[trigger] insert_step_at(cr2, cv2, pairs, u, v, states, j) by {
            assert(insert_step_at(cr1, cv1, pairs, u, v, states, j));
            lemma_insert_step_within(cr1, cv1, cr2, cv2, pairs, u, v, states[j], false, false, states[j + 1]);
        }
        if states.len() - 1 < bound {
            let s2 = choose|s2: (Seq<[VertexId; 3]>, Seq<[Option<FaceId>; 3]>, Seq<(VertexId, VertexId)>, int)|
                #[trigger] insert_step(cr1, cv1, pairs, u, v, states[states.len() - 1], true, ok, s2) && s2.0 == ff && s2.1 == fnb;
            lemma_insert_step_within(cr1, cv1, cr2, cv2, pairs, u, v, states[states.len() - 1], true, ok, s2);
        }
        assert(insert_run(cr2, cv2, pairs, u, v, (f, nb, q0, 0int), bound, ok, ff, fnb));
    }
}

proof fn lemma_first_bad_within(
    ic1: spec_fn(VertexId, VertexId, VertexId, VertexId, bool) -> bool,
    ic2: spec_fn(VertexId, VertexId, VertexId, VertexId, bool) -> bool,
    f: Seq<[VertexId; 3]>,
    nb: Seq<[Option<FaceId>; 3]>,
    pairs: Seq<(VertexId, VertexId)>,
    r: Option<(FaceId, FaceId)>,
)
    requires
        answers_within(ic1, ic2),
        first_bad_result(ic1, f, nb, pairs, r),
    ensures
        first_bad_result(ic2, f, nb, pairs, r),
        forall|rep: (VertexId, VertexId, FaceId, FaceId)| #[trigger] report_good(ic1, f, rep) ==> report_good(ic2, f, rep),
{
    let reps = interior_reports(f, nb, pairs, 3 * f.len() as int);
    assert forall|rep: (VertexId, VertexId, FaceId, FaceId)| #[trigger] report_good(ic1, f, rep) implies report_good(ic2, f, rep) by {
        let x = f[rep.2.0 as int];
        let y = f[rep.3.0 as int];
        assert(ic1(x[0], x[1], x[2], y[apex_index(y, x)], false));
        assert(ic1(y[0], y[1], y[2], x[apex_index(x, y)], false));
    }
    if let Some((fa, fb)) = r {
        let i = choose|i: int|
            0 <= i < reps.len() && reps[i].2 == fa && reps[i].3 == fb && #[trigger] report_bad(ic1, f, reps[i]) && forall|k: int|
                0 <= k < i ==> #[trigger] report_good(ic1, f, reps[k]);
        let x = f[reps[i].2.0 as int];
        let y = f[reps[i].3.0 as int];
        if ic1(x[0], x[1], x[2], y[apex_index(y, x)], true) {
            assert(ic2(x[0], x[1], x[2], y[apex_index(y, x)], true));
        }
        if ic1(x[0], x[1], x[2], y[apex_index(y, x)], false) && ic1(y[0], y[1], y[2], x[apex_index(x, y)], true) {
            assert(ic2(x[0], x[1], x[2], y[apex_index(y, x)], false));
            assert(ic2(y[0], y[1], y[2], x[apex_index(x, y)], true));
        }
        assert(report_bad(ic2, f, reps[i]));
        assert forall|k: int| 0 <= k < i implies #[trigger] report_good(ic2, f, reps[k]) by {
            assert(report_good(ic1, f, reps[k]));
        }
    } else {
        assert forall|k: int| 0 <= k < reps.len() implies #[trigger] report_good(ic2, f, reps[k]) by {
            assert(report_good(ic1, f, reps[k]));
        }
    }
}

proof fn lemma_restore_step_within(
    cv1: spec_fn(VertexId, VertexId, VertexId, VertexId, bool) -> bool,
    ic1: spec_fn(VertexId, VertexId, VertexId, VertexId, bool) -> bool,
    cv2: spec_fn(VertexId, VertexId, VertexId, VertexId, bool) -> bool,
    ic2: spec_fn(VertexId, VertexId, VertexId, VertexId, bool) -> bool,
    pairs: Seq<(VertexId, VertexId)>,
    s: (Seq<[VertexId; 3]>, Seq<[Option<FaceId>; 3]>),
    fin: bool,
    ok: bool,
    s2: (Seq<[VertexId; 3]>, Seq<[Option<FaceId>; 3]>),
)
    requires
        answers_within(cv1, cv2),
        answers_within(ic1, ic2),
        restore_step(cv1, ic1, pairs, s, fin, ok, s2),
    ensures
        restore_step(cv2, ic2, pairs, s, fin, ok, s2),
{
    let (f, nb) = s;
    let bad = choose|bad: Option<(FaceId, FaceId)>|
        #[trigger] first_bad_result(ic1, f, nb, pairs, bad) && match bad {
            None => fin && ok && s2 == s,
            Some((fa, fb)) => if !flip_ok(f, nb, fa, fb) {
                fin && !ok && s2 == s
            } else {
                let x = f[fa.0 as int];
                let y = f[fb.0 as int];
                let ia = apex_index(x, y);
                let sh = others(x, ia);
                exists|c: bool|
                    #[trigger] cv1(x[ia], y[apex_index(y, x)], sh.0, sh.1, c) && if !c || pairs.contains(spec_canon(sh.0, sh.1)) {
                        fin && !ok && s2 == s
                    } else {
                        !fin && s2 == (flipped_faces(f, fa, fb), flipped_neighbors(f, nb, fa, fb))
                    }
            },
        };
    lemma_first_bad_within(ic1, ic2, f, nb, pairs, bad);
    if let Some((fa, fb)) = bad {
        if flip_ok(f, nb, fa, fb) {
            let x = f[fa.0 as int];
            let y = f[fb.0 as int];
            let ia = apex_index(x, y);
            let sh = others(x, ia);
            let c = choose|c: bool|
                #[trigger] cv1(x[ia], y[apex_index(y, x)], sh.0, sh.1, c) && if !c || pairs.contains(spec_canon(sh.0, sh.1)) {
                    fin && !ok && s2 == s
                } else {
                    !fin && s2 == (flipped_faces(f, fa, fb), flipped_neighbors(f, nb, fa, fb))
                };
            assert(cv2(x[ia], y[apex_index(y, x)], sh.0, sh.1, c));
        }
    }
}

proof fn lemma_restore_run_within(
    cv1: spec_fn(VertexId, VertexId, VertexId, VertexId, bool) -> bool,
    ic1: spec_fn(VertexId, VertexId, VertexId, VertexId, bool) -> bool,
    cv2: spec_fn(VertexId, VertexId, VertexId, VertexId, bool) -> bool,
    ic2: spec_fn(VertexId, VertexId, VertexId, VertexId, bool) -> bool,
    pairs: Seq<(VertexId, VertexId)>,
    s0: (Seq<[VertexId; 3]>, Seq<[Option<FaceId>; 3]>),
    bound: int,
    ok: bool,
    s: (Seq<[VertexId; 3]>, Seq<[Option<FaceId>; 3]>),
)
    requires
        answers_within(cv1, cv2),
        answers_within(ic1, ic2),
        restore_run(cv1, ic1, pairs, s0, bound, ok, s),
    ensures
        restore_run(cv2, ic2, pairs, s0, bound, ok, s),
{
    let states = choose|states: Seq<(Seq<[VertexId; 3]>, Seq<[Option<FaceId>; 3]>)>|
        #![trigger states[0]]
        states.len() >= 1 && states.len() <= bound + 1 && states[0] == s0 && (forall|j: int|
            0 <= j < states.len() - 1 ==> #[trigger] restore_step_at(cv1, ic1, pairs, states, j)) && if states.len() - 1 < bound {
            restore_step(cv1, ic1, pairs, states[states.len() - 1], true, ok, s)
        } else {
            !ok && states[states.len() - 1] == s
        };
    assert forall|j: int| 0 <= j < states.len() - 1 implies #[trigger] restore_step_at(cv2, ic2, pairs, states, j) by {
        assert(restore_step_at(cv1, ic1, pairs, states, j));
        lemma_restore_step_within(cv1, ic1, cv2, ic2, pairs, states[j], false, false, states[j + 1]);
    }
    if states.len() - 1 < bound {
        lemma_restore_step_within(cv1, ic1, cv2, ic2, pairs, states[states.len() - 1], true, ok, s);
    }
}

/// A constraining outcome by some answers is one by any answers that
/// admit them.
pub proof fn lemma_constrain_outcome_within<P>(
    cr1: spec_fn(VertexId, VertexId, VertexId, VertexId, bool) -> bool,
    cv1: spec_fn(VertexId, VertexId, VertexId, VertexId, bool) -> bool,
    ic1: spec_fn(VertexId, VertexId, VertexId, VertexId, bool) -> bool,
    cr2: spec_fn(VertexId, VertexId, VertexId, VertexId, bool) -> bool,
    cv2: spec_fn(VertexId, VertexId, VertexId, VertexId, bool) -> bool,
    ic2: spec_fn(VertexId, VertexId, VertexId, VertexId, bool) -> bool,
    t: Triangulation2<P>,
    c: Seq<(VertexId, VertexId)>,
    ok: bool,
    ff: Seq<[VertexId; 3]>,
)
    requires
        answers_within(cr1, cr2),
        answers_within(cv1, cv2),
        answers_within(ic1, ic2),
        constrain_outcome(cr1, cv1, ic1, t, c, ok, ff),
    ensures
        constrain_outcome(cr2, cv2, ic2, t, c, ok, ff),
{
    let tables = choose|tables: Seq<(Seq<[VertexId; 3]>, Seq<[Option<FaceId>; 3]>)>|
        #![trigger tables[0]]
        1 <= tables.len() <= c.len() + 1 && tables[0] == (t.spec_faces(), t.spec_face_neighbors()) && (forall|j: int|
            0 <= j < tables.len() - 1 ==> #[trigger] insert_ok_at(cr1, cv1, c, tables, j)) && if tables.len() - 1 < c.len() {
            let k = tables.len() - 1;
            !ok && exists|s: (Seq<[VertexId; 3]>, Seq<[Option<FaceId>; 3]>)|
                #[trigger] insert_result(cr1, cv1, canon_pairs(c, k), c[k].0, c[k].1, tables[k].0, tables[k].1, false, s.0, s.1)
        } else {
            let last = tables[tables.len() - 1];
            exists|s: (Seq<[VertexId; 3]>, Seq<[Option<FaceId>; 3]>)|
                #[trigger] restore_run(cv1, ic1, canon_pairs(c, c.len() as int), last, 4 * last.0.len() as int + 16, ok, s) && (ok
                    ==> s.0 == ff && tables_locally_delaunay(ic1, s.0, s.1, canon_pairs(c, c.len() as int)))
        };
    assert forall|j: int| 0 <= j < tables.len() - 1 implies #[trigger] insert_ok_at(cr2, cv2, c, tables, j) by {
        assert(insert_ok_at(cr1, cv1, c, tables, j));
        lemma_insert_result_within(cr1, cv1, cr2, cv2, canon_pairs(c, j), c[j].0, c[j].1, tables[j].0, tables[j].1, true, tables[j + 1].0, tables[j + 1].1);
    }
    let k = tables.len() - 1;
    if k < c.len() {
        let s = choose|s: (Seq<[VertexId; 3]>, Seq<[Option<FaceId>; 3]>)|
            #[trigger] insert_result(cr1, cv1, canon_pairs(c, k), c[k].0, c[k].1, tables[k].0, tables[k].1, false, s.0, s.1);
        lemma_insert_result_within(cr1, cv1, cr2, cv2, canon_pairs(c, k), c[k].0, c[k].1, tables[k].0, tables[k].1, false, s.0, s.1);
    } else {
        let last = tables[k];
        let all = canon_pairs(c, c.len() as int);
        let s = choose|s: (Seq<[VertexId; 3]>, Seq<[Option<FaceId>; 3]>)|
            #[trigger] restore_run(cv1, ic1, all, last, 4 * last.0.len() as int + 16, ok, s) && (ok ==> s.0 == ff
                && tables_locally_delaunay(ic1, s.0, s.1, all));
        lemma_restore_run_within(cv1, ic1, cv2, ic2, all, last, 4 * last.0.len() as int + 16, ok, s);
        if ok {
            let reps = interior_reports(s.0, s.1, all, 3 * s.0.len() as int);
            lemma_first_bad_within(ic1, ic2, s.0, s.1, all, None);
            assert forall|i: int| 0 <= i < reps.len() implies #[trigger] report_good(ic2, s.0, reps[i]) by {
                assert(report_good(ic1, s.0, reps[i]));
            }
        }
    }
}

/// Turns the Delaunay triangulation `t` into a constrained one: realizes
/// each constraint in order as an edge by [`insert_constraint_edge`],
/// restores local Delaunay-ness on the unconstrained edges by
/// [`restore_unconstrained_delaunay`], rebuilds the topology from the
/// final faces and marks the constraint edges. The oracles are the
/// geometric predicates on the vertices: `crosses(u, v, a, b)` whether
/// segment `(a, b)` properly crosses segment `(u, v)`, `convex(p, q, a, b)`
/// whether `a` and `b` lie strictly on opposite sides of the line through
/// `p` and `q`, and `in_circle(x, y, z, w)` whether `w` lies strictly
/// inside the circle through `x`, `y`, `z`. On success every constraint
/// with distinct ends is an edge of the result, marked constrained.
pub fn constrain_triangulation<
    P,
    F: Fn(VertexId, VertexId, VertexId, VertexId) -> bool,
    G: Fn(VertexId, VertexId, VertexId, VertexId) -> bool,
    H: Fn(VertexId, VertexId, VertexId, VertexId) -> bool,
>(
    t: Triangulation2<P>,
    constraints: &Vec<(VertexId, VertexId)>,
    crosses: &F,
    convex: &G,
    in_circle: &H,
) -> (r: Result<ConstrainedTriangulation2<P>, CdtError>)
    requires
        4 * t.spec_faces().len() + 16 <= usize::MAX,
        forall|a: VertexId, b: VertexId, c: VertexId, d: VertexId| crosses.requires((a, b, c, d)),
        forall|a: VertexId, b: VertexId, c: VertexId, d: VertexId| convex.requires((a, b, c, d)),
        forall|a: VertexId, b: VertexId, c: VertexId, d: VertexId| in_circle.requires((a, b, c, d)),
    ensures
        r is Err ==> r == Err::<ConstrainedTriangulation2<P>, CdtError>(CdtError::ConstraintInsertionFailed),
        r matches Ok(c) ==> constraints_realized(c.spec_triangulation(), c.spec_constrained(), constraints@),
        r matches Ok(c) ==> marked_only_constraints(c.spec_triangulation(), c.spec_constrained(), constraints@),
        r matches Ok(c) ==> c.spec_triangulation().spec_vertices() == t.spec_vertices(),
        r matches Ok(c) ==> c.spec_triangulation().spec_faces().len() == t.spec_faces().len(),
        r matches Ok(c) ==> c.spec_triangulation().well_formed() && c.spec_constrained() == constrained_ids(
            c.spec_triangulation().spec_edges(),
            canon_pairs(constraints@, constraints@.len() as int),
        ),
        exists|ff: Seq<[VertexId; 3]>|
            #[trigger] constrain_outcome(
                quad_answers(*crosses),
                quad_answers(*convex),
                quad_answers(*in_circle),
                t,
                constraints@,
                r is Ok,
                ff,
            ) && (r matches Ok(c) ==> c.spec_triangulation().spec_faces() == ff),
{
    proof {
        use_type_invariant(&t);
    }
    let ghost gt = t;
    let ghost cr = quad_answers(*crosses);
    let ghost cvs = quad_answers(*convex);
    let ghost ics = quad_answers(*in_circle);
    let mut faces = t.face_table();
    let mut face_neighbors = t.neighbor_table();
    let n = faces.len();
    let pts = t.into_vertices();
    let mut pairs: Vec<(VertexId, VertexId)> = Vec::new();
    let ghost mut tables: Seq<(Seq<[VertexId; 3]>, Seq<[Option<FaceId>; 3]>)> = seq![(faces@, face_neighbors@)];
    let mut i: usize = 0;
    while i < constraints.len()
        invariant
            cr == quad_answers(*crosses),
            cvs == quad_answers(*convex),
            ics == quad_answers(*in_circle),
            gt == t,
            tables.len() == i + 1,
            tables[0] == (gt.spec_faces(), gt.spec_face_neighbors()),
            tables[i as int] == (faces@, face_neighbors@),
            forall|j: int| 0 <= j < i ==> #[trigger] insert_ok_at(cr, cvs, constraints@, tables, j),
            faces.len() == n,
            face_neighbors.len() == n,
            4 * n + 16 <= usize::MAX,
            3 * n <= u32::MAX,
            forall|a: VertexId, b: VertexId, c: VertexId, d: VertexId| crosses.requires((a, b, c, d)),
            forall|a: VertexId, b: VertexId, c: VertexId, d: VertexId| convex.requires((a, b, c, d)),
            i <= constraints.len(),
            pairs.len() == i,
            pairs_canonical(pairs@),
            forall|j: int| 0 <= j < i ==> #[trigger] pairs@[j] == spec_canon(constraints@[j].0, constraints@[j].1),
            forall|j: int| 0 <= j < i ==> spec_edge_exists(faces@, (#[trigger] pairs@[j]).0, pairs@[j].1),
        decreases constraints.len() - i,
    {
        let (u, v) = constraints[i];
        let ghost before = faces@;
        let ghost before_nb = face_neighbors@;
        proof {
            assert(pairs@ =~= canon_pairs(constraints@, i as int));
        }
        match insert_constraint_edge(&mut faces, &mut face_neighbors, &pairs, u, v, crosses, convex) {
            Ok(()) => {},
            Err(e) => {
                proof {
                    let sf = (faces@, face_neighbors@);
                    let k = tables.len() - 1;
                    assert(k == i);
                    assert(constraints@[k].0 == u && constraints@[k].1 == v);
                    assert(insert_result(cr, cvs, canon_pairs(constraints@, k), constraints@[k].0, constraints@[k].1, tables[k].0, tables[k].1, false, sf.0, sf.1));
                    assert(tables[0] == (gt.spec_faces(), gt.spec_face_neighbors()));
                    assert(constrain_outcome(cr, cvs, ics, gt, constraints@, false, faces@));
                }
                return Err(e);
            },
        }
        proof {
            let old_tables = tables;
            tables = tables.push((faces@, face_neighbors@));
            assert forall|j: int| 0 <= j < i + 1 implies #[trigger] insert_ok_at(cr, cvs, constraints@, tables, j) by {
                if j < i {
                    assert(insert_ok_at(cr, cvs, constraints@, old_tables, j));
                    assert(tables[j] == old_tables[j] && tables[j + 1] == old_tables[j + 1]);
                } else {
                    assert(tables[j] == (before, before_nb) && tables[j + 1] == (faces@, face_neighbors@));
                }
            }
        }
        let key = canon(u, v);
        proof {
            assert forall|j: int| 0 <= j < i implies spec_edge_exists(faces@, (#[trigger] pairs@[j]).0, pairs@[j].1) by {
                assert(spec_edge_exists(before, pairs@[j].0, pairs@[j].1));
            }
            let w = choose|w: int| 0 <= w < faces@.len() && face_has(#[trigger] faces@[w], u) && face_has(faces@[w], v);
            assert(face_has(faces@[w], key.0) && face_has(faces@[w], key.1));
        }
        pairs.push(key);
        proof {
            assert forall|j: int| 0 <= j < i + 1 implies spec_edge_exists(faces@, (#[trigger] pairs@[j]).0, pairs@[j].1) by {
                if j < i {
                    assert(pairs@[j] == old_pairs_at(pairs@, j));
                }
            }
        }
        i += 1;
    }
    let ghost before = faces@;
    let ghost before_nb = face_neighbors@;
    proof {
        assert(pairs@ =~= canon_pairs(constraints@, constraints@.len() as int));
        assert(tables[0] == (gt.spec_faces(), gt.spec_face_neighbors()));
    }
    match restore_unconstrained_delaunay(&mut faces, &mut face_neighbors, &pairs, convex, in_circle) {
        Ok(()) => {},
        Err(e) => {
            proof {
                let sf = (faces@, face_neighbors@);
                let last = tables[tables.len() - 1];
                assert(last == (before, before_nb));
                assert(restore_run(cvs, ics, canon_pairs(constraints@, constraints@.len() as int), last, 4 * last.0.len() as int + 16, false, sf));
                assert(constrain_outcome(cr, cvs, ics, gt, constraints@, false, faces@));
            }
            return Err(e);
        },
    }
    let ghost fin = faces@;
    proof {
        let all = canon_pairs(constraints@, constraints@.len() as int);
        let reps = interior_reports(faces@, face_neighbors@, all, 3 * before.len() as int);
        assert forall|k: int| 0 <= k < reps.len() implies #[trigger] report_good(ics, faces@, reps[k]) by {
            assert(delaunay_by(*in_circle, faces@, reps[k].2, reps[k].3));
        }
        assert(tables_locally_delaunay(ics, faces@, face_neighbors@, all));
        let sf = (faces@, face_neighbors@);
        let last = tables[tables.len() - 1];
        assert(last == (before, before_nb));
        assert(restore_run(cvs, ics, all, last, 4 * last.0.len() as int + 16, true, sf));
        assert(sf.0 == faces@ && tables_locally_delaunay(ics, sf.0, sf.1, all));
        assert(constrain_outcome(cr, cvs, ics, gt, constraints@, true, faces@));
    }
    let tri = assemble_triangulation(pts, faces);
    proof {
        use_type_invariant(&tri);
        super::topology::lemma_well_formed_edge_bound(tri.spec_faces(), tri.spec_edges(), tri.spec_edge_faces());
    }
    let c = ConstrainedTriangulation2::new(tri, &pairs);
    proof {
        let edges = tri.spec_edges();
        assert forall|i: int|
            0 <= i < constraints@.len() && (#[trigger] constraints@[i]).0 != constraints@[i].1 implies exists|e: int|
            0 <= e < edges.len() && spec_canon(edges[e].0, edges[e].1) == spec_canon(constraints@[i].0, constraints@[i].1)
                && #[trigger] c.spec_constrained().contains(EdgeId(e as u32)) by {
            let key = pairs@[i];
            assert(spec_edge_exists(before, key.0, key.1));
            assert(spec_edge_exists(fin, key.0, key.1));
            let e = lemma_pair_listed(fin, edges, key);
            lemma_marked(edges, pairs@, e, i);
        }
        assert forall|e: int|
            0 <= e < edges.len() && #[trigger] c.spec_constrained().contains(EdgeId(e as u32)) implies exists|i: int|
            0 <= i < constraints@.len() && spec_canon(edges[e].0, edges[e].1) == spec_canon(
                #[trigger] constraints@[i].0,
                constraints@[i].1,
            ) by {
            lemma_marked_rev(edges, pairs@, e);
            let j = choose|j: int| 0 <= j < pairs@.len() && pairs@[j] == spec_canon(edges[e].0, edges[e].1);
            assert(pairs@[j] == spec_canon(constraints@[j].0, constraints@[j].1));
        }
    }
    Ok(c)
}

/// Every edge marked in `marked` joins the two vertices of some
/// constraint.
pub open spec fn marked_only_constraints<P>(
    t: &Triangulation2<P>,
    marked: Seq<EdgeId>,
    constraints: Seq<(VertexId, VertexId)>,
) -> bool {
    forall|e: int|
        0 <= e < t.spec_edges().len() && #[trigger] marked.contains(EdgeId(e as u32)) ==> exists|i: int|
            0 <= i < constraints.len() && spec_canon(t.spec_edges()[e].0, t.spec_edges()[e].1) == spec_canon(
                #[trigger] constraints[i].0,
                constraints[i].1,
            )
}

/// A marked edge's canonical pair is one of the constrained pairs.
pub proof fn lemma_marked_rev(edges: Seq<(VertexId, VertexId)>, pairs: Seq<(VertexId, VertexId)>, e: int)
    requires
        0 <= e < edges.len(),
        edges.len() <= u32::MAX,
        constrained_ids(edges, pairs).contains(EdgeId(e as u32)),
    ensures
        pairs.contains(spec_canon(edges[e].0, edges[e].1)),
{
    let all = Seq::new(edges.len(), |k: int| EdgeId(k as u32));
    let pred = |id: EdgeId| pairs.contains(spec_canon(edges[id.0 as int].0, edges[id.0 as int].1));
    all.lemma_filter_contains_rev(pred, EdgeId(e as u32));
    assert((e as u32) as int == e);
}

/// `s[j]`, named for the loop above.
spec fn old_pairs_at(s: Seq<(VertexId, VertexId)>, j: int) -> (VertexId, VertexId) {
    s[j]
}

/// Two distinct vertices of one face lie on one of its local edges, so
/// their pair is listed in an edge table covering the faces.
proof fn lemma_pair_listed(faces: Seq<[VertexId; 3]>, edges: Seq<(VertexId, VertexId)>, key: (VertexId, VertexId)) -> (e: int)
    requires
        spec_edge_exists(faces, key.0, key.1),
        key.0 != key.1,
        edges_cover(faces, edges),
    ensures
        0 <= e < edges.len(),
        spec_canon(edges[e].0, edges[e].1) == spec_canon(key.0, key.1),
{
    let w = choose|w: int| 0 <= w < faces.len() && face_has(#[trigger] faces[w], key.0) && face_has(faces[w], key.1);
    let f = faces[w];
    let i1: int = if f[0] == key.0 {
        0
    } else if f[1] == key.0 {
        1
    } else {
        2
    };
    let i2: int = if f[0] == key.1 {
        0
    } else if f[1] == key.1 {
        1
    } else {
        2
    };
    let k = 3 - i1 - i2;
    assert(same_edge(local_edge(f, k), key));
    let x = 3 * w + k;
    assert(x / 3 == w && x % 3 == k);
    assert(incidence_edge(faces, x) == local_edge(f, k));
    assert(is_listed(edges, incidence_edge(faces, x)));
    let e = choose|e: int| 0 <= e < edges.len() && same_edge(#[trigger] edges[e], incidence_edge(faces, x));
    e
}

/// An edge whose canonical pair is constrained is marked.
proof fn lemma_marked(edges: Seq<(VertexId, VertexId)>, pairs: Seq<(VertexId, VertexId)>, e: int, i: int)
    requires
        0 <= e < edges.len(),
        edges.len() <= u32::MAX,
        0 <= i < pairs.len(),
        spec_canon(edges[e].0, edges[e].1) == pairs[i],
    ensures
        constrained_ids(edges, pairs).contains(EdgeId(e as u32)),
{
    let all = Seq::new(edges.len(), |k: int| EdgeId(k as u32));
    let pred = |id: EdgeId| pairs.contains(spec_canon(edges[id.0 as int].0, edges[id.0 as int].1));
    assert(all[e] == EdgeId(e as u32));
    assert(pairs.contains(pairs[i]));
    all.lemma_filter_contains(pred, e);
}

} // verus!
