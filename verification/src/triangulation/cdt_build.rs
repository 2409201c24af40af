use vstd::prelude::*;

use super::cdt::{
    check_constraint_crossings, check_constraint_indices, check_duplicate_constraints, constraint_pair_ok, first_bad_constraint,
    constrained_ids, pairs_before_ok, same_pair, spec_canon, CdtError, ConstrainedTriangulation2,
};
use super::cdt_insert::{
    canon_pairs, constrain_outcome, constrain_triangulation, constraints_realized, lemma_constrain_outcome_within, lemma_marked_rev,
    marked_only_constraints, quad_answers,
};
use super::delaunay::{delaunay2, delaunay_outcome};
use super::topology::Triangulation2;
use crate::hull::{dedup_sorted, lemma_sorted_dedup_unique, sorted_dedup_of};
use crate::ids::{EdgeId, VertexId};
use crate::kinds::SegmentIntersectionKind;
use crate::segments::{kind_of, segment_intersection_kind, spec_classify_segments};
use crate::sign::{opposite_signs, spec_opposite_signs, Orientation, Sign};

verus! {

/// The endpoints of segments `ab` and `cd`, in order.
pub open spec fn endpoints(a: (i64, i64), b: (i64, i64), c: (i64, i64), d: (i64, i64)) -> [(i64, i64); 4] {
    [a, b, c, d]
}

/// The orientation oracle, asked the four orientations that classify
/// segments `ab` and `cd`, answered so that they meet as `k`.
pub open spec fn segment_kind_answer<F: Fn((i64, i64), (i64, i64), (i64, i64)) -> Orientation>(
    orient: F,
    a: (i64, i64),
    b: (i64, i64),
    c: (i64, i64),
    d: (i64, i64),
    k: SegmentIntersectionKind,
) -> bool {
    exists|o: [Orientation; 4]|
        kind_of(#[trigger] spec_classify_segments(endpoints(a, b, c, d), o)) == k && orient.ensures((c, d, a), o[0]) && orient.ensures(
            (c, d, b),
            o[1],
        ) && orient.ensures((a, b, c), o[2]) && orient.ensures((a, b, d), o[3])
}

/// How segments `ab` and `cd` meet, with the orientations asked of
/// `orient`.
pub fn segment_kind<F: Fn((i64, i64), (i64, i64), (i64, i64)) -> Orientation>(
    a: (i64, i64),
    b: (i64, i64),
    c: (i64, i64),
    d: (i64, i64),
    orient: &F,
) -> (k: SegmentIntersectionKind)
    requires
        forall|x: (i64, i64), y: (i64, i64), z: (i64, i64)| orient.requires((x, y, z)),
    ensures
        segment_kind_answer(*orient, a, b, c, d, k),
{
    let o = [orient(c, d, a), orient(c, d, b), orient(a, b, c), orient(a, b, d)];
    let pts = [a, b, c, d];
    let k = segment_intersection_kind(pts, o);
    proof {
        assert(pts =~= endpoints(a, b, c, d));
        assert(kind_of(spec_classify_segments(endpoints(a, b, c, d), o)) == k);
    }
    k
}

/// Some point occurs twice.
pub open spec fn has_duplicate_point(points: Seq<(i64, i64)>) -> bool {
    exists|i: int, j: int| 0 <= i < j < points.len() && #[trigger] points[i] == #[trigger] points[j]
}

fn find_duplicate_point(points: &Vec<(i64, i64)>) -> (r: bool)
    ensures
        r == has_duplicate_point(points@),
{
    let mut j: usize = 0;
    while j < points.len()
        invariant
            j <= points.len(),
            forall|a: int, b: int| 0 <= a < b < j ==> #[trigger] points@[a] != #[trigger] points@[b],
        decreases points.len() - j,
    {
        let mut i: usize = 0;
        while i < j
            invariant
                i <= j < points.len(),
                forall|a: int, b: int| 0 <= a < b < j ==> #[trigger] points@[a] != #[trigger] points@[b],
                forall|a: int| 0 <= a < i ==> #[trigger] points@[a] != points@[j as int],
            decreases j - i,
        {
            if points[i].0 == points[j].0 && points[i].1 == points[j].1 {
                assert(points@[i as int] == points@[j as int]);
                return true;
            }
            i += 1;
        }
        j += 1;
    }
    false
}

/// No constraint from `from` on is out of range or zero-length, when the
/// first bad one from there is past the end.
proof fn lemma_no_bad_constraint(n: int, constraints: Seq<(usize, usize)>, from: int)
    requires
        0 <= from <= constraints.len(),
        first_bad_constraint(n, constraints, from) >= constraints.len(),
    ensures
        first_bad_constraint(n, constraints, from) == constraints.len(),
        forall|k: int|
            from <= k < constraints.len() ==> (#[trigger] constraints[k]).0 < n && constraints[k].1 < n && constraints[k].0
                != constraints[k].1,
    decreases constraints.len() - from,
{
    if from < constraints.len() {
        lemma_no_bad_constraint(n, constraints, from + 1);
    }
}

/// The orientation oracle classified constraints `i` and `j`, as the
/// segments between their points, as meeting as `k`.
pub open spec fn constraint_kind_answer<F: Fn((i64, i64), (i64, i64), (i64, i64)) -> Orientation>(
    orient: F,
    points: Seq<(i64, i64)>,
    constraints: Seq<(usize, usize)>,
    i: int,
    j: int,
    k: SegmentIntersectionKind,
) -> bool {
    segment_kind_answer(
        orient,
        points[constraints[i].0 as int],
        points[constraints[i].1 as int],
        points[constraints[j].0 as int],
        points[constraints[j].1 as int],
        k,
    )
}

/// The orientation oracle classified constraints `i` and `j` as neither
/// crossing properly nor overlapping collinearly.
pub open spec fn constraints_pair_clear<F: Fn((i64, i64), (i64, i64), (i64, i64)) -> Orientation>(
    orient: F,
    points: Seq<(i64, i64)>,
    constraints: Seq<(usize, usize)>,
    i: int,
    j: int,
) -> bool {
    exists|k: SegmentIntersectionKind|
        k != SegmentIntersectionKind::Proper && k != SegmentIntersectionKind::CollinearOverlap
            && #[trigger] constraint_kind_answer(orient, points, constraints, i, j, k)
}

/// Every pair of constraints before `(i, j)` in row-major order is clear.
pub open spec fn clear_before<F: Fn((i64, i64), (i64, i64), (i64, i64)) -> Orientation>(
    orient: F,
    points: Seq<(i64, i64)>,
    constraints: Seq<(usize, usize)>,
    i: int,
    j: int,
) -> bool {
    forall|a: int, b: int|
        0 <= a < b < constraints.len() && (a < i || (a == i && b < j)) ==> #[trigger] constraints_pair_clear(
            orient,
            points,
            constraints,
            a,
            b,
        )
}

/// What checking `constraints` against `points` gives, per
/// [`validate_constraints`].
pub open spec fn validation_outcome<F: Fn((i64, i64), (i64, i64), (i64, i64)) -> Orientation>(
    orient: F,
    points: Seq<(i64, i64)>,
    constraints: Seq<(usize, usize)>,
    r: Result<(), CdtError>,
) -> bool {
    let n = points.len() as int;
    let m = constraints.len();
    let j = first_bad_constraint(n, constraints, 0);
    let no_duplicate_pair = forall|a: int, b: int|
        0 <= a < b < m ==> !same_pair(#[trigger] constraints[a], #[trigger] constraints[b]);
    &&& j < m ==> r == Err::<(), CdtError>(
        if constraints[j].0 >= n || constraints[j].1 >= n {
            CdtError::InvalidVertexIndex
        } else {
            CdtError::ZeroLengthConstraint
        },
    )
    &&& j == m && has_duplicate_point(points) ==> r == Err::<(), CdtError>(CdtError::InvalidVertexIndex)
    &&& j == m && !has_duplicate_point(points) && !no_duplicate_pair ==> r == Err::<(), CdtError>(
        CdtError::DuplicateConstraint,
    )
    &&& j == m && !has_duplicate_point(points) && no_duplicate_pair ==> {
        &&& r is Ok ==> forall|a: int, b: int|
            0 <= a < b < m ==> #[trigger] constraints_pair_clear(orient, points, constraints, a, b)
        &&& r == Err::<(), CdtError>(CdtError::ProperlyCrossingConstraints) ==> exists|a: int, b: int|
            0 <= a < b < m && #[trigger] constraint_kind_answer(
                orient,
                points,
                constraints,
                a,
                b,
                SegmentIntersectionKind::Proper,
            ) && clear_before(orient, points, constraints, a, b)
        &&& r == Err::<(), CdtError>(CdtError::CollinearOverlappingConstraints) ==> exists|a: int, b: int|
            0 <= a < b < m && #[trigger] constraint_kind_answer(
                orient,
                points,
                constraints,
                a,
                b,
                SegmentIntersectionKind::CollinearOverlap,
            ) && clear_before(orient, points, constraints, a, b)
        &&& r is Err ==> r == Err::<(), CdtError>(CdtError::ProperlyCrossingConstraints) || r == Err::<(), CdtError>(
            CdtError::CollinearOverlappingConstraints,
        )
    }
}

/// Checks constraints against `points`, in this order: every constraint
/// names two distinct indices in range (the first one that does not
/// decides between [`CdtError::InvalidVertexIndex`] and
/// [`CdtError::ZeroLengthConstraint`]); no point occurs twice
/// ([`CdtError::InvalidVertexIndex`]); no unordered pair is constrained
/// twice ([`CdtError::DuplicateConstraint`]); no two constraint segments
/// cross properly or overlap collinearly, by the orientations `orient`
/// gives, the first such pair deciding the error.
pub fn validate_constraints<F: Fn((i64, i64), (i64, i64), (i64, i64)) -> Orientation>(
    points: &Vec<(i64, i64)>,
    constraints: &Vec<(usize, usize)>,
    orient: &F,
) -> (r: Result<(), CdtError>)
    requires
        forall|x: (i64, i64), y: (i64, i64), z: (i64, i64)| orient.requires((x, y, z)),
    ensures
        validation_outcome(*orient, points@, constraints@, r),
{
    match check_constraint_indices(points.len(), constraints) {
        Ok(()) => {},
        Err(e) => {
            return Err(e);
        },
    }
    if find_duplicate_point(points) {
        return Err(CdtError::InvalidVertexIndex);
    }
    match check_duplicate_constraints(constraints) {
        Ok(()) => {},
        Err(e) => {
            return Err(e);
        },
    }
    let n = points.len();
    let m = constraints.len();
    proof {
        lemma_no_bad_constraint(n as int, constraints@, 0);
    }
    let kind = |i: usize, j: usize| -> (k: SegmentIntersectionKind)
        requires
            i < m,
            j < m,
            m == constraints@.len(),
            n == points@.len(),
            forall|x: int| 0 <= x < m ==> (#[trigger] constraints@[x]).0 < n && constraints@[x].1 < n,
            forall|x: (i64, i64), y: (i64, i64), z: (i64, i64)| orient.requires((x, y, z)),
        ensures
            constraint_kind_answer(*orient, points@, constraints@, i as int, j as int, k),
        {
            let (a, b) = constraints[i];
            let (c, d) = constraints[j];
            segment_kind(points[a], points[b], points[c], points[d], orient)
        };
    let r = check_constraint_crossings(m, &kind);
    proof {
        if r is Ok {
            assert forall|a: int, b: int| 0 <= a < b < m implies #[trigger] constraints_pair_clear(*orient, points@, constraints@, a, b) by {
                assert(constraint_pair_ok(kind, a, b));
                let k = choose|k: SegmentIntersectionKind|
                    k != SegmentIntersectionKind::Proper && k != SegmentIntersectionKind::CollinearOverlap && #[trigger] kind.ensures(
                        (a as usize, b as usize),
                        k,
                    );
                assert(constraint_kind_answer(*orient, points@, constraints@, a, b, k));
            }
        }
        if r == Err::<(), CdtError>(CdtError::ProperlyCrossingConstraints) {
            let (a, b) = choose|a: int, b: int|
                0 <= a < b < m && #[trigger] kind.ensures((a as usize, b as usize), SegmentIntersectionKind::Proper)
                    && pairs_before_ok(kind, m as int, a, b);
            assert(constraint_kind_answer(*orient, points@, constraints@, a, b, SegmentIntersectionKind::Proper));
            assert forall|x: int, y: int|
                0 <= x < y < m && (x < a || (x == a && y < b)) implies #[trigger] constraints_pair_clear(
                *orient,
                points@,
                constraints@,
                x,
                y,
            ) by {
                assert(constraint_pair_ok(kind, x, y));
                let k = choose|k: SegmentIntersectionKind|
                    k != SegmentIntersectionKind::Proper && k != SegmentIntersectionKind::CollinearOverlap && #[trigger] kind.ensures(
                        (x as usize, y as usize),
                        k,
                    );
                assert(constraint_kind_answer(*orient, points@, constraints@, x, y, k));
            }
        }
        if r == Err::<(), CdtError>(CdtError::CollinearOverlappingConstraints) {
            let (a, b) = choose|a: int, b: int|
                0 <= a < b < m && #[trigger] kind.ensures((a as usize, b as usize), SegmentIntersectionKind::CollinearOverlap)
                    && pairs_before_ok(kind, m as int, a, b);
            assert(constraint_kind_answer(*orient, points@, constraints@, a, b, SegmentIntersectionKind::CollinearOverlap));
            assert forall|x: int, y: int|
                0 <= x < y < m && (x < a || (x == a && y < b)) implies #[trigger] constraints_pair_clear(
                *orient,
                points@,
                constraints@,
                x,
                y,
            ) by {
                assert(constraint_pair_ok(kind, x, y));
                let k = choose|k: SegmentIntersectionKind|
                    k != SegmentIntersectionKind::Proper && k != SegmentIntersectionKind::CollinearOverlap && #[trigger] kind.ensures(
                        (x as usize, y as usize),
                        k,
                    );
                assert(constraint_kind_answer(*orient, points@, constraints@, x, y, k));
            }
        }
    }
    r
}

fn position_of(pts: &Vec<(i64, i64)>, p: (i64, i64)) -> (r: usize)
    requires
        pts@.contains(p),
    ensures
        r < pts.len(),
        pts@[r as int] == p,
{
    let mut i: usize = 0;
    while i < pts.len()
        invariant
            i <= pts.len(),
            pts@.contains(p),
            forall|k: int| 0 <= k < i ==> pts@[k] != p,
        decreases pts.len() - i,
    {
        if pts[i].0 == p.0 && pts[i].1 == p.1 {
            return i;
        }
        i += 1;
    }
    proof {
        let k = choose|k: int| 0 <= k < pts@.len() && pts@[k] == p;
        assert(pts@[k] != p);
    }
    0
}

/// Some edge of `c`'s triangulation, marked constrained, runs between
/// the vertices at `p` and `q`.
pub open spec fn realized_between(c: &ConstrainedTriangulation2<(i64, i64)>, p: (i64, i64), q: (i64, i64)) -> bool {
    let t = c.spec_triangulation();
    exists|e: int|
        0 <= e < t.spec_edges().len() && #[trigger] c.spec_constrained().contains(EdgeId(e as u32)) && {
            let (x, y) = t.spec_edges()[e];
            (t.spec_vertices()[x.0 as int] == p && t.spec_vertices()[y.0 as int] == q) || (t.spec_vertices()[x.0 as int] == q
                && t.spec_vertices()[y.0 as int] == p)
        }
}

/// The crossing answers the constrained build gives over the points `d`:
/// segments `(u, w)` and `(x, y)` cross exactly when the orientation
/// oracle classifies them as crossing properly; no crossing for a vertex
/// out of range.
pub open spec fn crosses_answers<F: Fn((i64, i64), (i64, i64), (i64, i64)) -> Orientation>(
    d: Seq<(i64, i64)>,
    orient: F,
) -> spec_fn(VertexId, VertexId, VertexId, VertexId, bool) -> bool {
    |u: VertexId, w: VertexId, x: VertexId, y: VertexId, r: bool|
        if u.0 < d.len() && w.0 < d.len() && x.0 < d.len() && y.0 < d.len() {
            exists|k: SegmentIntersectionKind|
                #[trigger] segment_kind_answer(orient, d[u.0 as int], d[w.0 as int], d[x.0 as int], d[y.0 as int], k) && r == (k
                    == SegmentIntersectionKind::Proper)
        } else {
            !r
        }
}

/// The convexity answers the constrained build gives over the points
/// `d`: `x` and `y` lie strictly on opposite sides of the line through
/// `p` and `q` by the orientation oracle; `false` for a vertex out of
/// range.
pub open spec fn convex_answers<F: Fn((i64, i64), (i64, i64), (i64, i64)) -> Orientation>(
    d: Seq<(i64, i64)>,
    orient: F,
) -> spec_fn(VertexId, VertexId, VertexId, VertexId, bool) -> bool {
    |p: VertexId, q: VertexId, x: VertexId, y: VertexId, r: bool|
        if p.0 < d.len() && q.0 < d.len() && x.0 < d.len() && y.0 < d.len() {
            exists|ox: Orientation, oy: Orientation|
                #![trigger orient.ensures((d[p.0 as int], d[q.0 as int], d[x.0 as int]), ox), orient.ensures((d[p.0 as int], d[q.0 as int], d[y.0 as int]), oy)]
                orient.ensures((d[p.0 as int], d[q.0 as int], d[x.0 as int]), ox) && orient.ensures(
                    (d[p.0 as int], d[q.0 as int], d[y.0 as int]),
                    oy,
                ) && r == spec_opposite_signs(ox, oy)
        } else {
            !r
        }
}

/// The in-circle answers the constrained build gives over the points
/// `d`: `w` lies strictly inside the circle through `x`, `y`, `z` when
/// the in-circle oracle answers positive; `false` for a vertex out of
/// range.
pub open spec fn incircle_answers<G: Fn((i64, i64), (i64, i64), (i64, i64), (i64, i64)) -> Sign>(
    d: Seq<(i64, i64)>,
    incircle: G,
) -> spec_fn(VertexId, VertexId, VertexId, VertexId, bool) -> bool {
    |x: VertexId, y: VertexId, z: VertexId, w: VertexId, r: bool|
        if x.0 < d.len() && y.0 < d.len() && z.0 < d.len() && w.0 < d.len() {
            exists|sg: Sign|
                #[trigger] incircle.ensures((d[x.0 as int], d[y.0 as int], d[z.0 as int], d[w.0 as int]), sg) && r == (sg
                    == Sign::Positive)
        } else {
            !r
        }
}

/// `pairs` names each constraint by the vertices of `d` at its two
/// points.
pub open spec fn constraint_vertex_pairs(
    d: Seq<(i64, i64)>,
    points: Seq<(i64, i64)>,
    constraints: Seq<(usize, usize)>,
    pairs: Seq<(VertexId, VertexId)>,
) -> bool {
    &&& pairs.len() == constraints.len()
    &&& forall|k: int|
        0 <= k < pairs.len() ==> (#[trigger] pairs[k]).0.0 < d.len() && pairs[k].1.0 < d.len() && d[pairs[k].0.0 as int]
            == points[constraints[k].0 as int] && d[pairs[k].1.0 as int] == points[constraints[k].1 as int]
}

/// Edge `e` of `c`'s triangulation runs between the vertices at `p` and
/// `q`.
pub open spec fn edge_between(c: &ConstrainedTriangulation2<(i64, i64)>, e: int, p: (i64, i64), q: (i64, i64)) -> bool {
    let t = c.spec_triangulation();
    let (x, y) = t.spec_edges()[e];
    (t.spec_vertices()[x.0 as int] == p && t.spec_vertices()[y.0 as int] == q) || (t.spec_vertices()[x.0 as int] == q
        && t.spec_vertices()[y.0 as int] == p)
}

/// Every edge marked constrained in `c` runs between the two points of
/// some constraint.
pub open spec fn marked_from_constraints(
    c: &ConstrainedTriangulation2<(i64, i64)>,
    points: Seq<(i64, i64)>,
    constraints: Seq<(usize, usize)>,
) -> bool {
    forall|e: int|
        0 <= e < c.spec_triangulation().spec_edges().len() && #[trigger] c.spec_constrained().contains(EdgeId(e as u32))
            ==> exists|i: int|
            0 <= i < constraints.len() && edge_between(
                c,
                e,
                points[(#[trigger] constraints[i]).0 as int],
                points[constraints[i].1 as int],
            )
}

/// What [`constrained_delaunay2`] gives for `points` and `constraints`,
/// stated over the answers of `orient` and `incircle`: the validation
/// outcome decides the errors it reports; past it, the Delaunay outcome
/// `t0` decides the degenerate set; a triangle count beyond the `u32`
/// ids fails the insertion; otherwise the result is the constraining run
/// from `t0` with the constraints named by their vertices.
pub open spec fn cdt_outcome<
    F: Fn((i64, i64), (i64, i64), (i64, i64)) -> Orientation,
    G: Fn((i64, i64), (i64, i64), (i64, i64), (i64, i64)) -> Sign,
>(
    points: Seq<(i64, i64)>,
    constraints: Seq<(usize, usize)>,
    orient: F,
    incircle: G,
    r: Result<ConstrainedTriangulation2<(i64, i64)>, CdtError>,
) -> bool {
    exists|v: Result<(), CdtError>|
        #[trigger] validation_outcome(orient, points, constraints, v) && (v matches Err(e) ==> r == Err::<
            ConstrainedTriangulation2<(i64, i64)>,
            CdtError,
        >(e)) && (v is Ok ==> cdt_past_validation(points, constraints, orient, incircle, r))
}

/// What [`constrained_delaunay2`] gives once the constraints passed their
/// checks: a degenerate point set or a failed insertion at most; the
/// degenerate set when there are constraints and fewer than three
/// distinct points; otherwise as [`cdt_from_delaunay`] says for the
/// Delaunay outcome.
pub open spec fn cdt_past_validation<
    F: Fn((i64, i64), (i64, i64), (i64, i64)) -> Orientation,
    G: Fn((i64, i64), (i64, i64), (i64, i64), (i64, i64)) -> Sign,
>(
    points: Seq<(i64, i64)>,
    constraints: Seq<(usize, usize)>,
    orient: F,
    incircle: G,
    r: Result<ConstrainedTriangulation2<(i64, i64)>, CdtError>,
) -> bool {
    &&& r is Ok || r == Err::<ConstrainedTriangulation2<(i64, i64)>, CdtError>(CdtError::DegeneratePointSet) || r == Err::<
        ConstrainedTriangulation2<(i64, i64)>,
        CdtError,
    >(CdtError::ConstraintInsertionFailed)
    &&& constraints.len() > 0 && (exists|d: Seq<(i64, i64)>| sorted_dedup_of(d, points) && d.len() < 3) ==> r == Err::<
        ConstrainedTriangulation2<(i64, i64)>,
        CdtError,
    >(CdtError::DegeneratePointSet)
    &&& exists|t0: Triangulation2<(i64, i64)>|
        #[trigger] delaunay_outcome(points, orient, incircle, t0) && cdt_from_delaunay(points, constraints, orient, incircle, t0, r)
}

/// What [`constrained_delaunay2`] gives from the Delaunay triangulation
/// `t0` of `points` (its tables as assembled, its vertices the sorted
/// distinct points): with no triangle, the degenerate set when
/// constraints were given and `t0` without constraints otherwise; a
/// triangle count beyond the `u32` ids fails the insertion; otherwise
/// the constraining outcome from `t0` with the constraints named by
/// their vertices, the result's tables assembled from the final faces
/// with the constraints marked.
pub open spec fn cdt_from_delaunay<
    F: Fn((i64, i64), (i64, i64), (i64, i64)) -> Orientation,
    G: Fn((i64, i64), (i64, i64), (i64, i64), (i64, i64)) -> Sign,
>(
    points: Seq<(i64, i64)>,
    constraints: Seq<(usize, usize)>,
    orient: F,
    incircle: G,
    t0: Triangulation2<(i64, i64)>,
    r: Result<ConstrainedTriangulation2<(i64, i64)>, CdtError>,
) -> bool {
    &&& t0.well_formed()
    &&& t0.spec_vertices().len() == 0 || sorted_dedup_of(t0.spec_vertices(), points)
    &&& t0.spec_faces().len() == 0 && constraints.len() > 0 <==> r == Err::<ConstrainedTriangulation2<(i64, i64)>, CdtError>(
        CdtError::DegeneratePointSet,
    )
    &&& t0.spec_faces().len() == 0 && constraints.len() == 0 ==> (r matches Ok(c) && *c.spec_triangulation() == t0
        && c.spec_constrained() == constrained_ids(t0.spec_edges(), Seq::<(VertexId, VertexId)>::empty()))
    &&& r matches Ok(c) ==> c.spec_triangulation().spec_vertices() == t0.spec_vertices()
        && c.spec_triangulation().spec_faces().len() == t0.spec_faces().len()
    &&& t0.spec_faces().len() > 1073741819 ==> r == Err::<ConstrainedTriangulation2<(i64, i64)>, CdtError>(
        CdtError::ConstraintInsertionFailed,
    )
    &&& 0 < t0.spec_faces().len() <= 1073741819 ==> exists|pairs: Seq<(VertexId, VertexId)>, ff: Seq<[VertexId; 3]>|
        #![trigger constraint_vertex_pairs(t0.spec_vertices(), points, constraints, pairs), constrain_outcome(crosses_answers(t0.spec_vertices(), orient), convex_answers(t0.spec_vertices(), orient), incircle_answers(t0.spec_vertices(), incircle), t0, pairs, r is Ok, ff)]
        constraint_vertex_pairs(t0.spec_vertices(), points, constraints, pairs) && cdt_constrained_part(
            orient,
            incircle,
            t0,
            pairs,
            ff,
            r,
        )
}

/// The constraining outcome from `t0` with the constraint pairs `pairs`,
/// by the answers the constrained build gives, decides success, and on
/// success the result has the final faces `ff`, its tables as
/// assembled, and exactly the constraint edges marked.
pub open spec fn cdt_constrained_part<
    F: Fn((i64, i64), (i64, i64), (i64, i64)) -> Orientation,
    G: Fn((i64, i64), (i64, i64), (i64, i64), (i64, i64)) -> Sign,
>(
    orient: F,
    incircle: G,
    t0: Triangulation2<(i64, i64)>,
    pairs: Seq<(VertexId, VertexId)>,
    ff: Seq<[VertexId; 3]>,
    r: Result<ConstrainedTriangulation2<(i64, i64)>, CdtError>,
) -> bool {
    &&& constrain_outcome(
        crosses_answers(t0.spec_vertices(), orient),
        convex_answers(t0.spec_vertices(), orient),
        incircle_answers(t0.spec_vertices(), incircle),
        t0,
        pairs,
        r is Ok,
        ff,
    )
    &&& r matches Ok(c) ==> c.spec_triangulation().spec_faces() == ff && c.spec_triangulation().well_formed()
        && c.spec_constrained() == constrained_ids(c.spec_triangulation().spec_edges(), canon_pairs(pairs, pairs.len() as int))
}

/// The constrained Delaunay triangulation of `points` with the segments
/// `constraints` (pairs of indices into `points`) as edges. The
/// constraints are checked first ([`validate_constraints`]); then the
/// Delaunay triangulation of the points is built ([`delaunay2`]); when it
/// has no triangle, the result is that empty triangulation without
/// constraints, or [`CdtError::DegeneratePointSet`] when constraints were
/// given; otherwise each constraint is realized in order and local
/// Delaunay-ness is restored on the other edges
/// ([`constrain_triangulation`], whose failure is
/// [`CdtError::ConstraintInsertionFailed`]). `orient` and `incircle` are
/// the geometric predicates of [`delaunay2`]. On success every constraint
/// is an edge of the result between its two points, marked constrained.
pub fn constrained_delaunay2<
    F: Fn((i64, i64), (i64, i64), (i64, i64)) -> Orientation,
    G: Fn((i64, i64), (i64, i64), (i64, i64), (i64, i64)) -> Sign,
>(points: &Vec<(i64, i64)>, constraints: &Vec<(usize, usize)>, orient: &F, incircle: &G) -> (r: Result<
    ConstrainedTriangulation2<(i64, i64)>,
    CdtError,
>)
    requires
        points.len() <= u32::MAX,
        forall|a: (i64, i64), b: (i64, i64), c: (i64, i64)| orient.requires((a, b, c)),
        forall|a: (i64, i64), b: (i64, i64), c: (i64, i64), d: (i64, i64)| incircle.requires((a, b, c, d)),
    ensures
        cdt_outcome(points@, constraints@, *orient, *incircle, r),
        r == Err::<ConstrainedTriangulation2<(i64, i64)>, CdtError>(CdtError::DegeneratePointSet) ==> constraints.len() > 0,
        r matches Ok(c) ==> c.spec_triangulation().spec_vertices().len() == 0 || sorted_dedup_of(
            c.spec_triangulation().spec_vertices(),
            points@,
        ),
        r matches Ok(c) ==> marked_from_constraints(&c, points@, constraints@),
        r matches Ok(c) ==> forall|i: int|
            0 <= i < constraints.len() ==> #[trigger] realized_between(
                &c,
                points@[constraints@[i].0 as int],
                points@[constraints@[i].1 as int],
            ),
{
    let v = validate_constraints(points, constraints, orient);
    match v {
        Ok(()) => {},
        Err(e) => {
            return Err(e);
        },
    }
    proof {
        lemma_no_bad_constraint(points.len() as int, constraints@, 0);
        assert(!has_duplicate_point(points@));
    }
    let t = delaunay2(points, orient, incircle);
    proof {
        use_type_invariant(&t);
    }
    let ghost t0 = t;
    if t.is_empty() {
        if constraints.len() == 0 {
            let none: Vec<(VertexId, VertexId)> = Vec::new();
            proof {
                use_type_invariant(&t);
                super::topology::lemma_well_formed_edge_bound(t.spec_faces(), t.spec_edges(), t.spec_edge_faces());
            }
            let ghost gt = t;
            let c = ConstrainedTriangulation2::new(t, &none);
            proof {
                assert(none@ =~= Seq::<(VertexId, VertexId)>::empty());
            }
            proof {
                assert forall|e: int|
                    0 <= e < c.spec_triangulation().spec_edges().len() && #[trigger] c.spec_constrained().contains(
                        EdgeId(e as u32),
                    ) implies false by {
                    lemma_marked_rev(gt.spec_edges(), none@, e);
                }
            }
            return Ok(c);
        }
        return Err(CdtError::DegeneratePointSet);
    }
    let pts = dedup_sorted(points);
    proof {
        lemma_sorted_dedup_unique(t.spec_vertices(), pts@, points@);
    }
    let mut ids: Vec<VertexId> = Vec::new();
    let mut a: usize = 0;
    while a < points.len()
        invariant
            a <= points.len(),
            points.len() <= u32::MAX,
            pts.len() <= points.len(),
            sorted_dedup_of(pts@, points@),
            ids.len() == a,
            forall|k: int| 0 <= k < a ==> (#[trigger] ids@[k]).0 < pts.len() && pts@[ids@[k].0 as int] == points@[k],
        decreases points.len() - a,
    {
        assert(points@.contains(points@[a as int]));
        let idx = position_of(&pts, points[a]);
        ids.push(VertexId(idx as u32));
        a += 1;
    }
    let mut pairs: Vec<(VertexId, VertexId)> = Vec::new();
    let mut i: usize = 0;
    while i < constraints.len()
        invariant
            i <= constraints.len(),
            ids.len() == points.len(),
            forall|k: int|
                0 <= k < constraints.len() ==> (#[trigger] constraints@[k]).0 < points.len() && constraints@[k].1 < points.len(),
            pairs.len() == i,
            forall|k: int| 0 <= k < i ==> #[trigger] pairs@[k] == (ids@[constraints@[k].0 as int], ids@[constraints@[k].1 as int]),
        decreases constraints.len() - i,
    {
        let (p, q) = constraints[i];
        pairs.push((ids[p], ids[q]));
        i += 1;
    }
    if t.len() > 1073741819 {
        return Err(CdtError::ConstraintInsertionFailed);
    }
    let nv = pts.len();
    let seg_crosses = |u: VertexId, w: VertexId, x: VertexId, y: VertexId| -> (r: bool)
        requires
            forall|a: (i64, i64), b: (i64, i64), c: (i64, i64)| orient.requires((a, b, c)),
        ensures
            crosses_answers(pts@, *orient)(u, w, x, y, r),
        {
            if (u.0 as usize) < nv && (w.0 as usize) < nv && (x.0 as usize) < nv && (y.0 as usize) < nv {
                segment_kind(pts[u.0 as usize], pts[w.0 as usize], pts[x.0 as usize], pts[y.0 as usize], orient)
                    == SegmentIntersectionKind::Proper
            } else {
                false
            }
        };
    let convex = |p: VertexId, q: VertexId, x: VertexId, y: VertexId| -> (r: bool)
        requires
            forall|a: (i64, i64), b: (i64, i64), c: (i64, i64)| orient.requires((a, b, c)),
        ensures
            convex_answers(pts@, *orient)(p, q, x, y, r),
        {
            if (p.0 as usize) < nv && (q.0 as usize) < nv && (x.0 as usize) < nv && (y.0 as usize) < nv {
                let ox = orient(pts[p.0 as usize], pts[q.0 as usize], pts[x.0 as usize]);
                let oy = orient(pts[p.0 as usize], pts[q.0 as usize], pts[y.0 as usize]);
                opposite_signs(ox, oy)
            } else {
                false
            }
        };
    let in_circle = |x: VertexId, y: VertexId, z: VertexId, w: VertexId| -> (r: bool)
        requires
            forall|a: (i64, i64), b: (i64, i64), c: (i64, i64), d: (i64, i64)| incircle.requires((a, b, c, d)),
        ensures
            incircle_answers(pts@, *incircle)(x, y, z, w, r),
        {
            if (x.0 as usize) < nv && (y.0 as usize) < nv && (z.0 as usize) < nv && (w.0 as usize) < nv {
                incircle(pts[x.0 as usize], pts[y.0 as usize], pts[z.0 as usize], pts[w.0 as usize]) == Sign::Positive
            } else {
                false
            }
        };
    let ghost tv = t.spec_vertices();
    proof {
        assert(tv == pts@);
        assert(constraint_vertex_pairs(tv, points@, constraints@, pairs@));
        assert forall|a: VertexId, b: VertexId, c: VertexId, d: VertexId, r: bool|
            #[trigger] quad_answers(seg_crosses)(a, b, c, d, r) implies crosses_answers(tv, *orient)(a, b, c, d, r) by {
            assert(seg_crosses.ensures((a, b, c, d), r));
        }
        assert forall|a: VertexId, b: VertexId, c: VertexId, d: VertexId, r: bool|
            #[trigger] quad_answers(convex)(a, b, c, d, r) implies convex_answers(tv, *orient)(a, b, c, d, r) by {
            assert(convex.ensures((a, b, c, d), r));
        }
        assert forall|a: VertexId, b: VertexId, c: VertexId, d: VertexId, r: bool|
            #[trigger] quad_answers(in_circle)(a, b, c, d, r) implies incircle_answers(tv, *incircle)(a, b, c, d, r) by {
            assert(in_circle.ensures((a, b, c, d), r));
        }
    }
    let result = constrain_triangulation(t, &pairs, &seg_crosses, &convex, &in_circle);
    proof {
        let ff = choose|ff: Seq<[VertexId; 3]>|
            #[trigger] constrain_outcome(
                quad_answers(seg_crosses),
                quad_answers(convex),
                quad_answers(in_circle),
                t0,
                pairs@,
                result is Ok,
                ff,
            ) && (result matches Ok(c) ==> c.spec_triangulation().spec_faces() == ff);
        lemma_constrain_outcome_within(
            quad_answers(seg_crosses),
            quad_answers(convex),
            quad_answers(in_circle),
            crosses_answers(tv, *orient),
            convex_answers(tv, *orient),
            incircle_answers(tv, *incircle),
            t0,
            pairs@,
            result is Ok,
            ff,
        );
    }
    match result {
        Ok(c) => {
            proof {
                assert forall|i: int| 0 <= i < constraints.len() implies #[trigger] realized_between(
                    &c,
                    points@[constraints@[i].0 as int],
                    points@[constraints@[i].1 as int],
                ) by {
                    let (p, q) = constraints@[i];
                    let (u, w) = pairs@[i];
                    assert(u == ids@[p as int] && w == ids@[q as int]);
                    assert(p != q);
                    assert(points@[p as int] != points@[q as int]) by {
                        if p < q {
                            assert(!(0 <= p < q < points@.len() && points@[p as int] == points@[q as int]));
                        } else {
                            assert(!(0 <= q < p < points@.len() && points@[q as int] == points@[p as int]));
                        }
                    }
                    assert(u != w);
                    assert(constraints_realized(c.spec_triangulation(), c.spec_constrained(), pairs@));
                    assert(pairs@[i].0 != pairs@[i].1);
                    let e = choose|e: int|
                        0 <= e < c.spec_triangulation().spec_edges().len() && spec_canon(
                            c.spec_triangulation().spec_edges()[e].0,
                            c.spec_triangulation().spec_edges()[e].1,
                        ) == spec_canon(pairs@[i].0, pairs@[i].1) && #[trigger] c.spec_constrained().contains(EdgeId(e as u32));
                    let (x, y) = c.spec_triangulation().spec_edges()[e];
                    assert((x == u && y == w) || (x == w && y == u));
                }
                let ct = c.spec_triangulation();
                assert forall|e: int|
                    0 <= e < ct.spec_edges().len() && #[trigger] c.spec_constrained().contains(EdgeId(e as u32)) implies exists|i: int|
                    0 <= i < constraints@.len() && edge_between(
                        &c,
                        e,
                        points@[(#[trigger] constraints@[i]).0 as int],
                        points@[constraints@[i].1 as int],
                    ) by {
                    assert(marked_only_constraints(ct, c.spec_constrained(), pairs@));
                    let i = choose|i: int|
                        0 <= i < pairs@.len() && spec_canon(ct.spec_edges()[e].0, ct.spec_edges()[e].1) == spec_canon(
                            #[trigger] pairs@[i].0,
                            pairs@[i].1,
                        );
                    let (p, q) = constraints@[i];
                    assert(pairs@[i] == (ids@[p as int], ids@[q as int]));
                    assert(edge_between(&c, e, points@[p as int], points@[q as int]));
                }
            }
            Ok(c)
        },
        Err(e) => Err(e),
    }
}

} // verus!
