use vstd::prelude::*;

use crate::geometry::{classify_crossing, touches, SegmentCrossing};
use crate::kinds::{
    relation_from_edge_orientations, spec_relation_from_edge_orientations, PointSegmentRelation, PointTriangleRelation,
    SegmentIntersectionKind,
};
use crate::sign::{spec_opposite_signs, Orientation};

verus! {

// Points here are given by order keys of their coordinates, `(x, y)`:
// two keys compare as the coordinates they stand for do, and are equal
// exactly when the coordinates are.

/// The smaller of two keys.
pub open spec fn key_min(u: i64, v: i64) -> i64 {
    if u <= v {
        u
    } else {
        v
    }
}

/// The larger of two keys.
pub open spec fn key_max(u: i64, v: i64) -> i64 {
    if u <= v {
        v
    } else {
        u
    }
}

/// `lo <= v <= hi` for the smaller `lo` and larger `hi` of `u` and `w`.
pub open spec fn key_between(u: i64, v: i64, w: i64) -> bool {
    key_min(u, w) <= v <= key_max(u, w)
}

fn same_point(p: (i64, i64), q: (i64, i64)) -> (r: bool)
    ensures
        r == (p == q),
{
    p.0 == q.0 && p.1 == q.1
}

fn between(u: i64, v: i64, w: i64) -> (r: bool)
    ensures
        r == key_between(u, v, w),
{
    if u <= w {
        u <= v && v <= w
    } else {
        w <= v && v <= u
    }
}

/// The bounding boxes of segments `ab` and `cd` share a point, their
/// boundaries included.
pub open spec fn spec_boxes_overlap(a: (i64, i64), b: (i64, i64), c: (i64, i64), d: (i64, i64)) -> bool {
    &&& key_min(a.0, b.0) <= key_max(c.0, d.0)
    &&& key_min(c.0, d.0) <= key_max(a.0, b.0)
    &&& key_min(a.1, b.1) <= key_max(c.1, d.1)
    &&& key_min(c.1, d.1) <= key_max(a.1, b.1)
}

/// Whether the bounding boxes of segments `ab` and `cd` share a point,
/// touching at an edge or a corner included.
pub fn boxes_overlap(a: (i64, i64), b: (i64, i64), c: (i64, i64), d: (i64, i64)) -> (r: bool)
    ensures
        r == spec_boxes_overlap(a, b, c, d),
{
    let (lo_ab_x, hi_ab_x) = if a.0 <= b.0 {
        (a.0, b.0)
    } else {
        (b.0, a.0)
    };
    let (lo_ab_y, hi_ab_y) = if a.1 <= b.1 {
        (a.1, b.1)
    } else {
        (b.1, a.1)
    };
    let (lo_cd_x, hi_cd_x) = if c.0 <= d.0 {
        (c.0, d.0)
    } else {
        (d.0, c.0)
    };
    let (lo_cd_y, hi_cd_y) = if c.1 <= d.1 {
        (c.1, d.1)
    } else {
        (d.1, c.1)
    };
    lo_ab_x <= hi_cd_x && lo_cd_x <= hi_ab_x && lo_ab_y <= hi_cd_y && lo_cd_y <= hi_ab_y
}

/// Where `p` lies relative to segment `ab`, given `o = orient(a, b, p)`:
/// for a zero-length segment, an endpoint when `p` is that point and off
/// it otherwise; else off it when not on its line; an endpoint when it is
/// `a` or `b`; inside it when between them along the axis on which `a`
/// and `b` differ (x when they do, y otherwise); off it otherwise.
pub open spec fn spec_point_segment_relation(a: (i64, i64), b: (i64, i64), p: (i64, i64), o: Orientation) -> PointSegmentRelation {
    if a == b {
        if p == a {
            PointSegmentRelation::Endpoint
        } else {
            PointSegmentRelation::NotOnSegment
        }
    } else if o != Orientation::Collinear {
        PointSegmentRelation::NotOnSegment
    } else if p == a || p == b {
        PointSegmentRelation::Endpoint
    } else if (if a.0 != b.0 {
        key_between(a.0, p.0, b.0)
    } else {
        key_between(a.1, p.1, b.1)
    }) {
        PointSegmentRelation::Interior
    } else {
        PointSegmentRelation::NotOnSegment
    }
}

/// Classifies `p` against segment `ab` from `o = orient(a, b, p)`; see
/// [`spec_point_segment_relation`].
pub fn point_segment_relation(a: (i64, i64), b: (i64, i64), p: (i64, i64), o: Orientation) -> (r: PointSegmentRelation)
    ensures
        r == spec_point_segment_relation(a, b, p, o),
{
    if same_point(a, b) {
        return if same_point(p, a) {
            PointSegmentRelation::Endpoint
        } else {
            PointSegmentRelation::NotOnSegment
        };
    }
    if o != Orientation::Collinear {
        return PointSegmentRelation::NotOnSegment;
    }
    if same_point(p, a) || same_point(p, b) {
        return PointSegmentRelation::Endpoint;
    }
    let within = if a.0 != b.0 {
        between(a.0, p.0, b.0)
    } else {
        between(a.1, p.1, b.1)
    };
    if within {
        PointSegmentRelation::Interior
    } else {
        PointSegmentRelation::NotOnSegment
    }
}

/// Where `p` lies relative to triangle `abc`, from `abc`, the triangle's
/// orientation, and `o = [orient(a, b, p), orient(b, c, p), orient(c, a,
/// p)]`: a degenerate triangle has no interior, so `p` is on its boundary
/// when it is on one of the segments `ab`, `bc`, `ca`, and outside
/// otherwise; any other triangle goes by the three edge orientations.
pub open spec fn spec_point_triangle_relation(
    a: (i64, i64),
    b: (i64, i64),
    c: (i64, i64),
    p: (i64, i64),
    abc: Orientation,
    o: [Orientation; 3],
) -> PointTriangleRelation {
    if abc == Orientation::Collinear {
        if spec_point_segment_relation(a, b, p, o[0]) != PointSegmentRelation::NotOnSegment || spec_point_segment_relation(
            b,
            c,
            p,
            o[1],
        ) != PointSegmentRelation::NotOnSegment || spec_point_segment_relation(c, a, p, o[2])
            != PointSegmentRelation::NotOnSegment {
            PointTriangleRelation::OnBoundary
        } else {
            PointTriangleRelation::Outside
        }
    } else {
        spec_relation_from_edge_orientations(o)
    }
}

/// Classifies `p` against triangle `abc` of either winding; see
/// [`spec_point_triangle_relation`].
pub fn point_triangle_relation(
    a: (i64, i64),
    b: (i64, i64),
    c: (i64, i64),
    p: (i64, i64),
    abc: Orientation,
    o: [Orientation; 3],
) -> (r: PointTriangleRelation)
    ensures
        r == spec_point_triangle_relation(a, b, c, p, abc, o),
{
    if abc == Orientation::Collinear {
        let on_any_edge = point_segment_relation(a, b, p, o[0]) != PointSegmentRelation::NotOnSegment || point_segment_relation(
            b,
            c,
            p,
            o[1],
        ) != PointSegmentRelation::NotOnSegment || point_segment_relation(c, a, p, o[2]) != PointSegmentRelation::NotOnSegment;
        return if on_any_edge {
            PointTriangleRelation::OnBoundary
        } else {
            PointTriangleRelation::Outside
        };
    }
    relation_from_edge_orientations(o)
}

/// How two segments `ab` and `cd` meet, with the points that show it
/// given by their index among the endpoints `a, b, c, d` (0 to 3).
#[derive(Debug, Clone, Copy, PartialEq, Eq, Structural)]
pub enum SegmentClassification {
    /// They share no point.
    Disjoint,
    /// They cross at a single point interior to both.
    Proper,
    /// They meet at this endpoint only, and are not collinear.
    EndpointTouch(usize),
    /// Collinear, sharing exactly this endpoint.
    CollinearTouch(usize),
    /// Collinear, sharing the stretch between these two endpoints.
    CollinearOverlap(usize, usize),
}

/// The key of endpoint `k` on the x axis when `use_x`, else on the y axis.
pub open spec fn axis_key(pts: [(i64, i64); 4], use_x: bool, k: int) -> i64 {
    if use_x {
        pts[k].0
    } else {
        pts[k].1
    }
}

/// Of endpoints `i` and `j`, the one lower on the axis (`i` on a tie).
pub open spec fn lower_end(pts: [(i64, i64); 4], use_x: bool, i: int, j: int) -> int {
    if axis_key(pts, use_x, i) <= axis_key(pts, use_x, j) {
        i
    } else {
        j
    }
}

/// Of endpoints `i` and `j`, the one higher on the axis (`j` on a tie).
pub open spec fn upper_end(pts: [(i64, i64); 4], use_x: bool, i: int, j: int) -> int {
    if axis_key(pts, use_x, i) <= axis_key(pts, use_x, j) {
        j
    } else {
        i
    }
}

/// Collinear segments are compared along x when `a` and `b` differ in x,
/// along y otherwise.
pub open spec fn overlap_axis(pts: [(i64, i64); 4]) -> bool {
    pts[0].0 != pts[1].0
}

/// The endpoint where the two ranges' common part starts: the higher of
/// the two lower ends (the one of `ab` on a tie).
pub open spec fn overlap_low(pts: [(i64, i64); 4]) -> int {
    let use_x = overlap_axis(pts);
    let l1 = lower_end(pts, use_x, 0, 1);
    let l2 = lower_end(pts, use_x, 2, 3);
    if axis_key(pts, use_x, l1) >= axis_key(pts, use_x, l2) {
        l1
    } else {
        l2
    }
}

/// The endpoint where the two ranges' common part ends: the lower of the
/// two upper ends (the one of `ab` on a tie).
pub open spec fn overlap_high(pts: [(i64, i64); 4]) -> int {
    let use_x = overlap_axis(pts);
    let u1 = upper_end(pts, use_x, 0, 1);
    let u2 = upper_end(pts, use_x, 2, 3);
    if axis_key(pts, use_x, u1) <= axis_key(pts, use_x, u2) {
        u1
    } else {
        u2
    }
}

/// How collinear segments `ab` and `cd` meet, `ab` of positive length:
/// their ranges on the axis along which `ab` varies have no common
/// point, one, or a stretch.
pub open spec fn spec_collinear_overlap(pts: [(i64, i64); 4]) -> SegmentClassification {
    let use_x = overlap_axis(pts);
    let lo = overlap_low(pts);
    let hi = overlap_high(pts);
    if axis_key(pts, use_x, lo) > axis_key(pts, use_x, hi) {
        SegmentClassification::Disjoint
    } else if axis_key(pts, use_x, lo) == axis_key(pts, use_x, hi) {
        SegmentClassification::CollinearTouch(lo as usize)
    } else {
        SegmentClassification::CollinearOverlap(lo as usize, hi as usize)
    }
}

/// Classifies collinear segments `ab` and `cd` (`ab` of positive length)
/// by intersecting their ranges on one axis: the common range runs from
/// the larger of the two minima to the smaller of the two maxima.
pub fn collinear_overlap(pts: [(i64, i64); 4]) -> (r: SegmentClassification)
    ensures
        r == spec_collinear_overlap(pts),
        axis_key(pts, overlap_axis(pts), overlap_low(pts)) == key_max(
            key_min(axis_key(pts, overlap_axis(pts), 0), axis_key(pts, overlap_axis(pts), 1)),
            key_min(axis_key(pts, overlap_axis(pts), 2), axis_key(pts, overlap_axis(pts), 3)),
        ),
        axis_key(pts, overlap_axis(pts), overlap_high(pts)) == key_min(
            key_max(axis_key(pts, overlap_axis(pts), 0), axis_key(pts, overlap_axis(pts), 1)),
            key_max(axis_key(pts, overlap_axis(pts), 2), axis_key(pts, overlap_axis(pts), 3)),
        ),
{
    let use_x = pts[0].0 != pts[1].0;
    let k0 = if use_x { pts[0].0 } else { pts[0].1 };
    let k1 = if use_x { pts[1].0 } else { pts[1].1 };
    let k2 = if use_x { pts[2].0 } else { pts[2].1 };
    let k3 = if use_x { pts[3].0 } else { pts[3].1 };
    let (lo1, lo1_key, hi1, hi1_key) = if k0 <= k1 {
        (0usize, k0, 1usize, k1)
    } else {
        (1usize, k1, 0usize, k0)
    };
    let (lo2, lo2_key, hi2, hi2_key) = if k2 <= k3 {
        (2usize, k2, 3usize, k3)
    } else {
        (3usize, k3, 2usize, k2)
    };
    let (lo, lo_key) = if lo1_key >= lo2_key {
        (lo1, lo1_key)
    } else {
        (lo2, lo2_key)
    };
    let (hi, hi_key) = if hi1_key <= hi2_key {
        (hi1, hi1_key)
    } else {
        (hi2, hi2_key)
    };
    if lo_key > hi_key {
        SegmentClassification::Disjoint
    } else if lo_key == hi_key {
        SegmentClassification::CollinearTouch(lo)
    } else {
        SegmentClassification::CollinearOverlap(lo, hi)
    }
}

/// Endpoint `k` lies on the other segment: `a`, `b` on `cd`, `c`, `d` on
/// `ab`, judged with its orientation `d[k]` against that segment.
pub open spec fn on_other(pts: [(i64, i64); 4], d: [Orientation; 4], k: int) -> bool {
    if k < 2 {
        spec_point_segment_relation(pts[2], pts[3], pts[k], d[k]) != PointSegmentRelation::NotOnSegment
    } else {
        spec_point_segment_relation(pts[0], pts[1], pts[k], d[k]) != PointSegmentRelation::NotOnSegment
    }
}

/// How segments `ab` and `cd` (`pts = [a, b, c, d]`) meet, from `d =
/// [orient(c, d, a), orient(c, d, b), orient(a, b, c), orient(a, b, d)]`:
/// disjoint when their bounding boxes are; two zero-length segments touch
/// when they are the same point; a zero-length one touches the other when
/// it lies on it; collinear segments by their ranges; a proper crossing
/// when each straddles the other's line; otherwise a touch at the first
/// endpoint (in the order `a, b, c, d`) on the other's line and segment;
/// otherwise disjoint.
pub open spec fn spec_classify_segments(pts: [(i64, i64); 4], d: [Orientation; 4]) -> SegmentClassification {
    if !spec_boxes_overlap(pts[0], pts[1], pts[2], pts[3]) {
        SegmentClassification::Disjoint
    } else if pts[0] == pts[1] && pts[2] == pts[3] {
        if pts[0] == pts[2] {
            SegmentClassification::EndpointTouch(0)
        } else {
            SegmentClassification::Disjoint
        }
    } else if pts[0] == pts[1] {
        if on_other(pts, d, 0) {
            SegmentClassification::EndpointTouch(0)
        } else {
            SegmentClassification::Disjoint
        }
    } else if pts[2] == pts[3] {
        if on_other(pts, d, 2) {
            SegmentClassification::EndpointTouch(2)
        } else {
            SegmentClassification::Disjoint
        }
    } else if d[0] == Orientation::Collinear && d[1] == Orientation::Collinear {
        spec_collinear_overlap(pts)
    } else if spec_opposite_signs(d[0], d[1]) && spec_opposite_signs(d[2], d[3]) {
        SegmentClassification::Proper
    } else if d[0] == Orientation::Collinear && on_other(pts, d, 0) {
        SegmentClassification::EndpointTouch(0)
    } else if d[1] == Orientation::Collinear && on_other(pts, d, 1) {
        SegmentClassification::EndpointTouch(1)
    } else if d[2] == Orientation::Collinear && on_other(pts, d, 2) {
        SegmentClassification::EndpointTouch(2)
    } else if d[3] == Orientation::Collinear && on_other(pts, d, 3) {
        SegmentClassification::EndpointTouch(3)
    } else {
        SegmentClassification::Disjoint
    }
}

/// Classifies how segments `ab` and `cd` meet; see
/// [`spec_classify_segments`].
pub fn classify_segments(pts: [(i64, i64); 4], d: [Orientation; 4]) -> (r: SegmentClassification)
    ensures
        r == spec_classify_segments(pts, d),
{
    if !boxes_overlap(pts[0], pts[1], pts[2], pts[3]) {
        return SegmentClassification::Disjoint;
    }
    let ab_point = same_point(pts[0], pts[1]);
    let cd_point = same_point(pts[2], pts[3]);
    if ab_point && cd_point {
        return if same_point(pts[0], pts[2]) {
            SegmentClassification::EndpointTouch(0)
        } else {
            SegmentClassification::Disjoint
        };
    }
    let on = [
        point_segment_relation(pts[2], pts[3], pts[0], d[0]) != PointSegmentRelation::NotOnSegment,
        point_segment_relation(pts[2], pts[3], pts[1], d[1]) != PointSegmentRelation::NotOnSegment,
        point_segment_relation(pts[0], pts[1], pts[2], d[2]) != PointSegmentRelation::NotOnSegment,
        point_segment_relation(pts[0], pts[1], pts[3], d[3]) != PointSegmentRelation::NotOnSegment,
    ];
    proof {
        assert(forall|k: int| 0 <= k < 4 ==> on[k] == on_other(pts, d, k));
    }
    if ab_point {
        return if on[0] {
            SegmentClassification::EndpointTouch(0)
        } else {
            SegmentClassification::Disjoint
        };
    }
    if cd_point {
        return if on[2] {
            SegmentClassification::EndpointTouch(2)
        } else {
            SegmentClassification::Disjoint
        };
    }
    match classify_crossing(d, on) {
        SegmentCrossing::Collinear => collinear_overlap(pts),
        SegmentCrossing::Proper => SegmentClassification::Proper,
        SegmentCrossing::EndpointTouch(k) => {
            proof {
                assert(touches(d, on, k as int));
                assert(forall|j: int| 0 <= j < k ==> !#[trigger] touches(d, on, j));
                if k >= 1 {
                    assert(!touches(d, on, 0));
                }
                if k >= 2 {
                    assert(!touches(d, on, 1));
                }
                if k >= 3 {
                    assert(!touches(d, on, 2));
                }
            }
            SegmentClassification::EndpointTouch(k)
        },
        SegmentCrossing::Disjoint => {
            proof {
                assert(!touches(d, on, 0) && !touches(d, on, 1) && !touches(d, on, 2) && !touches(d, on, 3));
            }
            SegmentClassification::Disjoint
        },
    }
}

/// The kind of meeting a classification names.
pub open spec fn kind_of(c: SegmentClassification) -> SegmentIntersectionKind {
    match c {
        SegmentClassification::Disjoint => SegmentIntersectionKind::Disjoint,
        SegmentClassification::Proper => SegmentIntersectionKind::Proper,
        SegmentClassification::EndpointTouch(_) => SegmentIntersectionKind::EndpointTouch,
        SegmentClassification::CollinearTouch(_) => SegmentIntersectionKind::CollinearTouch,
        SegmentClassification::CollinearOverlap(_, _) => SegmentIntersectionKind::CollinearOverlap,
    }
}

/// The kind of intersection of segments `ab` and `cd`, from the same
/// inputs as [`classify_segments`].
pub fn segment_intersection_kind(pts: [(i64, i64); 4], d: [Orientation; 4]) -> (r: SegmentIntersectionKind)
    ensures
        r == kind_of(spec_classify_segments(pts, d)),
{
    match classify_segments(pts, d) {
        SegmentClassification::Disjoint => SegmentIntersectionKind::Disjoint,
        SegmentClassification::Proper => SegmentIntersectionKind::Proper,
        SegmentClassification::EndpointTouch(_) => SegmentIntersectionKind::EndpointTouch,
        SegmentClassification::CollinearTouch(_) => SegmentIntersectionKind::CollinearTouch,
        SegmentClassification::CollinearOverlap(_, _) => SegmentIntersectionKind::CollinearOverlap,
    }
}

/// Point `p` lies in the bounding box of segment `ab`.
pub open spec fn in_box(a: (i64, i64), b: (i64, i64), p: (i64, i64)) -> bool {
    key_between(a.0, p.0, b.0) && key_between(a.1, p.1, b.1)
}

/// The four points lie on one line as their coordinates show it: all on
/// one vertical line, or no two distinct ones with the same x.
pub open spec fn on_one_line(pts: [(i64, i64); 4]) -> bool {
    ||| forall|i: int, j: int| 0 <= i < 4 && 0 <= j < 4 ==> #[trigger] pts[i].0 == #[trigger] pts[j].0
    ||| forall|i: int, j: int| 0 <= i < 4 && 0 <= j < 4 && #[trigger] pts[i].0 == #[trigger] pts[j].0 ==> pts[i].1 == pts[j].1
}

/// Two distinct endpoints lie in both segments' boxes: for segments on
/// one line, their common part is a stretch of positive length.
pub open spec fn share_stretch(pts: [(i64, i64); 4]) -> bool {
    exists|i: int, j: int|
        #![trigger pts[i], pts[j]]
        0 <= i < 4 && 0 <= j < 4 && pts[i] != pts[j] && in_box(pts[0], pts[1], pts[i]) && in_box(pts[2], pts[3], pts[i]) && in_box(
            pts[0],
            pts[1],
            pts[j],
        ) && in_box(pts[2], pts[3], pts[j])
}

/// Collinear segments of positive length on one line whose common part
/// is a stretch of positive length overlap: they are never classified as
/// touching at a point, nor as disjoint.
pub proof fn lemma_shared_stretch_overlaps(pts: [(i64, i64); 4], d: [Orientation; 4])
    requires
        pts[0] != pts[1],
        pts[2] != pts[3],
        d[0] == Orientation::Collinear,
        d[1] == Orientation::Collinear,
        on_one_line(pts),
        share_stretch(pts),
    ensures
        spec_classify_segments(pts, d) is CollinearOverlap,
{
    let (i, j) = choose|i: int, j: int|
        #![trigger pts[i], pts[j]]
        0 <= i < 4 && 0 <= j < 4 && pts[i] != pts[j] && in_box(pts[0], pts[1], pts[i]) && in_box(pts[2], pts[3], pts[i]) && in_box(
            pts[0],
            pts[1],
            pts[j],
        ) && in_box(pts[2], pts[3], pts[j]);
    let p = pts[i];
    let q = pts[j];
    assert(spec_boxes_overlap(pts[0], pts[1], pts[2], pts[3]));
    if pts[0].0 != pts[1].0 {
        assert(!(pts[0].0 == pts[1].0));
        assert(p.0 != q.0) by {
            if p.0 == q.0 {
                assert(pts[i].0 == pts[j].0);
                if forall|a: int, b: int| 0 <= a < 4 && 0 <= b < 4 ==> #[trigger] pts[a].0 == #[trigger] pts[b].0 {
                    assert(pts[0].0 == pts[1].0);
                }
                assert(pts[i].1 == pts[j].1);
            }
        }
    } else {
        assert(pts[0].1 != pts[1].1);
        assert(forall|a: int, b: int| 0 <= a < 4 && 0 <= b < 4 ==> #[trigger] pts[a].0 == #[trigger] pts[b].0) by {
            if !(forall|a: int, b: int| 0 <= a < 4 && 0 <= b < 4 ==> #[trigger] pts[a].0 == #[trigger] pts[b].0) {
                assert(pts[0].0 == pts[1].0);
            }
        }
        assert(p.0 == q.0);
        assert(p.1 != q.1);
    }
}

/// Along the line, y follows x: of three of the points with distinct
/// outer x, the middle one in x lies between the outer ones in y, as for
/// points on one non-vertical line.
pub open spec fn y_follows_x(pts: [(i64, i64); 4]) -> bool {
    forall|i: int, j: int, k: int|
        0 <= i < 4 && 0 <= j < 4 && 0 <= k < 4 && pts[i].0 != pts[k].0 && key_between(pts[i].0, pts[j].0, pts[k].0) ==> key_between(
            #[trigger] pts[i].1,
            #[trigger] pts[j].1,
            #[trigger] pts[k].1,
        )
}

/// Some endpoint lies in both segments' boxes.
pub open spec fn share_point(pts: [(i64, i64); 4]) -> bool {
    exists|i: int| 0 <= i < 4 && in_box(pts[0], pts[1], #[trigger] pts[i]) && in_box(pts[2], pts[3], pts[i])
}

/// For collinear segments on one line, the endpoint where their common
/// range starts and the one where it ends lie on both segments, when
/// the range is not empty.
proof fn lemma_range_ends_in_both(pts: [(i64, i64); 4])
    requires
        pts[0] != pts[1],
        pts[2] != pts[3],
        on_one_line(pts),
        y_follows_x(pts),
        axis_key(pts, overlap_axis(pts), overlap_low(pts)) <= axis_key(pts, overlap_axis(pts), overlap_high(pts)),
    ensures
        in_box(pts[0], pts[1], pts[overlap_low(pts)]) && in_box(pts[2], pts[3], pts[overlap_low(pts)]),
        in_box(pts[0], pts[1], pts[overlap_high(pts)]) && in_box(pts[2], pts[3], pts[overlap_high(pts)]),
{
    let lo = overlap_low(pts);
    let hi = overlap_high(pts);
    if pts[0].0 != pts[1].0 {
        assert(!(forall|a: int, b: int| 0 <= a < 4 && 0 <= b < 4 ==> #[trigger] pts[a].0 == #[trigger] pts[b].0)) by {
            if forall|a: int, b: int| 0 <= a < 4 && 0 <= b < 4 ==> #[trigger] pts[a].0 == #[trigger] pts[b].0 {
                assert(pts[0].0 == pts[1].0);
            }
        }
        assert(key_between(pts[0].1, pts[lo].1, pts[1].1)) by {
            assert(key_between(pts[0].0, pts[lo].0, pts[1].0));
        }
        assert(key_between(pts[0].1, pts[hi].1, pts[1].1)) by {
            assert(key_between(pts[0].0, pts[hi].0, pts[1].0));
        }
        if pts[2].0 != pts[3].0 {
            assert(key_between(pts[2].1, pts[lo].1, pts[3].1)) by {
                assert(key_between(pts[2].0, pts[lo].0, pts[3].0));
            }
            assert(key_between(pts[2].1, pts[hi].1, pts[3].1)) by {
                assert(key_between(pts[2].0, pts[hi].0, pts[3].0));
            }
        } else {
            assert(pts[lo].0 == pts[2].0);
            assert(pts[hi].0 == pts[2].0);
            assert(pts[lo] == pts[2]);
            assert(pts[hi] == pts[2]);
        }
    } else {
        assert(forall|a: int, b: int| 0 <= a < 4 && 0 <= b < 4 ==> #[trigger] pts[a].0 == #[trigger] pts[b].0) by {
            if !(forall|a: int, b: int| 0 <= a < 4 && 0 <= b < 4 ==> #[trigger] pts[a].0 == #[trigger] pts[b].0) {
                assert(pts[0].0 == pts[1].0);
            }
        }
        assert(pts[lo].0 == pts[0].0 && pts[hi].0 == pts[0].0 && pts[2].0 == pts[0].0 && pts[3].0 == pts[0].0 && pts[1].0 == pts[0].0);
    }
}

/// How collinear segments of positive length on one line meet, by what
/// their coordinates share: they overlap exactly when two distinct
/// endpoints lie on both, touch exactly when one does and no two do,
/// and are disjoint exactly when none does.
pub proof fn lemma_collinear_meeting(pts: [(i64, i64); 4], d: [Orientation; 4])
    requires
        pts[0] != pts[1],
        pts[2] != pts[3],
        d[0] == Orientation::Collinear,
        d[1] == Orientation::Collinear,
        on_one_line(pts),
        y_follows_x(pts),
    ensures
        spec_classify_segments(pts, d) is CollinearOverlap <==> share_stretch(pts),
        spec_classify_segments(pts, d) is CollinearTouch <==> share_point(pts) && !share_stretch(pts),
        spec_classify_segments(pts, d) is Disjoint <==> !share_point(pts),
{
    let c = spec_classify_segments(pts, d);
    let lo = overlap_low(pts);
    let hi = overlap_high(pts);
    let use_x = overlap_axis(pts);
    if share_stretch(pts) {
        lemma_shared_stretch_overlaps(pts, d);
        let (i, j) = choose|i: int, j: int|
            #![trigger pts[i], pts[j]]
            0 <= i < 4 && 0 <= j < 4 && pts[i] != pts[j] && in_box(pts[0], pts[1], pts[i]) && in_box(pts[2], pts[3], pts[i]) && in_box(
                pts[0],
                pts[1],
                pts[j],
            ) && in_box(pts[2], pts[3], pts[j]);
        assert(share_point(pts)) by {
            assert(in_box(pts[0], pts[1], pts[i]) && in_box(pts[2], pts[3], pts[i]));
        }
    } else if share_point(pts) {
        let i = choose|i: int| 0 <= i < 4 && in_box(pts[0], pts[1], #[trigger] pts[i]) && in_box(pts[2], pts[3], pts[i]);
        assert(spec_boxes_overlap(pts[0], pts[1], pts[2], pts[3]));
        assert(axis_key(pts, use_x, lo) <= axis_key(pts, use_x, hi));
        lemma_range_ends_in_both(pts);
        if axis_key(pts, use_x, lo) < axis_key(pts, use_x, hi) {
            assert(pts[lo] != pts[hi]);
            assert(share_stretch(pts)) by {
                assert(0 <= lo < 4 && 0 <= hi < 4);
            }
        }
    } else {
        if spec_boxes_overlap(pts[0], pts[1], pts[2], pts[3]) && axis_key(pts, use_x, lo) <= axis_key(pts, use_x, hi) {
            lemma_range_ends_in_both(pts);
            assert(share_point(pts)) by {
                assert(in_box(pts[0], pts[1], pts[lo]) && in_box(pts[2], pts[3], pts[lo]));
            }
        }
    }
}

/// The endpoints `[c, d, a, b]`: the two segments exchanged.
pub open spec fn swap_segments(pts: [(i64, i64); 4]) -> [(i64, i64); 4] {
    [pts[2], pts[3], pts[0], pts[1]]
}

/// The orientations seen with the two segments exchanged.
pub open spec fn swap_orientations(d: [Orientation; 4]) -> [Orientation; 4] {
    [d[2], d[3], d[0], d[1]]
}

/// What real segments of positive length show of `d`: `a` and `b` lie on
/// the line through `cd` exactly when `c` and `d` lie on the line
/// through `ab`, and then both segments vary in x, or neither does.
pub open spec fn orientations_consistent(pts: [(i64, i64); 4], d: [Orientation; 4]) -> bool {
    pts[0] != pts[1] && pts[2] != pts[3] ==> {
        &&& (d[0] == Orientation::Collinear && d[1] == Orientation::Collinear) <==> (d[2] == Orientation::Collinear && d[3]
            == Orientation::Collinear)
        &&& (d[0] == Orientation::Collinear && d[1] == Orientation::Collinear) ==> ((pts[0].0 != pts[1].0) <==> (pts[2].0
            != pts[3].0))
    }
}

/// The kind of intersection does not depend on which segment comes
/// first.
pub proof fn lemma_kind_symmetric(pts: [(i64, i64); 4], d: [Orientation; 4])
    requires
        orientations_consistent(pts, d),
    ensures
        kind_of(spec_classify_segments(pts, d)) == kind_of(spec_classify_segments(swap_segments(pts), swap_orientations(d))),
{
    let q = swap_segments(pts);
    let e = swap_orientations(d);
    assert(q[0] == pts[2] && q[1] == pts[3] && q[2] == pts[0] && q[3] == pts[1]);
    assert(e[0] == d[2] && e[1] == d[3] && e[2] == d[0] && e[3] == d[1]);
    assert(on_other(q, e, 0) == on_other(pts, d, 2));
    assert(on_other(q, e, 1) == on_other(pts, d, 3));
    assert(on_other(q, e, 2) == on_other(pts, d, 0));
    assert(on_other(q, e, 3) == on_other(pts, d, 1));
}

/// A zero-length segment meets another at one of the given points or
/// not at all: never properly, never along a stretch.
pub proof fn lemma_point_segment_only_touches(pts: [(i64, i64); 4], d: [Orientation; 4])
    requires
        pts[0] == pts[1] || pts[2] == pts[3],
    ensures
        spec_classify_segments(pts, d) is Disjoint || spec_classify_segments(pts, d) is EndpointTouch,
{
}

/// Where a point lies relative to a polygon ring.
#[derive(Debug, Clone, Copy, PartialEq, Eq, Structural)]
pub enum PointPolygonRelation {
    /// Strictly inside the region the ring bounds.
    Inside,
    /// On one of the ring's edges.
    OnBoundary,
    /// Strictly outside.
    Outside,
}

/// Edge `ab` crosses the ray from `p` towards increasing x, given `o =
/// orient(a, b, p)`: the edge spans `p`'s y half-open (its lower end
/// included, its upper end not), and `p` lies strictly on its left when
/// it runs upwards, strictly on its right when it runs downwards.
pub open spec fn ray_crosses(a: (i64, i64), b: (i64, i64), p: (i64, i64), o: Orientation) -> bool {
    (a.1 <= p.1 && p.1 < b.1 && o == Orientation::CounterClockwise) || (b.1 <= p.1 && p.1 < a.1 && o
        == Orientation::Clockwise)
}

/// Edge `k` of the ring: from vertex `k` to the next one, wrapping.
pub open spec fn ring_edge(ring: Seq<(i64, i64)>, k: int) -> ((i64, i64), (i64, i64)) {
    (ring[k], ring[(k + 1) % ring.len() as int])
}

/// Whether an odd number of the first `k` edges cross the ray from `p`,
/// `o[j]` being the orientation of edge `j` against `p`.
pub open spec fn odd_crossings(ring: Seq<(i64, i64)>, p: (i64, i64), o: Seq<Orientation>, k: int) -> bool
    decreases k,
{
    if k <= 0 {
        false
    } else {
        odd_crossings(ring, p, o, k - 1) != ray_crosses(ring_edge(ring, k - 1).0, ring_edge(ring, k - 1).1, p, o[k - 1])
    }
}

/// `p` is on one of the first `k` edges.
pub open spec fn on_ring_upto(ring: Seq<(i64, i64)>, p: (i64, i64), o: Seq<Orientation>, k: int) -> bool {
    exists|j: int|
        0 <= j < k && #[trigger] spec_point_segment_relation(ring_edge(ring, j).0, ring_edge(ring, j).1, p, o[j])
            != PointSegmentRelation::NotOnSegment
}

/// Where `p` lies against the ring, `o[j]` being the orientation of edge
/// `j` against `p`: on the boundary when on an edge, else inside when the
/// ray from `p` towards increasing x crosses the ring an odd number of
/// times, else outside.
pub open spec fn spec_point_ring_relation(ring: Seq<(i64, i64)>, p: (i64, i64), o: Seq<Orientation>) -> PointPolygonRelation {
    if on_ring_upto(ring, p, o, ring.len() as int) {
        PointPolygonRelation::OnBoundary
    } else if odd_crossings(ring, p, o, ring.len() as int) {
        PointPolygonRelation::Inside
    } else {
        PointPolygonRelation::Outside
    }
}

/// Where `p` lies relative to the polygon ring `ring`, by the crossing
/// parity of a ray; `orient(a, b, c)` is the orientation of `a`, `b`,
/// `c`, asked once per edge as `orient(a, b, p)`.
pub fn point_ring_relation<F: Fn((i64, i64), (i64, i64), (i64, i64)) -> Orientation>(
    ring: &Vec<(i64, i64)>,
    p: (i64, i64),
    orient: &F,
) -> (r: PointPolygonRelation)
    requires
        forall|a: (i64, i64), b: (i64, i64), c: (i64, i64)| orient.requires((a, b, c)),
    ensures
        exists|o: Seq<Orientation>|
            o.len() == ring.len() && (forall|j: int|
                0 <= j < ring.len() ==> #[trigger] orient.ensures((ring_edge(ring@, j).0, ring_edge(ring@, j).1, p), o[j]))
                && r == spec_point_ring_relation(ring@, p, o),
{
    let n = ring.len();
    let ghost mut o: Seq<Orientation> = Seq::empty();
    let mut on = false;
    let mut odd = false;
    let mut j: usize = 0;
    while j < n
        invariant
            n == ring.len(),
            j <= n,
            o.len() == j,
            forall|a: (i64, i64), b: (i64, i64), c: (i64, i64)| orient.requires((a, b, c)),
            forall|k: int| 0 <= k < j ==> #[trigger] orient.ensures((ring_edge(ring@, k).0, ring_edge(ring@, k).1, p), o[k]),
            on == on_ring_upto(ring@, p, o, j as int),
            odd == odd_crossings(ring@, p, o, j as int),
        decreases n - j,
    {
        let a = ring[j];
        let b = ring[(j + 1) % n];
        let t = orient(a, b, p);
        let ghost before = o;
        proof {
            o = o.push(t);
            assert(ring_edge(ring@, j as int) == (a, b));
            assert forall|k: int| 0 <= k < j implies #[trigger] orient.ensures((ring_edge(ring@, k).0, ring_edge(ring@, k).1, p), o[k]) by {
                assert(o[k] == before[k]);
            }
            assert(odd_crossings(ring@, p, o, j as int) == odd_crossings(ring@, p, before, j as int)) by {
                lemma_odd_crossings_prefix(ring@, p, before, o, j as int);
            }
        }
        if point_segment_relation(a, b, p, t) != PointSegmentRelation::NotOnSegment {
            on = true;
        }
        let crosses = (a.1 <= p.1 && p.1 < b.1 && t == Orientation::CounterClockwise) || (b.1 <= p.1 && p.1 < a.1 && t
            == Orientation::Clockwise);
        if crosses {
            odd = !odd;
        }
        proof {
            assert(on == on_ring_upto(ring@, p, o, j + 1)) by {
                if on_ring_upto(ring@, p, before, j as int) {
                    let w = choose|w: int|
                        0 <= w < j && #[trigger] spec_point_segment_relation(ring_edge(ring@, w).0, ring_edge(ring@, w).1, p, before[w])
                            != PointSegmentRelation::NotOnSegment;
                    assert(o[w] == before[w]);
                    assert(spec_point_segment_relation(ring_edge(ring@, w).0, ring_edge(ring@, w).1, p, o[w])
                        != PointSegmentRelation::NotOnSegment);
                }
                if spec_point_segment_relation(a, b, p, t) != PointSegmentRelation::NotOnSegment {
                    assert(o[j as int] == t);
                    assert(spec_point_segment_relation(ring_edge(ring@, j as int).0, ring_edge(ring@, j as int).1, p, o[j as int])
                        != PointSegmentRelation::NotOnSegment);
                }
                if on_ring_upto(ring@, p, o, j + 1) {
                    let w = choose|w: int|
                        0 <= w < j + 1 && #[trigger] spec_point_segment_relation(ring_edge(ring@, w).0, ring_edge(ring@, w).1, p, o[w])
                            != PointSegmentRelation::NotOnSegment;
                    if w < j {
                        assert(o[w] == before[w]);
                    }
                }
            }
        }
        j += 1;
    }
    if on {
        PointPolygonRelation::OnBoundary
    } else if odd {
        PointPolygonRelation::Inside
    } else {
        PointPolygonRelation::Outside
    }
}

/// Splitting edge `ab` at `m`, with `m` between `a` and `b` in y, into the
/// edges `am` and `mb`: the ray from `p` crosses `ab` exactly when it
/// crosses one of the two, given the same orientation `o` for all three.
pub proof fn lemma_split_crossing(a: (i64, i64), m: (i64, i64), b: (i64, i64), p: (i64, i64), o: Orientation)
    requires
        key_between(a.1, m.1, b.1),
    ensures
        ray_crosses(a, b, p, o) == (ray_crosses(a, m, p, o) != ray_crosses(m, b, p, o)),
{
}

/// `x % n == x` for `0 <= x < n`, and `n % n == 0`.
proof fn lemma_mod_within(x: int, n: int)
    requires
        0 <= x < n,
    ensures
        x % n == x,
        n % n == 0,
{
    assert(x % n == x) by (nonlinear_arith)
        requires
            0 <= x < n,
    ;
    assert(n % n == 0) by (nonlinear_arith)
        requires
            0 < n,
    ;
}

/// The edges of `ring` with `m` inserted after vertex `i`: those before
/// edge `i` are unchanged, edge `i` becomes the two edges to and from
/// `m`, and those after it move up by one.
proof fn lemma_split_edges(ring: Seq<(i64, i64)>, i: int, m: (i64, i64), k: int)
    requires
        0 <= i < ring.len(),
        0 <= k < ring.len(),
    ensures
        k < i ==> ring_edge(ring.insert(i + 1, m), k) == ring_edge(ring, k),
        k > i ==> ring_edge(ring.insert(i + 1, m), k + 1) == ring_edge(ring, k),
        k == i ==> ring_edge(ring.insert(i + 1, m), i) == (ring[i], m),
        k == i ==> ring_edge(ring.insert(i + 1, m), i + 1) == (m, ring_edge(ring, i).1),
{
    let n = ring.len() as int;
    let r2 = ring.insert(i + 1, m);
    assert(r2.len() == n + 1);
    lemma_mod_within(k, n);
    lemma_mod_within(k, n + 1);
    lemma_mod_within(k + 1, n + 1);
    if k + 1 < n {
        lemma_mod_within(k + 1, n);
    }
    if k + 2 < n + 1 {
        lemma_mod_within(k + 2, n + 1);
    }
    lemma_mod_within(0, n);
}

/// The crossing parity of the first `k` edges, up to the split edge, is
/// unchanged by the split.
proof fn lemma_split_prefix(ring: Seq<(i64, i64)>, p: (i64, i64), o: Seq<Orientation>, i: int, m: (i64, i64), k: int)
    requires
        o.len() == ring.len(),
        0 <= i < ring.len(),
        0 <= k <= i,
    ensures
        odd_crossings(ring.insert(i + 1, m), p, o.insert(i + 1, o[i]), k) == odd_crossings(ring, p, o, k),
    decreases k,
{
    if k > 0 {
        lemma_split_prefix(ring, p, o, i, m, k - 1);
        lemma_split_edges(ring, i, m, k - 1);
    }
}

/// Past the split edge, the crossing parity of the split ring's first
/// `k + 1` edges is that of the first `k` edges of the ring.
proof fn lemma_split_suffix(ring: Seq<(i64, i64)>, p: (i64, i64), o: Seq<Orientation>, i: int, m: (i64, i64), k: int)
    requires
        o.len() == ring.len(),
        0 <= i < ring.len(),
        i + 1 <= k <= ring.len(),
        key_between(ring[i].1, m.1, ring_edge(ring, i).1.1),
    ensures
        odd_crossings(ring.insert(i + 1, m), p, o.insert(i + 1, o[i]), k + 1) == odd_crossings(ring, p, o, k),
    decreases k,
{
    let r2 = ring.insert(i + 1, m);
    let o2 = o.insert(i + 1, o[i]);
    if k == i + 1 {
        lemma_split_prefix(ring, p, o, i, m, i);
        lemma_split_edges(ring, i, m, i);
        lemma_split_crossing(ring[i], m, ring_edge(ring, i).1, p, o[i]);
        assert(o2[i] == o[i] && o2[i + 1] == o[i]);
        assert(odd_crossings(r2, p, o2, i + 1) == (odd_crossings(r2, p, o2, i) != ray_crosses(ring[i], m, p, o[i])));
        assert(odd_crossings(r2, p, o2, i + 2) == (odd_crossings(r2, p, o2, i + 1) != ray_crosses(
            m,
            ring_edge(ring, i).1,
            p,
            o[i],
        )));
        assert(odd_crossings(ring, p, o, i + 1) == (odd_crossings(ring, p, o, i) != ray_crosses(
            ring[i],
            ring_edge(ring, i).1,
            p,
            o[i],
        )));
    } else {
        lemma_split_suffix(ring, p, o, i, m, k - 1);
        lemma_split_edges(ring, i, m, k - 1);
        assert(o2[k] == o[k - 1]);
        assert(odd_crossings(r2, p, o2, k + 1) == (odd_crossings(r2, p, o2, k) != ray_crosses(
            ring_edge(r2, k).0,
            ring_edge(r2, k).1,
            p,
            o2[k],
        )));
    }
}

/// Splitting an edge of the ring at a point on it keeps where every point
/// off that edge's line lies: the ring gains the vertex `m` after vertex
/// `i`, between it and the next in y and distinct from both, and the two
/// new edges have the split edge's orientation `o[i]` against `p`, not
/// collinear. A ray through the new vertex meets the two new edges once
/// between them, as it met the edge.
pub proof fn lemma_split_edge_keeps_relation(ring: Seq<(i64, i64)>, p: (i64, i64), o: Seq<Orientation>, i: int, m: (i64, i64))
    requires
        o.len() == ring.len(),
        0 <= i < ring.len(),
        ring[i] != m,
        ring_edge(ring, i).1 != m,
        ring[i] != ring_edge(ring, i).1,
        key_between(ring[i].1, m.1, ring_edge(ring, i).1.1),
        o[i] != Orientation::Collinear,
    ensures
        spec_point_ring_relation(ring.insert(i + 1, m), p, o.insert(i + 1, o[i])) == spec_point_ring_relation(ring, p, o),
{
    let n = ring.len() as int;
    let r2 = ring.insert(i + 1, m);
    let o2 = o.insert(i + 1, o[i]);
    lemma_split_suffix(ring, p, o, i, m, n);
    lemma_split_edges(ring, i, m, i);
    assert(r2.len() == n + 1);
    if on_ring_upto(ring, p, o, n) {
        let w = choose|w: int|
            0 <= w < n && #[trigger] spec_point_segment_relation(ring_edge(ring, w).0, ring_edge(ring, w).1, p, o[w])
                != PointSegmentRelation::NotOnSegment;
        lemma_split_edges(ring, i, m, w);
        if w < i {
            assert(spec_point_segment_relation(ring_edge(r2, w).0, ring_edge(r2, w).1, p, o2[w]) != PointSegmentRelation::NotOnSegment);
        } else if w > i {
            assert(o2[w + 1] == o[w]);
            assert(spec_point_segment_relation(ring_edge(r2, w + 1).0, ring_edge(r2, w + 1).1, p, o2[w + 1])
                != PointSegmentRelation::NotOnSegment);
        }
    }
    if on_ring_upto(r2, p, o2, n + 1) {
        let w = choose|w: int|
            0 <= w < n + 1 && #[trigger] spec_point_segment_relation(ring_edge(r2, w).0, ring_edge(r2, w).1, p, o2[w])
                != PointSegmentRelation::NotOnSegment;
        if w < i {
            lemma_split_edges(ring, i, m, w);
            assert(spec_point_segment_relation(ring_edge(ring, w).0, ring_edge(ring, w).1, p, o[w]) != PointSegmentRelation::NotOnSegment);
        } else if w > i + 1 {
            lemma_split_edges(ring, i, m, w - 1);
            assert(o2[w] == o[w - 1]);
            assert(spec_point_segment_relation(ring_edge(ring, w - 1).0, ring_edge(ring, w - 1).1, p, o[w - 1])
                != PointSegmentRelation::NotOnSegment);
        } else {
            assert(o2[w] == o[i]);
        }
    }
}

/// A point the orientation oracle places strictly on the inner side of
/// every edge of a triangle (left of each edge of a counterclockwise one,
/// right of each edge of a clockwise one), at a height strictly within
/// the triangle's, is inside it: the ray from it crosses the triangle
/// exactly once, also where it passes through a vertex.
pub proof fn lemma_inside_triangle(a: (i64, i64), b: (i64, i64), c: (i64, i64), p: (i64, i64), o: Seq<Orientation>)
    requires
        a != b,
        b != c,
        c != a,
        o.len() == 3,
        o[0] != Orientation::Collinear,
        o[1] == o[0],
        o[2] == o[0],
        key_min(key_min(a.1, b.1), c.1) < p.1 < key_max(key_max(a.1, b.1), c.1),
    ensures
        spec_point_ring_relation(seq![a, b, c], p, o) == PointPolygonRelation::Inside,
{
    let ring = seq![a, b, c];
    assert(ring.len() == 3 && ring[0] == a && ring[1] == b && ring[2] == c);
    assert(1int % 3 == 1 && 2int % 3 == 2 && 3int % 3 == 0) by (nonlinear_arith);
    assert(ring_edge(ring, 0) == (a, b));
    assert(ring_edge(ring, 1) == (b, c));
    assert(ring_edge(ring, 2) == (c, a));
    assert(!on_ring_upto(ring, p, o, 3)) by {
        if on_ring_upto(ring, p, o, 3) {
            let w = choose|w: int|
                0 <= w < 3 && #[trigger] spec_point_segment_relation(ring_edge(ring, w).0, ring_edge(ring, w).1, p, o[w])
                    != PointSegmentRelation::NotOnSegment;
            assert(w == 0 || w == 1 || w == 2);
        }
    }
    assert(!odd_crossings(ring, p, o, 0));
    assert(odd_crossings(ring, p, o, 1) == (odd_crossings(ring, p, o, 0) != ray_crosses(a, b, p, o[0])));
    assert(odd_crossings(ring, p, o, 2) == (odd_crossings(ring, p, o, 1) != ray_crosses(b, c, p, o[1])));
    assert(odd_crossings(ring, p, o, 3) == (odd_crossings(ring, p, o, 2) != ray_crosses(c, a, p, o[2])));
}

/// A point at a vertex of the ring is on its boundary, given the
/// collinear answer that the edge from that vertex gives against it.
pub proof fn lemma_vertex_on_boundary(ring: Seq<(i64, i64)>, p: (i64, i64), o: Seq<Orientation>, j: int)
    requires
        o.len() == ring.len(),
        0 <= j < ring.len(),
        ring[j] == p,
        o[j] == Orientation::Collinear,
    ensures
        spec_point_ring_relation(ring, p, o) == PointPolygonRelation::OnBoundary,
{
    assert(spec_point_segment_relation(ring_edge(ring, j).0, ring_edge(ring, j).1, p, o[j]) != PointSegmentRelation::NotOnSegment);
}

/// The crossing parity of the first `k` edges depends only on the first
/// `k` orientations.
proof fn lemma_odd_crossings_prefix(ring: Seq<(i64, i64)>, p: (i64, i64), o1: Seq<Orientation>, o2: Seq<Orientation>, k: int)
    requires
        0 <= k <= o1.len(),
        k <= o2.len(),
        forall|j: int| 0 <= j < k ==> o1[j] == o2[j],
    ensures
        odd_crossings(ring, p, o1, k) == odd_crossings(ring, p, o2, k),
    decreases k,
{
    if k > 0 {
        lemma_odd_crossings_prefix(ring, p, o1, o2, k - 1);
    }
}

} // verus!
