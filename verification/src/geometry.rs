use vstd::prelude::*;

use crate::kinds::{PolygonBasicValidity, PolygonSelfIntersection, SegmentIntersectionKind};
use crate::sign::{opposite_signs, spec_opposite_signs, Orientation};

verus! {

/// How two segments of positive length, `ab` and `cd`, meet, as decided
/// from orientations alone.
#[derive(Debug, Clone, Copy, PartialEq, Eq, Structural)]
pub enum SegmentCrossing {
    /// Both endpoints of `ab` lie on the line through `cd`: the segments
    /// are collinear, and their overlap decides.
    Collinear,
    /// They cross at a single point interior to both.
    Proper,
    /// They touch at the endpoint with this index among `a`, `b`, `c`,
    /// `d`.
    EndpointTouch(usize),
    /// They share no point.
    Disjoint,
}

/// Endpoint `k` of `a, b, c, d` lies on the other segment: on its line,
/// and on the segment itself.
pub open spec fn touches(d: [Orientation; 4], on_other: [bool; 4], k: int) -> bool {
    d[k] == Orientation::Collinear && on_other[k]
}

/// How segments `ab` and `cd` of positive length meet, from
/// `d = [orient(c, d, a), orient(c, d, b), orient(a, b, c), orient(a, b, d)]`
/// and whether each of `a, b, c, d` lies on the other segment: collinear
/// when `a` and `b` are both on the line through `cd`; otherwise a proper
/// crossing when each segment's ends lie strictly on opposite sides of the
/// other's line; otherwise a touch at the first endpoint (in the order `a,
/// b, c, d`) on the other's line and segment; otherwise disjoint.
pub fn classify_crossing(d: [Orientation; 4], on_other: [bool; 4]) -> (r: SegmentCrossing)
    ensures
        r is Collinear <==> d[0] == Orientation::Collinear && d[1] == Orientation::Collinear,
        r is Proper <==> !(d[0] == Orientation::Collinear && d[1] == Orientation::Collinear) && spec_opposite_signs(
            d[0],
            d[1],
        ) && spec_opposite_signs(d[2], d[3]),
        forall|k: int|
            0 <= k < 4 ==> (r == SegmentCrossing::EndpointTouch(k as usize) <==> !(d[0] == Orientation::Collinear && d[1]
                == Orientation::Collinear) && !(spec_opposite_signs(d[0], d[1]) && spec_opposite_signs(d[2], d[3]))
                && touches(d, on_other, k) && forall|j: int| 0 <= j < k ==> !#[trigger] touches(d, on_other, j)),
        r matches SegmentCrossing::EndpointTouch(k) ==> k < 4,
        r is Disjoint <==> !(d[0] == Orientation::Collinear && d[1] == Orientation::Collinear) && !(spec_opposite_signs(
            d[0],
            d[1],
        ) && spec_opposite_signs(d[2], d[3])) && forall|j: int| 0 <= j < 4 ==> !#[trigger] touches(d, on_other, j),
{
    if d[0] == Orientation::Collinear && d[1] == Orientation::Collinear {
        return SegmentCrossing::Collinear;
    }
    if opposite_signs(d[0], d[1]) && opposite_signs(d[2], d[3]) {
        return SegmentCrossing::Proper;
    }
    let mut k: usize = 0;
    while k < 4
        invariant
            k <= 4,
            !(d[0] == Orientation::Collinear && d[1] == Orientation::Collinear),
            !(spec_opposite_signs(d[0], d[1]) && spec_opposite_signs(d[2], d[3])),
            forall|j: int| 0 <= j < k ==> !#[trigger] touches(d, on_other, j),
        decreases 4 - k,
    {
        if d[k] == Orientation::Collinear && on_other[k] {
            proof {
                assert(touches(d, on_other, k as int));
            }
            return SegmentCrossing::EndpointTouch(k);
        }
        k += 1;
    }
    SegmentCrossing::Disjoint
}

/// Edges `i < j` of a ring of `n` edges are adjacent: consecutive, or the
/// first and the last.
pub open spec fn ring_adjacent(n: int, i: int, j: int) -> bool {
    j == i + 1 || (i == 0 && j == n - 1)
}

/// Edges `i` and `j` of a ring of `n` edges share a vertex: edge `k`
/// runs from vertex `k` to vertex `(k + 1) % n`.
pub open spec fn edges_share_vertex(n: int, i: int, j: int) -> bool {
    let (a, b) = (i, (i + 1) % n);
    let (c, d) = (j, (j + 1) % n);
    a == c || a == d || b == c || b == d
}

/// The edges the self-intersection search passes over as adjacent are
/// exactly those that share a vertex; every other pair, the last edge
/// with any edge but the first and the one before it included, is asked.
pub proof fn lemma_adjacent_iff_share_vertex(n: int, i: int, j: int)
    requires
        0 <= i < j < n,
    ensures
        ring_adjacent(n, i, j) <==> edges_share_vertex(n, i, j),
{
    assert((i + 1) % n == if i + 1 == n { 0 } else { i + 1 }) by (nonlinear_arith)
        requires
            0 <= i < n,
    ;
    assert((j + 1) % n == if j + 1 == n { 0 } else { j + 1 }) by (nonlinear_arith)
        requires
            0 <= j < n,
    ;
}

/// The oracle said edges `i` and `j` do not meet.
pub open spec fn pair_clear<F: Fn(usize, usize) -> SegmentIntersectionKind>(kind: F, i: int, j: int) -> bool {
    kind.ensures((i as usize, j as usize), SegmentIntersectionKind::Disjoint)
}

/// The first pair of non-adjacent edges of a ring of `n` edges that meet,
/// in lexicographic order of the pair, with how they meet;
/// `kind(i, j)` classifies edges `i` and `j`. Adjacent edges always share
/// their common vertex, which is no self-intersection. `None` when every
/// non-adjacent pair is disjoint.
pub fn first_self_intersection<F: Fn(usize, usize) -> SegmentIntersectionKind>(n: usize, kind: &F) -> (r: Option<
    PolygonSelfIntersection,
>)
    requires
        forall|i: usize, j: usize| i < n && j < n ==> kind.requires((i, j)),
    ensures
        r matches Some(x) ==> {
            &&& x.edge_a < x.edge_b < n
            &&& !ring_adjacent(n as int, x.edge_a as int, x.edge_b as int)
            &&& x.kind != SegmentIntersectionKind::Disjoint
            &&& kind.ensures((x.edge_a, x.edge_b), x.kind)
            &&& forall|i: int, j: int|
                0 <= i < j < n && !ring_adjacent(n as int, i, j) && (i < x.edge_a || (i == x.edge_a && j < x.edge_b))
                    ==> #[trigger] pair_clear(*kind, i, j)
        },
        r is None ==> forall|i: int, j: int| 0 <= i < j < n && !ring_adjacent(n as int, i, j) ==> #[trigger] pair_clear(*kind, i, j),
        r is None ==> forall|i: int, j: int|
            0 <= i < j < n && !edges_share_vertex(n as int, i, j) ==> #[trigger] pair_clear(*kind, i, j),
        r matches Some(x) ==> !edges_share_vertex(n as int, x.edge_a as int, x.edge_b as int) && forall|i: int, j: int|
            0 <= i < j < n && !edges_share_vertex(n as int, i, j) && (i < x.edge_a || (i == x.edge_a && j < x.edge_b))
                ==> #[trigger] pair_clear(*kind, i, j),
{
    proof {
        assert forall|i: int, j: int| 0 <= i < j < n implies #[trigger] ring_adjacent(n as int, i, j) == edges_share_vertex(
            n as int,
            i,
            j,
        ) by {
            lemma_adjacent_iff_share_vertex(n as int, i, j);
        }
    }
    let r = first_self_intersection_scan(n, kind);
    r
}

/// The scan behind [`first_self_intersection`]: each pair `i < j` in
/// lexicographic order, passing over the adjacent ones.
fn first_self_intersection_scan<F: Fn(usize, usize) -> SegmentIntersectionKind>(n: usize, kind: &F) -> (r: Option<
    PolygonSelfIntersection,
>)
    requires
        forall|i: usize, j: usize| i < n && j < n ==> kind.requires((i, j)),
    ensures
        r matches Some(x) ==> {
            &&& x.edge_a < x.edge_b < n
            &&& !ring_adjacent(n as int, x.edge_a as int, x.edge_b as int)
            &&& x.kind != SegmentIntersectionKind::Disjoint
            &&& kind.ensures((x.edge_a, x.edge_b), x.kind)
            &&& forall|i: int, j: int|
                0 <= i < j < n && !ring_adjacent(n as int, i, j) && (i < x.edge_a || (i == x.edge_a && j < x.edge_b))
                    ==> #[trigger] pair_clear(*kind, i, j)
        },
        r is None ==> forall|i: int, j: int| 0 <= i < j < n && !ring_adjacent(n as int, i, j) ==> #[trigger] pair_clear(*kind, i, j),
{
    if n < 2 {
        return None;
    }
    let mut i: usize = 0;
    while i < n
        invariant
            2 <= n,
            forall|i: usize, j: usize| i < n && j < n ==> kind.requires((i, j)),
            i <= n,
            forall|a: int, b: int| 0 <= a < i && a < b < n && !ring_adjacent(n as int, a, b) ==> #[trigger] pair_clear(*kind, a, b),
        decreases n - i,
    {
        let mut j: usize = i + 1;
        while j < n
            invariant
                2 <= n,
                forall|i: usize, j: usize| i < n && j < n ==> kind.requires((i, j)),
                i < n,
                i + 1 <= j <= n,
                forall|a: int, b: int| 0 <= a < i && a < b < n && !ring_adjacent(n as int, a, b) ==> #[trigger] pair_clear(*kind, a, b),
                forall|b: int| i < b < j && !ring_adjacent(n as int, i as int, b) ==> #[trigger] pair_clear(*kind, i as int, b),
            decreases n - j,
        {
            let adjacent = j == i + 1 || (i == 0 && j == n - 1);
            if !adjacent {
                let k = kind(i, j);
                if k != SegmentIntersectionKind::Disjoint {
                    return Some(PolygonSelfIntersection { edge_a: i, edge_b: j, kind: k });
                }
                proof {
                    assert(pair_clear(*kind, i as int, j as int));
                }
            }
            j += 1;
        }
        i += 1;
    }
    None
}

/// A ring's cheap structural validity: too few vertices when `n < 3`;
/// otherwise a consecutive duplicate when some vertex equals the next one
/// (wrapping around), `equal_to_next(i)` comparing vertex `i` with vertex
/// `(i + 1) % n`; otherwise zero area when `orientation()`, the ring's
/// winding, is collinear; otherwise valid.
pub fn basic_validity<F: Fn(usize) -> bool, G: Fn() -> Orientation>(n: usize, equal_to_next: &F, orientation: &G) -> (r:
    PolygonBasicValidity)
    requires
        forall|i: usize| i < n ==> equal_to_next.requires((i,)),
        orientation.requires(()),
    ensures
        r is TooFewVertices <==> n < 3,
        r is ConsecutiveDuplicateVertices ==> n >= 3 && exists|i: int| 0 <= i < n && #[trigger] equal_to_next.ensures((i as usize,), true),
        (r is ZeroArea || r is Valid) ==> n >= 3 && forall|i: int| 0 <= i < n ==> #[trigger] equal_to_next.ensures((i as usize,), false),
        r is ZeroArea ==> orientation.ensures((), Orientation::Collinear),
        r is Valid ==> exists|o: Orientation| o != Orientation::Collinear && #[trigger] orientation.ensures((), o),
{
    if n < 3 {
        return PolygonBasicValidity::TooFewVertices;
    }
    let mut i: usize = 0;
    while i < n
        invariant
            3 <= n,
            i <= n,
            forall|i: usize| i < n ==> equal_to_next.requires((i,)),
            forall|k: int| 0 <= k < i ==> #[trigger] equal_to_next.ensures((k as usize,), false),
        decreases n - i,
    {
        let e = equal_to_next(i);
        if e {
            proof {
                assert(equal_to_next.ensures((((i as int) as usize),), true));
            }
            return PolygonBasicValidity::ConsecutiveDuplicateVertices;
        }
        i += 1;
    }
    let o = orientation();
    if o == Orientation::Collinear {
        return PolygonBasicValidity::ZeroArea;
    }
    PolygonBasicValidity::Valid
}

/// Edge pair `(a, b)` comes before `(i, j)` in row-major order.
pub open spec fn pair_before(a: int, b: int, i: int, j: int) -> bool {
    a < i || (a == i && b < j)
}

/// The first meeting between an edge of one ring (`na` edges) and an edge
/// of another (`nb` edges), trying the pairs in row-major order;
/// `kind(i, j)` classifies edge `i` of the first ring against edge `j` of
/// the second. No pair is skipped: edges of two different rings are
/// never the same edge. `None` when every pair is disjoint.
pub fn find_ring_intersection<F: Fn(usize, usize) -> SegmentIntersectionKind>(na: usize, nb: usize, kind: &F) -> (r: Option<
    SegmentIntersectionKind,
>)
    requires
        forall|i: usize, j: usize| i < na && j < nb ==> kind.requires((i, j)),
    ensures
        r matches Some(k) ==> k != SegmentIntersectionKind::Disjoint && exists|i: int, j: int|
            0 <= i < na && 0 <= j < nb && #[trigger] kind.ensures((i as usize, j as usize), k) && forall|a: int, b: int|
                0 <= a < na && 0 <= b < nb && pair_before(a, b, i, j) ==> #[trigger] pair_clear(*kind, a, b),
        r is None ==> forall|i: int, j: int| 0 <= i < na && 0 <= j < nb ==> #[trigger] pair_clear(*kind, i, j),
{
    let mut i: usize = 0;
    while i < na
        invariant
            i <= na,
            forall|i: usize, j: usize| i < na && j < nb ==> kind.requires((i, j)),
            forall|a: int, b: int| 0 <= a < i && 0 <= b < nb ==> #[trigger] pair_clear(*kind, a, b),
        decreases na - i,
    {
        let mut j: usize = 0;
        while j < nb
            invariant
                i < na,
                j <= nb,
                forall|i: usize, j: usize| i < na && j < nb ==> kind.requires((i, j)),
                forall|a: int, b: int| 0 <= a < i && 0 <= b < nb ==> #[trigger] pair_clear(*kind, a, b),
                forall|b: int| 0 <= b < j ==> #[trigger] pair_clear(*kind, i as int, b),
            decreases nb - j,
        {
            let k = kind(i, j);
            if k != SegmentIntersectionKind::Disjoint {
                proof {
                    assert(kind.ensures((((i as int) as usize), ((j as int) as usize)), k));
                    assert forall|a: int, b: int| 0 <= a < na && 0 <= b < nb && pair_before(a, b, i as int, j as int) implies #[trigger] pair_clear(
                        *kind,
                        a,
                        b,
                    ) by {
                        if a == i {
                            assert(pair_clear(*kind, i as int, b));
                        }
                    }
                }
                return Some(k);
            }
            proof {
                assert(pair_clear(*kind, i as int, j as int));
            }
            j += 1;
        }
        proof {
            assert forall|a: int, b: int| 0 <= a < i + 1 && 0 <= b < nb implies #[trigger] pair_clear(*kind, a, b) by {
                if a == i {
                    assert(pair_clear(*kind, i as int, b));
                }
            }
        }
        i += 1;
    }
    None
}

} // verus!
