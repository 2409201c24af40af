use vstd::prelude::*;

use crate::kinds::HullBoundaryPoints;
use crate::sign::Orientation;

verus! {

// Points are given by order keys of their coordinates, `(x, y)`: keys
// compare as the coordinates they stand for do, and are equal exactly
// when the coordinates are.

/// `p` comes before `q` lexicographically: by x, then by y.
pub open spec fn point_lt(p: (i64, i64), q: (i64, i64)) -> bool {
    p.0 < q.0 || (p.0 == q.0 && p.1 < q.1)
}

/// Every point comes strictly before every later one: sorted, and no
/// point twice.
pub open spec fn sorted_distinct(s: Seq<(i64, i64)>) -> bool {
    forall|i: int, j: int| 0 <= i < j < s.len() ==> point_lt(#[trigger] s[i], #[trigger] s[j])
}

/// `d` is `points` sorted lexicographically with duplicates removed: it
/// is sorted, holds no point twice, and holds exactly the points that
/// `points` holds.
pub open spec fn sorted_dedup_of(d: Seq<(i64, i64)>, points: Seq<(i64, i64)>) -> bool {
    &&& sorted_distinct(d)
    &&& forall|p: (i64, i64)| d.contains(p) <==> points.contains(p)
}

fn lt(p: (i64, i64), q: (i64, i64)) -> (r: bool)
    ensures
        r == point_lt(p, q),
{
    p.0 < q.0 || (p.0 == q.0 && p.1 < q.1)
}

/// The distinct points of `points`, sorted lexicographically.
pub fn dedup_sorted(points: &Vec<(i64, i64)>) -> (r: Vec<(i64, i64)>)
    ensures
        sorted_dedup_of(r@, points@),
        r.len() <= points.len(),
{
    let mut r: Vec<(i64, i64)> = Vec::new();
    let mut i: usize = 0;
    while i < points.len()
        invariant
            i <= points.len(),
            r.len() <= i,
            sorted_distinct(r@),
            forall|p: (i64, i64)| r@.contains(p) <==> points@.subrange(0, i as int).contains(p),
        decreases points.len() - i,
    {
        let p = points[i];
        let mut j: usize = 0;
        while j < r.len() && lt(r[j], p)
            invariant
                j <= r.len(),
                forall|k: int| 0 <= k < j ==> point_lt(#[trigger] r@[k], p),
            decreases r.len() - j,
        {
            j += 1;
        }
        let ghost before = r@;
        let ghost prefix = points@.subrange(0, i as int);
        assert(forall|q: (i64, i64)| before.contains(q) <==> prefix.contains(q));
        assert(points@.subrange(0, i + 1) =~= prefix.push(p));
        if j < r.len() && r[j].0 == p.0 && r[j].1 == p.1 {
            proof {
                assert forall|q: (i64, i64)| r@.contains(q) <==> prefix.push(p).contains(q) by {
                    if q == p {
                        assert(r@[j as int] == p);
                    }
                    if prefix.push(p).contains(q) && q != p {
                        let k = choose|k: int| 0 <= k < prefix.push(p).len() && prefix.push(p)[k] == q;
                        assert(prefix.contains(q)) by {
                            assert(prefix[k] == q);
                        }
                    }
                }
            }
        } else {
            proof {
                assert(j < r.len() ==> !point_lt(r@[j as int], p));
            }
            r.insert(j, p);
            proof {
                assert forall|a: int, b: int| 0 <= a < b < r@.len() implies point_lt(#[trigger] r@[a], #[trigger] r@[b]) by {
                    if b < j {
                    } else if a < j && b == j {
                    } else if a < j && b > j {
                        assert(r@[b] == before[b - 1]);
                    } else if a == j {
                        assert(r@[b] == before[b - 1]);
                        if b - 1 > j {
                            assert(point_lt(before[j as int], before[b - 1]));
                        }
                    } else {
                        assert(r@[a] == before[a - 1] && r@[b] == before[b - 1]);
                    }
                }
                assert forall|q: (i64, i64)| r@.contains(q) <==> prefix.push(p).contains(q) by {
                    if r@.contains(q) {
                        let k = choose|k: int| 0 <= k < r@.len() && r@[k] == q;
                        if k == j {
                            assert(prefix.push(p)[prefix.len() as int] == q);
                        } else {
                            if k < j {
                                assert(before[k] == q);
                            } else {
                                assert(before[k - 1] == q);
                            }
                            assert(before.contains(q));
                            assert(prefix.contains(q));
                            let m = choose|m: int| 0 <= m < prefix.len() && prefix[m] == q;
                            assert(prefix.push(p)[m] == q);
                        }
                    }
                    if prefix.push(p).contains(q) {
                        if q == p {
                            assert(r@[j as int] == p);
                        } else {
                            let k = choose|k: int| 0 <= k < prefix.push(p).len() && prefix.push(p)[k] == q;
                            assert(prefix[k] == q);
                            assert(prefix.contains(q));
                            let m = choose|m: int| 0 <= m < before.len() && before[m] == q;
                            if m < j {
                                assert(r@[m] == q);
                            } else {
                                assert(r@[m + 1] == q);
                            }
                        }
                    }
                }
            }
        }
        i += 1;
    }
    proof {
        assert(points@.subrange(0, points.len() as int) =~= points@);
    }
    r
}

/// Two sorted, duplicate-free sequences holding the same points are the
/// same sequence.
proof fn lemma_sorted_same_points(d1: Seq<(i64, i64)>, d2: Seq<(i64, i64)>)
    requires
        sorted_distinct(d1),
        sorted_distinct(d2),
        forall|p: (i64, i64)| d1.contains(p) <==> d2.contains(p),
    ensures
        d1 == d2,
    decreases d1.len() + d2.len(),
{
    if d1.len() == 0 || d2.len() == 0 {
        if d1.len() > 0 {
            assert(d1.contains(d1[0]));
        }
        if d2.len() > 0 {
            assert(d2.contains(d2[0]));
        }
        assert(d1 =~= d2);
    } else {
        let l1 = d1.last();
        let l2 = d2.last();
        assert(d1.contains(l1)) by {
            assert(d1[d1.len() - 1] == l1);
        }
        assert(d2.contains(l2)) by {
            assert(d2[d2.len() - 1] == l2);
        }
        let i1 = choose|k: int| 0 <= k < d1.len() && d1[k] == l2;
        let i2 = choose|k: int| 0 <= k < d2.len() && d2[k] == l1;
        assert(l1 == l2) by {
            if l1 != l2 {
                assert(point_lt(d1[i1], d1[d1.len() - 1]));
                assert(point_lt(d2[i2], d2[d2.len() - 1]));
            }
        }
        let e1 = d1.drop_last();
        let e2 = d2.drop_last();
        assert forall|p: (i64, i64)| e1.contains(p) implies e2.contains(p) by {
            let k = choose|k: int| 0 <= k < e1.len() && e1[k] == p;
            assert(d1[k] == p);
            assert(point_lt(d1[k], d1[d1.len() - 1]));
            assert(d1.contains(p));
            let m = choose|m: int| 0 <= m < d2.len() && d2[m] == p;
            assert(e2[m] == p);
        }
        assert forall|p: (i64, i64)| e2.contains(p) implies e1.contains(p) by {
            let k = choose|k: int| 0 <= k < e2.len() && e2[k] == p;
            assert(d2[k] == p);
            assert(point_lt(d2[k], d2[d2.len() - 1]));
            assert(d2.contains(p));
            let m = choose|m: int| 0 <= m < d1.len() && d1[m] == p;
            assert(e1[m] == p);
        }
        lemma_sorted_same_points(e1, e2);
        assert(d1 =~= e1.push(l1));
        assert(d2 =~= e2.push(l2));
    }
}

/// The sorted distinct points of an input are unique: they do not
/// depend on the order in which the input lists its points, nor on how
/// often it repeats one.
pub proof fn lemma_sorted_dedup_unique(d1: Seq<(i64, i64)>, d2: Seq<(i64, i64)>, points: Seq<(i64, i64)>)
    requires
        sorted_dedup_of(d1, points),
        sorted_dedup_of(d2, points),
    ensures
        d1 == d2,
{
    lemma_sorted_same_points(d1, d2);
}

/// Whether turn `o` lets a chain keep its middle point: a
/// counterclockwise turn, or any turn but a clockwise one when collinear
/// boundary points are kept.
pub open spec fn keeps(o: Orientation, keep_all: bool) -> bool {
    if keep_all {
        o != Orientation::Clockwise
    } else {
        o == Orientation::CounterClockwise
    }
}

/// The orientation oracle answered `(a, b, c)` with a turn that keeps
/// `b`.
pub open spec fn turn_kept<F: Fn((i64, i64), (i64, i64), (i64, i64)) -> Orientation>(
    orient: F,
    keep_all: bool,
    a: (i64, i64),
    b: (i64, i64),
    c: (i64, i64),
) -> bool {
    exists|o: Orientation| keeps(o, keep_all) && #[trigger] orient.ensures((a, b, c), o)
}

/// `c` is a monotone chain over `pts`: it runs through `pts` in order
/// (a subsequence), from the first point to the last, and every three
/// consecutive chain points turn as kept.
pub open spec fn chain_of<F: Fn((i64, i64), (i64, i64), (i64, i64)) -> Orientation>(
    pts: Seq<(i64, i64)>,
    keep_all: bool,
    orient: F,
    c: Seq<(i64, i64)>,
) -> bool {
    &&& c.len() <= pts.len()
    &&& (c.len() == 0 <==> pts.len() == 0)
    &&& pts.len() > 0 ==> c[0] == pts[0] && c[c.len() - 1] == pts[pts.len() - 1]
    &&& exists|pos: Seq<int>|
        pos.len() == c.len() && (forall|k: int| 0 <= k < c.len() ==> 0 <= #[trigger] pos[k] < pts.len() && pts[pos[k]] == c[k])
            && (forall|k: int, l: int| 0 <= k < l < c.len() ==> pos[k] < pos[l])
    &&& forall|k: int| 2 <= k < c.len() ==> #[trigger] turn_kept(orient, keep_all, c[k - 2], c[k - 1], c[k])
}

/// The orientation oracle answered `(a, b, c)` with a turn that drops
/// `b`.
pub open spec fn turn_dropped<F: Fn((i64, i64), (i64, i64), (i64, i64)) -> Orientation>(
    orient: F,
    keep_all: bool,
    a: (i64, i64),
    b: (i64, i64),
    c: (i64, i64),
) -> bool {
    exists|o: Orientation| !keeps(o, keep_all) && #[trigger] orient.ensures((a, b, c), o)
}

/// One step of the chain's stack for the point `p`: `s2` is `s` cut back
/// to its first `m` points with `p` appended, where every point dropped
/// was dropped by a turn answer, and the cut stops at a kept turn or at
/// a single point.
pub open spec fn chain_step<F: Fn((i64, i64), (i64, i64), (i64, i64)) -> Orientation>(
    orient: F,
    keep_all: bool,
    s: Seq<(i64, i64)>,
    p: (i64, i64),
    s2: Seq<(i64, i64)>,
) -> bool {
    exists|m: int|
        0 <= m <= s.len() && #[trigger] s.take(m).push(p) == s2 && (m >= 1 || s.len() == 0) && (forall|l: int|
            m < l <= s.len() ==> #[trigger] turn_dropped(orient, keep_all, s[l - 2], s[l - 1], p)) && (m >= 2 ==> turn_kept(
            orient,
            keep_all,
            s[m - 2],
            s[m - 1],
            p,
        ))
}

/// State `i + 1` of `states` follows state `i` by the step for `pts[i]`.
pub open spec fn chain_step_at<F: Fn((i64, i64), (i64, i64), (i64, i64)) -> Orientation>(
    pts: Seq<(i64, i64)>,
    keep_all: bool,
    orient: F,
    states: Seq<Seq<(i64, i64)>>,
    i: int,
) -> bool {
    chain_step(orient, keep_all, states[i], pts[i], states[i + 1])
}

/// `c` is what the chain's stack holds after every point of `pts`, one
/// step each, from an empty stack.
pub open spec fn chain_run<F: Fn((i64, i64), (i64, i64), (i64, i64)) -> Orientation>(
    pts: Seq<(i64, i64)>,
    keep_all: bool,
    orient: F,
    c: Seq<(i64, i64)>,
) -> bool {
    exists|states: Seq<Seq<(i64, i64)>>|
        states.len() == pts.len() + 1 && #[trigger] states[0] == Seq::<(i64, i64)>::empty() && states[pts.len() as int] == c
            && forall|i: int| 0 <= i < pts.len() ==> #[trigger] chain_step_at(pts, keep_all, orient, states, i)
}

/// One monotone chain of a convex hull over `pts` (sorted, or sorted in
/// reverse for the other chain): each point is appended after dropping
/// the chain's last point while the last two and the new one do not turn
/// counterclockwise (do turn clockwise, when `keep_all` keeps collinear
/// boundary points); `orient(a, b, c)` is the orientation of `a`, `b`,
/// `c`.
pub fn hull_chain<F: Fn((i64, i64), (i64, i64), (i64, i64)) -> Orientation>(pts: &Vec<(i64, i64)>, keep_all: bool, orient: &F) -> (r: Vec<
    (i64, i64),
>)
    requires
        forall|a: (i64, i64), b: (i64, i64), c: (i64, i64)| orient.requires((a, b, c)),
    ensures
        chain_of(pts@, keep_all, *orient, r@),
        chain_run(pts@, keep_all, *orient, r@),
{
    let mut result: Vec<(i64, i64)> = Vec::new();
    let ghost mut pos: Seq<int> = Seq::empty();
    let ghost mut states: Seq<Seq<(i64, i64)>> = seq![Seq::<(i64, i64)>::empty()];
    let mut i: usize = 0;
    while i < pts.len()
        invariant
            forall|a: (i64, i64), b: (i64, i64), c: (i64, i64)| orient.requires((a, b, c)),
            i <= pts.len(),
            result.len() <= i,
            i > 0 ==> result.len() >= 1 && result[0] == pts[0] && result[result.len() - 1] == pts[i - 1],
            i == 0 ==> result.len() == 0,
            pos.len() == result.len(),
            forall|k: int| 0 <= k < result.len() ==> 0 <= #[trigger] pos[k] < i && pts[pos[k]] == result[k],
            forall|k: int, l: int| 0 <= k < l < result.len() ==> pos[k] < pos[l],
            forall|k: int| 2 <= k < result.len() ==> #[trigger] turn_kept(*orient, keep_all, result[k - 2], result[k - 1], result[k]),
            states.len() == i + 1,
            states[0] == Seq::<(i64, i64)>::empty(),
            states[i as int] == result@,
            forall|j: int| 0 <= j < i ==> #[trigger] chain_step_at(pts@, keep_all, *orient, states, j),
        decreases pts.len() - i,
    {
        let p = pts[i];
        let ghost s0 = result@;
        while result.len() >= 2
            invariant
                forall|a: (i64, i64), b: (i64, i64), c: (i64, i64)| orient.requires((a, b, c)),
                i < pts.len(),
                p == pts[i as int],
                result.len() <= i,
                i > 0 ==> result.len() >= 1 && result[0] == pts[0],
                i == 0 ==> result.len() == 0,
                pos.len() == result.len(),
                forall|k: int| 0 <= k < result.len() ==> 0 <= #[trigger] pos[k] < i && pts[pos[k]] == result[k],
                forall|k: int, l: int| 0 <= k < l < result.len() ==> pos[k] < pos[l],
                forall|k: int| 2 <= k < result.len() ==> #[trigger] turn_kept(*orient, keep_all, result[k - 2], result[k - 1], result[k]),
                result.len() <= s0.len(),
                result@ == s0.take(result.len() as int),
                s0.len() >= 1 ==> result.len() >= 1,
                forall|l: int| result.len() < l <= s0.len() ==> #[trigger] turn_dropped(*orient, keep_all, s0[l - 2], s0[l - 1], p),
            ensures
                result.len() >= 2 ==> turn_kept(*orient, keep_all, result[result.len() - 2], result[result.len() - 1], p),
                result.len() <= s0.len(),
                result@ == s0.take(result.len() as int),
                s0.len() >= 1 ==> result.len() >= 1,
                forall|l: int| result.len() < l <= s0.len() ==> #[trigger] turn_dropped(*orient, keep_all, s0[l - 2], s0[l - 1], p),
                result.len() <= i,
                i > 0 ==> result.len() >= 1 && result[0] == pts[0],
                i == 0 ==> result.len() == 0,
                pos.len() == result.len(),
                forall|k: int| 0 <= k < result.len() ==> 0 <= #[trigger] pos[k] < i && pts[pos[k]] == result[k],
                forall|k: int, l: int| 0 <= k < l < result.len() ==> pos[k] < pos[l],
                forall|k: int| 2 <= k < result.len() ==> #[trigger] turn_kept(*orient, keep_all, result[k - 2], result[k - 1], result[k]),
            decreases result.len(),
        {
            let a = result[result.len() - 2];
            let b = result[result.len() - 1];
            let t = orient(a, b, p);
            let should_pop = if keep_all {
                t == Orientation::Clockwise
            } else {
                t != Orientation::CounterClockwise
            };
            if should_pop {
                proof {
                    let l = result.len() as int;
                    assert(a == s0[l - 2] && b == s0[l - 1]);
                    assert(!keeps(t, keep_all));
                    assert(turn_dropped(*orient, keep_all, s0[l - 2], s0[l - 1], p));
                }
                result.pop();
                proof {
                    pos = pos.drop_last();
                    assert(result@ =~= s0.take(result.len() as int));
                }
            } else {
                proof {
                    assert(keeps(t, keep_all));
                    assert(turn_kept(*orient, keep_all, a, b, p));
                }
                break;
            }
        }
        let ghost before = result@;
        result.push(p);
        proof {
            let m = before.len() as int;
            assert(s0.take(m).push(p) == result@);
            assert(chain_step(*orient, keep_all, s0, p, result@));
            let old_states = states;
            states = states.push(result@);
            assert forall|j: int| 0 <= j < i + 1 implies #[trigger] chain_step_at(pts@, keep_all, *orient, states, j) by {
                if j < i {
                    assert(chain_step_at(pts@, keep_all, *orient, old_states, j));
                    assert(states[j] == old_states[j] && states[j + 1] == old_states[j + 1]);
                } else {
                    assert(states[j] == s0 && states[j + 1] == result@ && pts@[j] == p);
                }
            }
            pos = pos.push(i as int);
            assert forall|k: int| 2 <= k < result.len() implies #[trigger] turn_kept(*orient, keep_all, result[k - 2], result[k - 1], result[k]) by {
                if k < result.len() - 1 {
                    assert(result[k - 2] == before[k - 2] && result[k - 1] == before[k - 1] && result[k] == before[k]);
                }
            }
        }
        i += 1;
    }
    proof {
        assert(forall|k: int| 0 <= k < result.len() ==> 0 <= #[trigger] pos[k] < pts.len() && pts[pos[k]] == result[k]);
        assert(states[0] == Seq::<(i64, i64)>::empty());
    }
    result
}

/// Every point of a chain over `pts` is one of `pts`.
proof fn lemma_chain_points<F: Fn((i64, i64), (i64, i64), (i64, i64)) -> Orientation>(
    pts: Seq<(i64, i64)>,
    keep_all: bool,
    orient: F,
    c: Seq<(i64, i64)>,
)
    requires
        chain_of(pts, keep_all, orient, c),
    ensures
        forall|k: int| 0 <= k < c.len() ==> pts.contains(#[trigger] c[k]),
{
    let pos = choose|pos: Seq<int>|
        pos.len() == c.len() && (forall|k: int| 0 <= k < c.len() ==> 0 <= #[trigger] pos[k] < pts.len() && pts[pos[k]] == c[k])
            && (forall|k: int, l: int| 0 <= k < l < c.len() ==> pos[k] < pos[l]);
    assert forall|k: int| 0 <= k < c.len() implies pts.contains(#[trigger] c[k]) by {
        assert(pts[pos[k]] == c[k]);
    }
}

/// The orientation oracle gives one answer per triple.
pub open spec fn orient_deterministic<F: Fn((i64, i64), (i64, i64), (i64, i64)) -> Orientation>(orient: F) -> bool {
    forall|a: (i64, i64), b: (i64, i64), c: (i64, i64), o1: Orientation, o2: Orientation|
        #[trigger] orient.ensures((a, b, c), o1) && #[trigger] orient.ensures((a, b, c), o2) ==> o1 == o2
}

/// With one answer per triple, a chain step has one outcome.
proof fn lemma_chain_step_unique<F: Fn((i64, i64), (i64, i64), (i64, i64)) -> Orientation>(
    orient: F,
    keep_all: bool,
    s: Seq<(i64, i64)>,
    p: (i64, i64),
    s1: Seq<(i64, i64)>,
    s2: Seq<(i64, i64)>,
)
    requires
        orient_deterministic(orient),
        chain_step(orient, keep_all, s, p, s1),
        chain_step(orient, keep_all, s, p, s2),
    ensures
        s1 == s2,
{
    let m1 = choose|m: int|
        0 <= m <= s.len() && #[trigger] s.take(m).push(p) == s1 && (m >= 1 || s.len() == 0) && (forall|l: int|
            m < l <= s.len() ==> #[trigger] turn_dropped(orient, keep_all, s[l - 2], s[l - 1], p)) && (m >= 2 ==> turn_kept(
            orient,
            keep_all,
            s[m - 2],
            s[m - 1],
            p,
        ));
    let m2 = choose|m: int|
        0 <= m <= s.len() && #[trigger] s.take(m).push(p) == s2 && (m >= 1 || s.len() == 0) && (forall|l: int|
            m < l <= s.len() ==> #[trigger] turn_dropped(orient, keep_all, s[l - 2], s[l - 1], p)) && (m >= 2 ==> turn_kept(
            orient,
            keep_all,
            s[m - 2],
            s[m - 1],
            p,
        ));
    if m1 < m2 {
        assert(turn_dropped(orient, keep_all, s[m2 - 2], s[m2 - 1], p));
    } else if m2 < m1 {
        assert(turn_dropped(orient, keep_all, s[m1 - 2], s[m1 - 1], p));
    }
}

/// With one answer per triple, a chain run has one outcome.
proof fn lemma_chain_run_unique<F: Fn((i64, i64), (i64, i64), (i64, i64)) -> Orientation>(
    pts: Seq<(i64, i64)>,
    keep_all: bool,
    orient: F,
    c1: Seq<(i64, i64)>,
    c2: Seq<(i64, i64)>,
)
    requires
        orient_deterministic(orient),
        chain_run(pts, keep_all, orient, c1),
        chain_run(pts, keep_all, orient, c2),
    ensures
        c1 == c2,
{
    let st1 = choose|states: Seq<Seq<(i64, i64)>>|
        states.len() == pts.len() + 1 && #[trigger] states[0] == Seq::<(i64, i64)>::empty() && states[pts.len() as int] == c1
            && forall|i: int| 0 <= i < pts.len() ==> #[trigger] chain_step_at(pts, keep_all, orient, states, i);
    let st2 = choose|states: Seq<Seq<(i64, i64)>>|
        states.len() == pts.len() + 1 && #[trigger] states[0] == Seq::<(i64, i64)>::empty() && states[pts.len() as int] == c2
            && forall|i: int| 0 <= i < pts.len() ==> #[trigger] chain_step_at(pts, keep_all, orient, states, i);
    lemma_states_agree(pts, keep_all, orient, st1, st2, pts.len() as int);
}

/// Two runs of the chain from the same start agree at every state.
proof fn lemma_states_agree<F: Fn((i64, i64), (i64, i64), (i64, i64)) -> Orientation>(
    pts: Seq<(i64, i64)>,
    keep_all: bool,
    orient: F,
    st1: Seq<Seq<(i64, i64)>>,
    st2: Seq<Seq<(i64, i64)>>,
    i: int,
)
    requires
        0 <= i <= pts.len(),
        st1.len() == pts.len() + 1 && st2.len() == pts.len() + 1,
        st1[0] == st2[0],
        orient_deterministic(orient),
        forall|j: int| 0 <= j < pts.len() ==> #[trigger] chain_step_at(pts, keep_all, orient, st1, j),
        forall|j: int| 0 <= j < pts.len() ==> #[trigger] chain_step_at(pts, keep_all, orient, st2, j),
    ensures
        st1[i] == st2[i],
    decreases i,
{
    if i > 0 {
        lemma_states_agree(pts, keep_all, orient, st1, st2, i - 1);
        assert(chain_step_at(pts, keep_all, orient, st1, i - 1));
        assert(chain_step_at(pts, keep_all, orient, st2, i - 1));
        lemma_chain_step_unique(orient, keep_all, st1[i - 1], pts[i - 1], st1[i], st2[i]);
    }
}

/// With one answer per triple, the hull of sorted distinct points has one
/// outcome.
pub proof fn lemma_hull_of_unique<F: Fn((i64, i64), (i64, i64), (i64, i64)) -> Orientation>(
    d: Seq<(i64, i64)>,
    boundary: HullBoundaryPoints,
    orient: F,
    r1: Seq<(i64, i64)>,
    r2: Seq<(i64, i64)>,
)
    requires
        orient_deterministic(orient),
        hull_of(d, boundary, orient, r1),
        hull_of(d, boundary, orient, r2),
    ensures
        r1 == r2,
{
    let keep_all = boundary == HullBoundaryPoints::KeepAllOnBoundary;
    if d.len() > 2 {
        let all_collinear = forall|k: int| 0 <= k < d.len() ==> #[trigger] collinear_answer(orient, d[0], d[d.len() - 1], d[k]);
        if exists|k: int, o: Orientation|
            0 <= k < d.len() && o != Orientation::Collinear && #[trigger] orient.ensures((d[0], d[d.len() - 1], d[k]), o) {
            let (k, o) = choose|k: int, o: Orientation|
                0 <= k < d.len() && o != Orientation::Collinear && #[trigger] orient.ensures((d[0], d[d.len() - 1], d[k]), o);
            assert(!collinear_answer(orient, d[0], d[d.len() - 1], d[k]));
            assert(!all_collinear);
            let (l1, u1) = choose|lower: Seq<(i64, i64)>, upper: Seq<(i64, i64)>|
                chain_of(d, keep_all, orient, lower) && chain_of(d.reverse(), keep_all, orient, upper) && chain_run(
                    d,
                    keep_all,
                    orient,
                    lower,
                ) && chain_run(d.reverse(), keep_all, orient, upper) && r1 == lower.drop_last() + upper.drop_last();
            let (l2, u2) = choose|lower: Seq<(i64, i64)>, upper: Seq<(i64, i64)>|
                chain_of(d, keep_all, orient, lower) && chain_of(d.reverse(), keep_all, orient, upper) && chain_run(
                    d,
                    keep_all,
                    orient,
                    lower,
                ) && chain_run(d.reverse(), keep_all, orient, upper) && r2 == lower.drop_last() + upper.drop_last();
            lemma_chain_run_unique(d, keep_all, orient, l1, l2);
            lemma_chain_run_unique(d.reverse(), keep_all, orient, u1, u2);
        }
    }
}

/// The hull does not depend on the order in which the input lists its
/// points, nor on how often it repeats one: two inputs with the same
/// points have the same hull, when the orientation oracle gives one
/// answer per triple.
pub proof fn lemma_hull_order_independent<F: Fn((i64, i64), (i64, i64), (i64, i64)) -> Orientation>(
    p1: Seq<(i64, i64)>,
    p2: Seq<(i64, i64)>,
    boundary: HullBoundaryPoints,
    orient: F,
    r1: Seq<(i64, i64)>,
    r2: Seq<(i64, i64)>,
)
    requires
        orient_deterministic(orient),
        forall|p: (i64, i64)| p1.contains(p) <==> p2.contains(p),
        exists|d: Seq<(i64, i64)>| #[trigger] sorted_dedup_of(d, p1) && hull_of(d, boundary, orient, r1),
        exists|d: Seq<(i64, i64)>| #[trigger] sorted_dedup_of(d, p2) && hull_of(d, boundary, orient, r2),
    ensures
        r1 == r2,
{
    let d1 = choose|d: Seq<(i64, i64)>| #[trigger] sorted_dedup_of(d, p1) && hull_of(d, boundary, orient, r1);
    let d2 = choose|d: Seq<(i64, i64)>| #[trigger] sorted_dedup_of(d, p2) && hull_of(d, boundary, orient, r2);
    assert(sorted_dedup_of(d2, p1));
    lemma_sorted_dedup_unique(d1, d2, p1);
    lemma_hull_of_unique(d1, boundary, orient, r1, r2);
}

/// The oracle answered `(a, b, p)` with collinear.
pub open spec fn collinear_answer<F: Fn((i64, i64), (i64, i64), (i64, i64)) -> Orientation>(
    orient: F,
    a: (i64, i64),
    b: (i64, i64),
    p: (i64, i64),
) -> bool {
    orient.ensures((a, b, p), Orientation::Collinear)
}

/// `r` is the hull built from the sorted distinct points `d`: `d` itself
/// when it has at most two points; when every point is on the line
/// through the first and the last, those two (or all of `d` when
/// boundary points are kept); otherwise the lower chain over `d`
/// followed by the upper chain over `d` reversed, each without its last
/// point.
pub open spec fn hull_of<F: Fn((i64, i64), (i64, i64), (i64, i64)) -> Orientation>(
    d: Seq<(i64, i64)>,
    boundary: HullBoundaryPoints,
    orient: F,
    r: Seq<(i64, i64)>,
) -> bool {
    let keep_all = boundary == HullBoundaryPoints::KeepAllOnBoundary;
    if d.len() <= 2 {
        r == d
    } else {
        ||| (forall|k: int| 0 <= k < d.len() ==> #[trigger] collinear_answer(orient, d[0], d[d.len() - 1], d[k])) && r == (if keep_all {
            d
        } else {
            seq![d[0], d[d.len() - 1]]
        })
        ||| (exists|k: int, o: Orientation|
            0 <= k < d.len() && o != Orientation::Collinear && #[trigger] orient.ensures((d[0], d[d.len() - 1], d[k]), o))
            && exists|lower: Seq<(i64, i64)>, upper: Seq<(i64, i64)>|
            chain_of(d, keep_all, orient, lower) && chain_of(d.reverse(), keep_all, orient, upper) && chain_run(
                d,
                keep_all,
                orient,
                lower,
            ) && chain_run(d.reverse(), keep_all, orient, upper) && r == lower.drop_last() + upper.drop_last()
    }
}

/// The convex hull of `points` by the monotone chain method, in
/// counterclockwise order from the lexicographically smallest point;
/// duplicates are collapsed first. `orient(a, b, c)` is the orientation
/// of `a`, `b`, `c`.
pub fn convex_hull2<F: Fn((i64, i64), (i64, i64), (i64, i64)) -> Orientation>(
    points: &Vec<(i64, i64)>,
    boundary: HullBoundaryPoints,
    orient: &F,
) -> (r: Vec<(i64, i64)>)
    requires
        forall|a: (i64, i64), b: (i64, i64), c: (i64, i64)| orient.requires((a, b, c)),
    ensures
        exists|d: Seq<(i64, i64)>| sorted_dedup_of(d, points@) && hull_of(d, boundary, *orient, r@),
        r.len() > 0 ==> points@.contains(r[0]) && forall|p: (i64, i64)| #[trigger] points@.contains(p) ==> p == r[0] || point_lt(r[0], p),
        r.len() == 0 <==> points.len() == 0,
        forall|k: int| 0 <= k < r.len() ==> points@.contains(#[trigger] r[k]),
{
    let pts = dedup_sorted(points);
    proof {
        if pts.len() > 0 {
            assert(pts@.contains(pts@[0]));
            assert forall|p: (i64, i64)| #[trigger] points@.contains(p) implies p == pts@[0] || point_lt(pts@[0], p) by {
                assert(pts@.contains(p));
                let k = choose|k: int| 0 <= k < pts@.len() && pts@[k] == p;
                if k > 0 {
                    assert(point_lt(pts@[0], pts@[k]));
                }
            }
        }
        if points.len() > 0 {
            assert(points@.contains(points@[0]));
            assert(pts@.contains(points@[0]));
        }
    }
    let n = pts.len();
    if n <= 2 {
        return pts;
    }
    let first = pts[0];
    let last = pts[n - 1];
    let mut collinear = true;
    let mut k: usize = 0;
    while k < n
        invariant
            forall|a: (i64, i64), b: (i64, i64), c: (i64, i64)| orient.requires((a, b, c)),
            n == pts.len(),
            k <= n,
            first == pts@[0],
            last == pts@[n - 1],
            collinear ==> forall|m: int| 0 <= m < k ==> #[trigger] collinear_answer(*orient, first, last, pts@[m]),
            !collinear ==> exists|m: int, o: Orientation|
                0 <= m < n && o != Orientation::Collinear && #[trigger] orient.ensures((first, last, pts@[m]), o),
        ensures
            collinear ==> forall|m: int| 0 <= m < n ==> #[trigger] collinear_answer(*orient, first, last, pts@[m]),
            !collinear ==> exists|m: int, o: Orientation|
                0 <= m < n && o != Orientation::Collinear && #[trigger] orient.ensures((first, last, pts@[m]), o),
        decreases n - k,
    {
        let o = orient(first, last, pts[k]);
        if o != Orientation::Collinear {
            proof {
                assert(orient.ensures((first, last, pts@[k as int]), o));
            }
            collinear = false;
            break;
        }
        proof {
            assert(collinear_answer(*orient, first, last, pts@[k as int]));
        }
        k += 1;
    }
    let keep_all = boundary == HullBoundaryPoints::KeepAllOnBoundary;
    if collinear {
        if keep_all {
            proof {
                assert(hull_of(pts@, boundary, *orient, pts@));
            }
            return pts;
        }
        let r = vec![first, last];
        proof {
            assert(r@ =~= seq![pts@[0], pts@[n - 1]]);
            assert(hull_of(pts@, boundary, *orient, r@));
        }
        return r;
    }
    let mut lower = hull_chain(&pts, keep_all, orient);
    let mut reversed: Vec<(i64, i64)> = Vec::new();
    let mut m: usize = n;
    while m > 0
        invariant
            m <= n,
            n == pts.len(),
            reversed.len() == n - m,
            forall|j: int| 0 <= j < reversed.len() ==> #[trigger] reversed@[j] == pts@[n - 1 - j],
        decreases m,
    {
        m -= 1;
        reversed.push(pts[m]);
    }
    proof {
        assert(reversed@ =~= pts@.reverse());
    }
    let mut upper = hull_chain(&reversed, keep_all, orient);
    let ghost lower_chain = lower@;
    let ghost upper_chain = upper@;
    lower.pop();
    upper.pop();
    lower.append(&mut upper);
    proof {
        lemma_chain_points(pts@, keep_all, *orient, lower_chain);
        lemma_chain_points(pts@.reverse(), keep_all, *orient, upper_chain);
        assert forall|k: int| 0 <= k < upper_chain.len() implies pts@.contains(#[trigger] upper_chain[k]) by {
            assert(pts@.reverse().contains(upper_chain[k]));
            let j = choose|j: int| 0 <= j < pts@.reverse().len() && pts@.reverse()[j] == upper_chain[k];
            assert(pts@[pts@.len() - 1 - j] == upper_chain[k]);
        }
        assert(lower@ =~= lower_chain.drop_last() + upper_chain.drop_last());
        assert forall|k: int| 0 <= k < lower@.len() implies points@.contains(#[trigger] lower@[k]) by {
            if k < lower_chain.len() - 1 {
                assert(lower@[k] == lower_chain[k]);
                assert(pts@.contains(lower_chain[k]));
            } else {
                assert(lower@[k] == upper_chain[k - (lower_chain.len() - 1)]);
                assert(pts@.contains(upper_chain[k - (lower_chain.len() - 1)]));
            }
        }
        assert(pts@[0] != pts@[n - 1]) by {
            assert(point_lt(pts@[0], pts@[n - 1]));
        }
        assert(lower@[0] == pts@[0]);
    }
    lower
}

} // verus!
