use vstd::prelude::*;

use super::cdt::{
    adjacent_result, apex_index, first_bad_constraint, flip_ok, flipped_neighbors, interior_match, interior_reports, others, spec_canon,
    spec_edge_exists, CdtError, ConstrainedTriangulation2,
};
use super::cdt_build::{
    cdt_constrained_part, cdt_from_delaunay, cdt_outcome, cdt_past_validation, clear_before, constraint_kind_answer,
    constraint_vertex_pairs, constraints_pair_clear, convex_answers, crosses_answers, endpoints, has_duplicate_point,
    incircle_answers, segment_kind_answer, validation_outcome,
};
use super::cdt_insert::{
    canon_pairs, constrain_outcome, first_bad_result, flipped_faces, initial_queue, insert_ok_at, insert_result, insert_run,
    insert_step, insert_step_at, report_bad, report_good, restore_run, restore_step, restore_step_at, selected,
    tables_locally_delaunay,
};
use super::delaunay::{delaunay_outcome, incircle_deterministic, lemma_delaunay_order_independent};
use super::polygon::{
    first_edge_joining, has_third, is_walk, keep_result, linked, reachable, seed_in_slot_by, seed_result,
    PolygonTriangulationError,
};
use super::polygon_build::{
    interior_side_answers, keep_outcome, lemma_no_holes_same_outcome, polygon_contract, polygon_outcome, polygon_with_holes_contract,
    ring_pair_answer, self_intersection_answer, spec_ring_validity,
};
use super::topology::{
    edges_cover, edges_ordered, edges_recorded, face_index, incidence_edge, incidences, is_assembled_from, is_listed,
    lemma_incidences_congruent, lemma_listed_incidence_on_edge, same_edge, Triangulation2,
};
use super::voronoi::spec_third_vertex;
use crate::geometry::pair_before;
use crate::hull::{orient_deterministic, sorted_dedup_of};
use crate::ids::{EdgeId, FaceId, VertexId};
use crate::kinds::{PolygonSelfIntersection, SegmentIntersectionKind};
use crate::segments::{kind_of, spec_classify_segments};
use crate::sign::{spec_opposite_signs, Orientation, Sign};

verus! {

/// The answers `a` give at most one answer to each question.
pub open spec fn answers_functional(a: spec_fn(VertexId, VertexId, VertexId, VertexId, bool) -> bool) -> bool {
    forall|w: VertexId, x: VertexId, y: VertexId, z: VertexId, r1: bool, r2: bool|
        #![trigger a(w, x, y, z, r1), a(w, x, y, z, r2)]
        a(w, x, y, z, r1) && a(w, x, y, z, r2) ==> r1 == r2
}

/// The lookup of the faces at an edge has one outcome.
proof fn lemma_adjacent_unique(
    f: Seq<[VertexId; 3]>,
    nb: Seq<[Option<FaceId>; 3]>,
    a: VertexId,
    b: VertexId,
    r1: Option<(FaceId, FaceId)>,
    r2: Option<(FaceId, FaceId)>,
)
    requires
        adjacent_result(f, nb, a, b, r1),
        adjacent_result(f, nb, a, b, r2),
    ensures
        r1 == r2,
{
    if let Some((fa1, fb1)) = r1 {
        let t1 = choose|t: int|
            0 <= t < 3 * f.len() && #[trigger] interior_match(f, nb, a, b, t) && (forall|t2: int|
                0 <= t2 < t ==> !#[trigger] interior_match(f, nb, a, b, t2)) && fa1 == FaceId((t / 3) as u32) && super::topology::slot(
                nb,
                t,
            ) == Some(fb1);
        if let Some((fa2, fb2)) = r2 {
            let t2 = choose|t: int|
                0 <= t < 3 * f.len() && #[trigger] interior_match(f, nb, a, b, t) && (forall|t3: int|
                    0 <= t3 < t ==> !#[trigger] interior_match(f, nb, a, b, t3)) && fa2 == FaceId((t / 3) as u32)
                    && super::topology::slot(nb, t) == Some(fb2);
            if t1 < t2 {
                assert(!interior_match(f, nb, a, b, t1));
            } else if t2 < t1 {
                assert(!interior_match(f, nb, a, b, t2));
            }
        } else {
            assert(!interior_match(f, nb, a, b, t1));
        }
    } else if let Some((fa2, fb2)) = r2 {
        let t2 = choose|t: int|
            0 <= t < 3 * f.len() && #[trigger] interior_match(f, nb, a, b, t) && (forall|t3: int|
                0 <= t3 < t ==> !#[trigger] interior_match(f, nb, a, b, t3)) && fa2 == FaceId((t / 3) as u32) && super::topology::slot(
                nb,
                t,
            ) == Some(fb2);
        assert(!interior_match(f, nb, a, b, t2));
    }
}

/// One pass of a constraint's insertion has one outcome when each oracle
/// gives one answer per question.
proof fn lemma_insert_step_unique(
    cr: spec_fn(VertexId, VertexId, VertexId, VertexId, bool) -> bool,
    cv: spec_fn(VertexId, VertexId, VertexId, VertexId, bool) -> bool,
    pairs: Seq<(VertexId, VertexId)>,
    u: VertexId,
    v: VertexId,
    s: (Seq<[VertexId; 3]>, Seq<[Option<FaceId>; 3]>, Seq<(VertexId, VertexId)>, int),
    fin1: bool,
    ok1: bool,
    t1: (Seq<[VertexId; 3]>, Seq<[Option<FaceId>; 3]>, Seq<(VertexId, VertexId)>, int),
    fin2: bool,
    ok2: bool,
    t2: (Seq<[VertexId; 3]>, Seq<[Option<FaceId>; 3]>, Seq<(VertexId, VertexId)>, int),
)
    requires
        answers_functional(cr),
        answers_functional(cv),
        insert_step(cr, cv, pairs, u, v, s, fin1, ok1, t1),
        insert_step(cr, cv, pairs, u, v, s, fin2, ok2, t2),
    ensures
        fin1 == fin2,
        t1 == t2,
        fin1 ==> ok1 == ok2,
{
    let (f, nb, q, h) = s;
    if h < q.len() {
        let (a, b) = q[h];
        let adj1 = choose|adj: Option<(FaceId, FaceId)>|
            #[trigger] adjacent_result(f, nb, a, b, adj) && match adj {
                None => !fin1 && t1 == (f, nb, q, h + 1),
                Some((fa, fb)) => if !flip_ok(f, nb, fa, fb) {
                    fin1 && !ok1 && t1 == s
                } else {
                    let x = f[fa.0 as int];
                    let y = f[fb.0 as int];
                    let ia = apex_index(x, y);
                    let sh = others(x, ia);
                    let p = x[ia];
                    let w = y[apex_index(y, x)];
                    exists|c: bool|
                        #[trigger] cv(p, w, sh.0, sh.1, c) && if !c {
                            !fin1 && t1 == (f, nb, q.push((a, b)), h + 1)
                        } else if pairs.contains(spec_canon(sh.0, sh.1)) {
                            !fin1 && t1 == (f, nb, q, h + 1)
                        } else if (p == u && w == v) || (p == v && w == u) {
                            fin1 && ok1 && t1 == (flipped_faces(f, fa, fb), flipped_neighbors(f, nb, fa, fb), q, h + 1)
                        } else {
                            exists|k: bool|
                                #[trigger] cr(u, v, p, w, k) && !fin1 && t1 == (
                                    flipped_faces(f, fa, fb),
                                    flipped_neighbors(f, nb, fa, fb),
                                    if k {
                                        q.push(spec_canon(p, w))
                                    } else {
                                        q
                                    },
                                    h + 1,
                                )
                        }
                },
            };
        let adj2 = choose|adj: Option<(FaceId, FaceId)>|
            #[trigger] adjacent_result(f, nb, a, b, adj) && match adj {
                None => !fin2 && t2 == (f, nb, q, h + 1),
                Some((fa, fb)) => if !flip_ok(f, nb, fa, fb) {
                    fin2 && !ok2 && t2 == s
                } else {
                    let x = f[fa.0 as int];
                    let y = f[fb.0 as int];
                    let ia = apex_index(x, y);
                    let sh = others(x, ia);
                    let p = x[ia];
                    let w = y[apex_index(y, x)];
                    exists|c: bool|
                        #[trigger] cv(p, w, sh.0, sh.1, c) && if !c {
                            !fin2 && t2 == (f, nb, q.push((a, b)), h + 1)
                        } else if pairs.contains(spec_canon(sh.0, sh.1)) {
                            !fin2 && t2 == (f, nb, q, h + 1)
                        } else if (p == u && w == v) || (p == v && w == u) {
                            fin2 && ok2 && t2 == (flipped_faces(f, fa, fb), flipped_neighbors(f, nb, fa, fb), q, h + 1)
                        } else {
                            exists|k: bool|
                                #[trigger] cr(u, v, p, w, k) && !fin2 && t2 == (
                                    flipped_faces(f, fa, fb),
                                    flipped_neighbors(f, nb, fa, fb),
                                    if k {
                                        q.push(spec_canon(p, w))
                                    } else {
                                        q
                                    },
                                    h + 1,
                                )
                        }
                },
            };
        lemma_adjacent_unique(f, nb, a, b, adj1, adj2);
        if let Some((fa, fb)) = adj1 {
            if flip_ok(f, nb, fa, fb) {
                let x = f[fa.0 as int];
                let y = f[fb.0 as int];
                let ia = apex_index(x, y);
                let sh = others(x, ia);
                let p = x[ia];
                let w = y[apex_index(y, x)];
                let c1 = choose|c: bool|
                    #[trigger] cv(p, w, sh.0, sh.1, c) && if !c {
                        !fin1 && t1 == (f, nb, q.push((a, b)), h + 1)
                    } else if pairs.contains(spec_canon(sh.0, sh.1)) {
                        !fin1 && t1 == (f, nb, q, h + 1)
                    } else if (p == u && w == v) || (p == v && w == u) {
                        fin1 && ok1 && t1 == (flipped_faces(f, fa, fb), flipped_neighbors(f, nb, fa, fb), q, h + 1)
                    } else {
                        exists|k: bool|
                            #[trigger] cr(u, v, p, w, k) && !fin1 && t1 == (
                                flipped_faces(f, fa, fb),
                                flipped_neighbors(f, nb, fa, fb),
                                if k {
                                    q.push(spec_canon(p, w))
                                } else {
                                    q
                                },
                                h + 1,
                            )
                    };
                let c2 = choose|c: bool|
                    #[trigger] cv(p, w, sh.0, sh.1, c) && if !c {
                        !fin2 && t2 == (f, nb, q.push((a, b)), h + 1)
                    } else if pairs.contains(spec_canon(sh.0, sh.1)) {
                        !fin2 && t2 == (f, nb, q, h + 1)
                    } else if (p == u && w == v) || (p == v && w == u) {
                        fin2 && ok2 && t2 == (flipped_faces(f, fa, fb), flipped_neighbors(f, nb, fa, fb), q, h + 1)
                    } else {
                        exists|k: bool|
                            #[trigger] cr(u, v, p, w, k) && !fin2 && t2 == (
                                flipped_faces(f, fa, fb),
                                flipped_neighbors(f, nb, fa, fb),
                                if k {
                                    q.push(spec_canon(p, w))
                                } else {
                                    q
                                },
                                h + 1,
                            )
                    };
                assert(c1 == c2);
                if c1 && !pairs.contains(spec_canon(sh.0, sh.1)) && !((p == u && w == v) || (p == v && w == u)) {
                    let k1 = choose|k: bool|
                        #[trigger] cr(u, v, p, w, k) && !fin1 && t1 == (
                            flipped_faces(f, fa, fb),
                            flipped_neighbors(f, nb, fa, fb),
                            if k {
                                q.push(spec_canon(p, w))
                            } else {
                                q
                            },
                            h + 1,
                        );
                    let k2 = choose|k: bool|
                        #[trigger] cr(u, v, p, w, k) && !fin2 && t2 == (
                            flipped_faces(f, fa, fb),
                            flipped_neighbors(f, nb, fa, fb),
                            if k {
                                q.push(spec_canon(p, w))
                            } else {
                                q
                            },
                            h + 1,
                        );
                    assert(k1 == k2);
                }
            }
        }
    }
}

/// The states of two runs of one insertion agree as far as both go.
proof fn lemma_insert_states_agree(
    cr: spec_fn(VertexId, VertexId, VertexId, VertexId, bool) -> bool,
    cv: spec_fn(VertexId, VertexId, VertexId, VertexId, bool) -> bool,
    pairs: Seq<(VertexId, VertexId)>,
    u: VertexId,
    v: VertexId,
    st1: Seq<(Seq<[VertexId; 3]>, Seq<[Option<FaceId>; 3]>, Seq<(VertexId, VertexId)>, int)>,
    st2: Seq<(Seq<[VertexId; 3]>, Seq<[Option<FaceId>; 3]>, Seq<(VertexId, VertexId)>, int)>,
    j: int,
)
    requires
        answers_functional(cr),
        answers_functional(cv),
        st1.len() >= 1,
        st2.len() >= 1,
        st1[0] == st2[0],
        forall|i: int| 0 <= i < st1.len() - 1 ==> #[trigger] insert_step_at(cr, cv, pairs, u, v, st1, i),
        forall|i: int| 0 <= i < st2.len() - 1 ==> #[trigger] insert_step_at(cr, cv, pairs, u, v, st2, i),
        0 <= j < st1.len(),
        j < st2.len(),
    ensures
        st1[j] == st2[j],
    decreases j,
{
    if j > 0 {
        lemma_insert_states_agree(cr, cv, pairs, u, v, st1, st2, j - 1);
        assert(insert_step_at(cr, cv, pairs, u, v, st1, j - 1));
        assert(insert_step_at(cr, cv, pairs, u, v, st2, j - 1));
        lemma_insert_step_unique(cr, cv, pairs, u, v, st1[j - 1], false, false, st1[j], false, false, st2[j]);
    }
}

/// A run of one insertion has one outcome.
proof fn lemma_insert_run_unique(
    cr: spec_fn(VertexId, VertexId, VertexId, VertexId, bool) -> bool,
    cv: spec_fn(VertexId, VertexId, VertexId, VertexId, bool) -> bool,
    pairs: Seq<(VertexId, VertexId)>,
    u: VertexId,
    v: VertexId,
    s0: (Seq<[VertexId; 3]>, Seq<[Option<FaceId>; 3]>, Seq<(VertexId, VertexId)>, int),
    bound: int,
    ok1: bool,
    ff1: Seq<[VertexId; 3]>,
    fnb1: Seq<[Option<FaceId>; 3]>,
    ok2: bool,
    ff2: Seq<[VertexId; 3]>,
    fnb2: Seq<[Option<FaceId>; 3]>,
)
    requires
        answers_functional(cr),
        answers_functional(cv),
        insert_run(cr, cv, pairs, u, v, s0, bound, ok1, ff1, fnb1),
        insert_run(cr, cv, pairs, u, v, s0, bound, ok2, ff2, fnb2),
    ensures
        ok1 == ok2,
        ff1 == ff2,
        fnb1 == fnb2,
{
    let st1 = choose|states: Seq<(Seq<[VertexId; 3]>, Seq<[Option<FaceId>; 3]>, Seq<(VertexId, VertexId)>, int)>|
        #![trigger states[0]]
        states.len() >= 1 && states.len() <= bound + 1 && states[0] == s0 && (forall|j: int|
            0 <= j < states.len() - 1 ==> #[trigger] insert_step_at(cr, cv, pairs, u, v, states, j)) && if states.len() - 1
            < bound {
            exists|s2: (Seq<[VertexId; 3]>, Seq<[Option<FaceId>; 3]>, Seq<(VertexId, VertexId)>, int)|
                #[trigger] insert_step(cr, cv, pairs, u, v, states[states.len() - 1], true, ok1, s2) && s2.0 == ff1 && s2.1 == fnb1
        } else {
            !ok1 && states[states.len() - 1].0 == ff1 && states[states.len() - 1].1 == fnb1
        };
    let st2 = choose|states: Seq<(Seq<[VertexId; 3]>, Seq<[Option<FaceId>; 3]>, Seq<(VertexId, VertexId)>, int)>|
        #![trigger states[0]]
        states.len() >= 1 && states.len() <= bound + 1 && states[0] == s0 && (forall|j: int|
            0 <= j < states.len() - 1 ==> #[trigger] insert_step_at(cr, cv, pairs, u, v, states, j)) && if states.len() - 1
            < bound {
            exists|s2: (Seq<[VertexId; 3]>, Seq<[Option<FaceId>; 3]>, Seq<(VertexId, VertexId)>, int)|
                #[trigger] insert_step(cr, cv, pairs, u, v, states[states.len() - 1], true, ok2, s2) && s2.0 == ff2 && s2.1 == fnb2
        } else {
            !ok2 && states[states.len() - 1].0 == ff2 && states[states.len() - 1].1 == fnb2
        };
    let l1 = st1.len() - 1;
    let l2 = st2.len() - 1;
    if l1 < l2 {
        lemma_insert_states_agree(cr, cv, pairs, u, v, st1, st2, l1);
        assert(insert_step_at(cr, cv, pairs, u, v, st2, l1));
        let e1 = choose|s2: (Seq<[VertexId; 3]>, Seq<[Option<FaceId>; 3]>, Seq<(VertexId, VertexId)>, int)|
            #[trigger] insert_step(cr, cv, pairs, u, v, st1[l1], true, ok1, s2) && s2.0 == ff1 && s2.1 == fnb1;
        lemma_insert_step_unique(cr, cv, pairs, u, v, st1[l1], true, ok1, e1, false, false, st2[l1 + 1]);
    } else if l2 < l1 {
        lemma_insert_states_agree(cr, cv, pairs, u, v, st1, st2, l2);
        assert(insert_step_at(cr, cv, pairs, u, v, st1, l2));
        let e2 = choose|s2: (Seq<[VertexId; 3]>, Seq<[Option<FaceId>; 3]>, Seq<(VertexId, VertexId)>, int)|
            #[trigger] insert_step(cr, cv, pairs, u, v, st2[l2], true, ok2, s2) && s2.0 == ff2 && s2.1 == fnb2;
        lemma_insert_step_unique(cr, cv, pairs, u, v, st2[l2], true, ok2, e2, false, false, st1[l2 + 1]);
    } else {
        lemma_insert_states_agree(cr, cv, pairs, u, v, st1, st2, l1);
        if l1 < bound {
            let e1 = choose|s2: (Seq<[VertexId; 3]>, Seq<[Option<FaceId>; 3]>, Seq<(VertexId, VertexId)>, int)|
                #[trigger] insert_step(cr, cv, pairs, u, v, st1[l1], true, ok1, s2) && s2.0 == ff1 && s2.1 == fnb1;
            let e2 = choose|s2: (Seq<[VertexId; 3]>, Seq<[Option<FaceId>; 3]>, Seq<(VertexId, VertexId)>, int)|
                #[trigger] insert_step(cr, cv, pairs, u, v, st2[l2], true, ok2, s2) && s2.0 == ff2 && s2.1 == fnb2;
            lemma_insert_step_unique(cr, cv, pairs, u, v, st1[l1], true, ok1, e1, true, ok2, e2);
        }
    }
}

/// The queue an insertion starts with is one.
proof fn lemma_initial_queue_unique(
    cr: spec_fn(VertexId, VertexId, VertexId, VertexId, bool) -> bool,
    f: Seq<[VertexId; 3]>,
    nb: Seq<[Option<FaceId>; 3]>,
    pairs: Seq<(VertexId, VertexId)>,
    u: VertexId,
    v: VertexId,
    q1: Seq<(VertexId, VertexId)>,
    q2: Seq<(VertexId, VertexId)>,
)
    requires
        answers_functional(cr),
        initial_queue(cr, f, nb, pairs, u, v, q1),
        initial_queue(cr, f, nb, pairs, u, v, q2),
    ensures
        q1 == q2,
{
    let reps = interior_reports(f, nb, pairs, 3 * f.len() as int);
    let a1 = choose|ans: Seq<bool>|
        ans.len() == reps.len() && (forall|i: int| 0 <= i < reps.len() ==> cr(u, v, reps[i].0, reps[i].1, #[trigger] ans[i]))
            && q1 == selected(reps, ans, reps.len() as int);
    let a2 = choose|ans: Seq<bool>|
        ans.len() == reps.len() && (forall|i: int| 0 <= i < reps.len() ==> cr(u, v, reps[i].0, reps[i].1, #[trigger] ans[i]))
            && q2 == selected(reps, ans, reps.len() as int);
    assert forall|i: int| 0 <= i < reps.len() implies a1[i] == a2[i] by {
        assert(cr(u, v, reps[i].0, reps[i].1, a1[i]));
        assert(cr(u, v, reps[i].0, reps[i].1, a2[i]));
    }
    assert(a1 =~= a2);
}

/// Inserting one constraint has one outcome when each oracle gives one
/// answer per question: the same success and the same tables.
pub proof fn lemma_insert_result_unique(
    cr: spec_fn(VertexId, VertexId, VertexId, VertexId, bool) -> bool,
    cv: spec_fn(VertexId, VertexId, VertexId, VertexId, bool) -> bool,
    pairs: Seq<(VertexId, VertexId)>,
    u: VertexId,
    v: VertexId,
    f: Seq<[VertexId; 3]>,
    nb: Seq<[Option<FaceId>; 3]>,
    ok1: bool,
    ff1: Seq<[VertexId; 3]>,
    fnb1: Seq<[Option<FaceId>; 3]>,
    ok2: bool,
    ff2: Seq<[VertexId; 3]>,
    fnb2: Seq<[Option<FaceId>; 3]>,
)
    requires
        answers_functional(cr),
        answers_functional(cv),
        insert_result(cr, cv, pairs, u, v, f, nb, ok1, ff1, fnb1),
        insert_result(cr, cv, pairs, u, v, f, nb, ok2, ff2, fnb2),
    ensures
        ok1 == ok2,
        ff1 == ff2,
        fnb1 == fnb2,
{
    if !spec_edge_exists(f, u, v) {
        let bound = 4 * f.len() as int + 16;
        let q1 = choose|q0: Seq<(VertexId, VertexId)>|
            #[trigger] initial_queue(cr, f, nb, pairs, u, v, q0) && insert_run(cr, cv, pairs, u, v, (f, nb, q0, 0int), bound, ok1, ff1, fnb1);
        let q2 = choose|q0: Seq<(VertexId, VertexId)>|
            #[trigger] initial_queue(cr, f, nb, pairs, u, v, q0) && insert_run(cr, cv, pairs, u, v, (f, nb, q0, 0int), bound, ok2, ff2, fnb2);
        lemma_initial_queue_unique(cr, f, nb, pairs, u, v, q1, q2);
        lemma_insert_run_unique(cr, cv, pairs, u, v, (f, nb, q1, 0int), bound, ok1, ff1, fnb1, ok2, ff2, fnb2);
    }
}

/// Under one answer per question, no report is both good and bad.
proof fn lemma_report_exclusive(
    ic: spec_fn(VertexId, VertexId, VertexId, VertexId, bool) -> bool,
    f: Seq<[VertexId; 3]>,
    rep: (VertexId, VertexId, FaceId, FaceId),
)
    requires
        answers_functional(ic),
    ensures
        !(report_good(ic, f, rep) && report_bad(ic, f, rep)),
{
    let x = f[rep.2.0 as int];
    let y = f[rep.3.0 as int];
    if report_good(ic, f, rep) && report_bad(ic, f, rep) {
        if ic(x[0], x[1], x[2], y[apex_index(y, x)], true) {
            assert(ic(x[0], x[1], x[2], y[apex_index(y, x)], false));
        } else {
            assert(ic(y[0], y[1], y[2], x[apex_index(x, y)], false));
            assert(ic(y[0], y[1], y[2], x[apex_index(x, y)], true));
        }
    }
}

/// The search for the first edge that is not locally Delaunay has one
/// outcome.
proof fn lemma_first_bad_unique(
    ic: spec_fn(VertexId, VertexId, VertexId, VertexId, bool) -> bool,
    f: Seq<[VertexId; 3]>,
    nb: Seq<[Option<FaceId>; 3]>,
    pairs: Seq<(VertexId, VertexId)>,
    r1: Option<(FaceId, FaceId)>,
    r2: Option<(FaceId, FaceId)>,
)
    requires
        answers_functional(ic),
        first_bad_result(ic, f, nb, pairs, r1),
        first_bad_result(ic, f, nb, pairs, r2),
    ensures
        r1 == r2,
{
    let reps = interior_reports(f, nb, pairs, 3 * f.len() as int);
    if let Some((fa1, fb1)) = r1 {
        let i1 = choose|i: int|
            0 <= i < reps.len() && reps[i].2 == fa1 && reps[i].3 == fb1 && #[trigger] report_bad(ic, f, reps[i]) && forall|k: int|
                0 <= k < i ==> #[trigger] report_good(ic, f, reps[k]);
        if let Some((fa2, fb2)) = r2 {
            let i2 = choose|i: int|
                0 <= i < reps.len() && reps[i].2 == fa2 && reps[i].3 == fb2 && #[trigger] report_bad(ic, f, reps[i]) && forall|
                    k: int,
                | 0 <= k < i ==> #[trigger] report_good(ic, f, reps[k]);
            if i1 < i2 {
                assert(report_good(ic, f, reps[i1]));
                lemma_report_exclusive(ic, f, reps[i1]);
            } else if i2 < i1 {
                assert(report_good(ic, f, reps[i2]));
                lemma_report_exclusive(ic, f, reps[i2]);
            }
        } else {
            assert(report_good(ic, f, reps[i1]));
            lemma_report_exclusive(ic, f, reps[i1]);
        }
    } else if let Some((fa2, fb2)) = r2 {
        let i2 = choose|i: int|
            0 <= i < reps.len() && reps[i].2 == fa2 && reps[i].3 == fb2 && #[trigger] report_bad(ic, f, reps[i]) && forall|k: int|
                0 <= k < i ==> #[trigger] report_good(ic, f, reps[k]);
        assert(report_good(ic, f, reps[i2]));
        lemma_report_exclusive(ic, f, reps[i2]);
    }
}

/// One pass of the restoring loop has one outcome.
proof fn lemma_restore_step_unique(
    cv: spec_fn(VertexId, VertexId, VertexId, VertexId, bool) -> bool,
    ic: spec_fn(VertexId, VertexId, VertexId, VertexId, bool) -> bool,
    pairs: Seq<(VertexId, VertexId)>,
    s: (Seq<[VertexId; 3]>, Seq<[Option<FaceId>; 3]>),
    fin1: bool,
    ok1: bool,
    t1: (Seq<[VertexId; 3]>, Seq<[Option<FaceId>; 3]>),
    fin2: bool,
    ok2: bool,
    t2: (Seq<[VertexId; 3]>, Seq<[Option<FaceId>; 3]>),
)
    requires
        answers_functional(cv),
        answers_functional(ic),
        restore_step(cv, ic, pairs, s, fin1, ok1, t1),
        restore_step(cv, ic, pairs, s, fin2, ok2, t2),
    ensures
        fin1 == fin2,
        t1 == t2,
        fin1 ==> ok1 == ok2,
{
    let (f, nb) = s;
    let b1 = choose|bad: Option<(FaceId, FaceId)>|
        #[trigger] first_bad_result(ic, f, nb, pairs, bad) && match bad {
            None => fin1 && ok1 && t1 == s,
            Some((fa, fb)) => if !flip_ok(f, nb, fa, fb) {
                fin1 && !ok1 && t1 == s
            } else {
                let x = f[fa.0 as int];
                let y = f[fb.0 as int];
                let ia = apex_index(x, y);
                let sh = others(x, ia);
                exists|c: bool|
                    #[trigger] cv(x[ia], y[apex_index(y, x)], sh.0, sh.1, c) && if !c || pairs.contains(spec_canon(sh.0, sh.1)) {
                        fin1 && !ok1 && t1 == s
                    } else {
                        !fin1 && t1 == (flipped_faces(f, fa, fb), flipped_neighbors(f, nb, fa, fb))
                    }
            },
        };
    let b2 = choose|bad: Option<(FaceId, FaceId)>|
        #[trigger] first_bad_result(ic, f, nb, pairs, bad) && match bad {
            None => fin2 && ok2 && t2 == s,
            Some((fa, fb)) => if !flip_ok(f, nb, fa, fb) {
                fin2 && !ok2 && t2 == s
            } else {
                let x = f[fa.0 as int];
                let y = f[fb.0 as int];
                let ia = apex_index(x, y);
                let sh = others(x, ia);
                exists|c: bool|
                    #[trigger] cv(x[ia], y[apex_index(y, x)], sh.0, sh.1, c) && if !c || pairs.contains(spec_canon(sh.0, sh.1)) {
                        fin2 && !ok2 && t2 == s
                    } else {
                        !fin2 && t2 == (flipped_faces(f, fa, fb), flipped_neighbors(f, nb, fa, fb))
                    }
            },
        };
    lemma_first_bad_unique(ic, f, nb, pairs, b1, b2);
    if let Some((fa, fb)) = b1 {
        if flip_ok(f, nb, fa, fb) {
            let x = f[fa.0 as int];
            let y = f[fb.0 as int];
            let ia = apex_index(x, y);
            let sh = others(x, ia);
            let c1 = choose|c: bool|
                #[trigger] cv(x[ia], y[apex_index(y, x)], sh.0, sh.1, c) && if !c || pairs.contains(spec_canon(sh.0, sh.1)) {
                    fin1 && !ok1 && t1 == s
                } else {
                    !fin1 && t1 == (flipped_faces(f, fa, fb), flipped_neighbors(f, nb, fa, fb))
                };
            let c2 = choose|c: bool|
                #[trigger] cv(x[ia], y[apex_index(y, x)], sh.0, sh.1, c) && if !c || pairs.contains(spec_canon(sh.0, sh.1)) {
                    fin2 && !ok2 && t2 == s
                } else {
                    !fin2 && t2 == (flipped_faces(f, fa, fb), flipped_neighbors(f, nb, fa, fb))
                };
            assert(c1 == c2);
        }
    }
}

/// The states of two runs of the restoring loop agree as far as both
/// go.
proof fn lemma_restore_states_agree(
    cv: spec_fn(VertexId, VertexId, VertexId, VertexId, bool) -> bool,
    ic: spec_fn(VertexId, VertexId, VertexId, VertexId, bool) -> bool,
    pairs: Seq<(VertexId, VertexId)>,
    st1: Seq<(Seq<[VertexId; 3]>, Seq<[Option<FaceId>; 3]>)>,
    st2: Seq<(Seq<[VertexId; 3]>, Seq<[Option<FaceId>; 3]>)>,
    j: int,
)
    requires
        answers_functional(cv),
        answers_functional(ic),
        st1.len() >= 1,
        st2.len() >= 1,
        st1[0] == st2[0],
        forall|i: int| 0 <= i < st1.len() - 1 ==> #[trigger] restore_step_at(cv, ic, pairs, st1, i),
        forall|i: int| 0 <= i < st2.len() - 1 ==> #[trigger] restore_step_at(cv, ic, pairs, st2, i),
        0 <= j < st1.len(),
        j < st2.len(),
    ensures
        st1[j] == st2[j],
    decreases j,
{
    if j > 0 {
        lemma_restore_states_agree(cv, ic, pairs, st1, st2, j - 1);
        assert(restore_step_at(cv, ic, pairs, st1, j - 1));
        assert(restore_step_at(cv, ic, pairs, st2, j - 1));
        lemma_restore_step_unique(cv, ic, pairs, st1[j - 1], false, false, st1[j], false, false, st2[j]);
    }
}

/// A run of the restoring loop has one outcome.
proof fn lemma_restore_run_unique(
    cv: spec_fn(VertexId, VertexId, VertexId, VertexId, bool) -> bool,
    ic: spec_fn(VertexId, VertexId, VertexId, VertexId, bool) -> bool,
    pairs: Seq<(VertexId, VertexId)>,
    s0: (Seq<[VertexId; 3]>, Seq<[Option<FaceId>; 3]>),
    bound: int,
    ok1: bool,
    e1: (Seq<[VertexId; 3]>, Seq<[Option<FaceId>; 3]>),
    ok2: bool,
    e2: (Seq<[VertexId; 3]>, Seq<[Option<FaceId>; 3]>),
)
    requires
        answers_functional(cv),
        answers_functional(ic),
        restore_run(cv, ic, pairs, s0, bound, ok1, e1),
        restore_run(cv, ic, pairs, s0, bound, ok2, e2),
    ensures
        ok1 == ok2,
        e1 == e2,
{
    let st1 = choose|states: Seq<(Seq<[VertexId; 3]>, Seq<[Option<FaceId>; 3]>)>|
        #![trigger states[0]]
        states.len() >= 1 && states.len() <= bound + 1 && states[0] == s0 && (forall|j: int|
            0 <= j < states.len() - 1 ==> #[trigger] restore_step_at(cv, ic, pairs, states, j)) && if states.len() - 1 < bound {
            restore_step(cv, ic, pairs, states[states.len() - 1], true, ok1, e1)
        } else {
            !ok1 && states[states.len() - 1] == e1
        };
    let st2 = choose|states: Seq<(Seq<[VertexId; 3]>, Seq<[Option<FaceId>; 3]>)>|
        #![trigger states[0]]
        states.len() >= 1 && states.len() <= bound + 1 && states[0] == s0 && (forall|j: int|
            0 <= j < states.len() - 1 ==> #[trigger] restore_step_at(cv, ic, pairs, states, j)) && if states.len() - 1 < bound {
            restore_step(cv, ic, pairs, states[states.len() - 1], true, ok2, e2)
        } else {
            !ok2 && states[states.len() - 1] == e2
        };
    let l1 = st1.len() - 1;
    let l2 = st2.len() - 1;
    if l1 < l2 {
        lemma_restore_states_agree(cv, ic, pairs, st1, st2, l1);
        assert(restore_step_at(cv, ic, pairs, st2, l1));
        lemma_restore_step_unique(cv, ic, pairs, st1[l1], true, ok1, e1, false, false, st2[l1 + 1]);
    } else if l2 < l1 {
        lemma_restore_states_agree(cv, ic, pairs, st1, st2, l2);
        assert(restore_step_at(cv, ic, pairs, st1, l2));
        lemma_restore_step_unique(cv, ic, pairs, st2[l2], true, ok2, e2, false, false, st1[l2 + 1]);
    } else {
        lemma_restore_states_agree(cv, ic, pairs, st1, st2, l1);
        if l1 < bound {
            lemma_restore_step_unique(cv, ic, pairs, st1[l1], true, ok1, e1, true, ok2, e2);
        }
    }
}

/// The tables of two constraining runs agree as far as both go.
proof fn lemma_tables_agree(
    cr: spec_fn(VertexId, VertexId, VertexId, VertexId, bool) -> bool,
    cv: spec_fn(VertexId, VertexId, VertexId, VertexId, bool) -> bool,
    c: Seq<(VertexId, VertexId)>,
    tb1: Seq<(Seq<[VertexId; 3]>, Seq<[Option<FaceId>; 3]>)>,
    tb2: Seq<(Seq<[VertexId; 3]>, Seq<[Option<FaceId>; 3]>)>,
    j: int,
)
    requires
        answers_functional(cr),
        answers_functional(cv),
        tb1.len() >= 1,
        tb2.len() >= 1,
        tb1[0] == tb2[0],
        forall|i: int| 0 <= i < tb1.len() - 1 ==> #[trigger] insert_ok_at(cr, cv, c, tb1, i),
        forall|i: int| 0 <= i < tb2.len() - 1 ==> #[trigger] insert_ok_at(cr, cv, c, tb2, i),
        0 <= j < tb1.len(),
        j < tb2.len(),
    ensures
        tb1[j] == tb2[j],
    decreases j,
{
    if j > 0 {
        lemma_tables_agree(cr, cv, c, tb1, tb2, j - 1);
        let i = j - 1;
        assert(insert_ok_at(cr, cv, c, tb1, i));
        assert(insert_ok_at(cr, cv, c, tb2, i));
        lemma_insert_result_unique(
            cr,
            cv,
            canon_pairs(c, i),
            c[i].0,
            c[i].1,
            tb1[i].0,
            tb1[i].1,
            true,
            tb1[j].0,
            tb1[j].1,
            true,
            tb2[j].0,
            tb2[j].1,
        );
    }
}

/// Constraining is deterministic: from the same tables, with oracles
/// that give one answer per question, two constraining outcomes agree on
/// success, and on success on the final faces.
pub proof fn lemma_constrain_outcome_deterministic<P>(
    cr: spec_fn(VertexId, VertexId, VertexId, VertexId, bool) -> bool,
    cv: spec_fn(VertexId, VertexId, VertexId, VertexId, bool) -> bool,
    ic: spec_fn(VertexId, VertexId, VertexId, VertexId, bool) -> bool,
    t1: Triangulation2<P>,
    t2: Triangulation2<P>,
    c: Seq<(VertexId, VertexId)>,
    ok1: bool,
    ff1: Seq<[VertexId; 3]>,
    ok2: bool,
    ff2: Seq<[VertexId; 3]>,
)
    requires
        answers_functional(cr),
        answers_functional(cv),
        answers_functional(ic),
        t1.spec_faces() == t2.spec_faces(),
        t1.spec_face_neighbors() == t2.spec_face_neighbors(),
        constrain_outcome(cr, cv, ic, t1, c, ok1, ff1),
        constrain_outcome(cr, cv, ic, t2, c, ok2, ff2),
    ensures
        ok1 == ok2,
        ok1 ==> ff1 == ff2,
{
    let tb1 = choose|tables: Seq<(Seq<[VertexId; 3]>, Seq<[Option<FaceId>; 3]>)>|
        #![trigger tables[0]]
        1 <= tables.len() <= c.len() + 1 && tables[0] == (t1.spec_faces(), t1.spec_face_neighbors()) && (forall|j: int|
            0 <= j < tables.len() - 1 ==> #[trigger] insert_ok_at(cr, cv, c, tables, j)) && if tables.len() - 1 < c.len() {
            let k = tables.len() - 1;
            !ok1 && exists|s: (Seq<[VertexId; 3]>, Seq<[Option<FaceId>; 3]>)|
                #[trigger] insert_result(cr, cv, canon_pairs(c, k), c[k].0, c[k].1, tables[k].0, tables[k].1, false, s.0, s.1)
        } else {
            let last = tables[tables.len() - 1];
            exists|s: (Seq<[VertexId; 3]>, Seq<[Option<FaceId>; 3]>)|
                #[trigger] restore_run(cv, ic, canon_pairs(c, c.len() as int), last, 4 * last.0.len() as int + 16, ok1, s) && (ok1
                    ==> s.0 == ff1 && tables_locally_delaunay(ic, s.0, s.1, canon_pairs(c, c.len() as int)))
        };
    let tb2 = choose|tables: Seq<(Seq<[VertexId; 3]>, Seq<[Option<FaceId>; 3]>)>|
        #![trigger tables[0]]
        1 <= tables.len() <= c.len() + 1 && tables[0] == (t2.spec_faces(), t2.spec_face_neighbors()) && (forall|j: int|
            0 <= j < tables.len() - 1 ==> #[trigger] insert_ok_at(cr, cv, c, tables, j)) && if tables.len() - 1 < c.len() {
            let k = tables.len() - 1;
            !ok2 && exists|s: (Seq<[VertexId; 3]>, Seq<[Option<FaceId>; 3]>)|
                #[trigger] insert_result(cr, cv, canon_pairs(c, k), c[k].0, c[k].1, tables[k].0, tables[k].1, false, s.0, s.1)
        } else {
            let last = tables[tables.len() - 1];
            exists|s: (Seq<[VertexId; 3]>, Seq<[Option<FaceId>; 3]>)|
                #[trigger] restore_run(cv, ic, canon_pairs(c, c.len() as int), last, 4 * last.0.len() as int + 16, ok2, s) && (ok2
                    ==> s.0 == ff2 && tables_locally_delaunay(ic, s.0, s.1, canon_pairs(c, c.len() as int)))
        };
    let l1 = tb1.len() - 1;
    let l2 = tb2.len() - 1;
    if l1 < l2 {
        lemma_tables_agree(cr, cv, c, tb1, tb2, l1);
        assert(insert_ok_at(cr, cv, c, tb2, l1));
        let s1 = choose|s: (Seq<[VertexId; 3]>, Seq<[Option<FaceId>; 3]>)|
            #[trigger] insert_result(cr, cv, canon_pairs(c, l1), c[l1].0, c[l1].1, tb1[l1].0, tb1[l1].1, false, s.0, s.1);
        lemma_insert_result_unique(
            cr,
            cv,
            canon_pairs(c, l1),
            c[l1].0,
            c[l1].1,
            tb1[l1].0,
            tb1[l1].1,
            false,
            s1.0,
            s1.1,
            true,
            tb2[l1 + 1].0,
            tb2[l1 + 1].1,
        );
    } else if l2 < l1 {
        lemma_tables_agree(cr, cv, c, tb1, tb2, l2);
        assert(insert_ok_at(cr, cv, c, tb1, l2));
        let s2 = choose|s: (Seq<[VertexId; 3]>, Seq<[Option<FaceId>; 3]>)|
            #[trigger] insert_result(cr, cv, canon_pairs(c, l2), c[l2].0, c[l2].1, tb2[l2].0, tb2[l2].1, false, s.0, s.1);
        lemma_insert_result_unique(
            cr,
            cv,
            canon_pairs(c, l2),
            c[l2].0,
            c[l2].1,
            tb2[l2].0,
            tb2[l2].1,
            false,
            s2.0,
            s2.1,
            true,
            tb1[l2 + 1].0,
            tb1[l2 + 1].1,
        );
    } else {
        lemma_tables_agree(cr, cv, c, tb1, tb2, l1);
        if l1 == c.len() {
            let last = tb1[l1];
            let all = canon_pairs(c, c.len() as int);
            let s1 = choose|s: (Seq<[VertexId; 3]>, Seq<[Option<FaceId>; 3]>)|
                #[trigger] restore_run(cv, ic, all, last, 4 * last.0.len() as int + 16, ok1, s) && (ok1 ==> s.0 == ff1
                    && tables_locally_delaunay(ic, s.0, s.1, all));
            let s2 = choose|s: (Seq<[VertexId; 3]>, Seq<[Option<FaceId>; 3]>)|
                #[trigger] restore_run(cv, ic, all, last, 4 * last.0.len() as int + 16, ok2, s) && (ok2 ==> s.0 == ff2
                    && tables_locally_delaunay(ic, s.0, s.1, all));
            lemma_restore_run_unique(cv, ic, all, last, 4 * last.0.len() as int + 16, ok1, s1, ok2, s2);
        }
    }
}

/// The first incidence of edge `e` of the table `edges`.
spec fn first_incidence(faces: Seq<[VertexId; 3]>, edges: Seq<(VertexId, VertexId)>, e: int) -> int {
    incidences(faces, edges[e])[0]
}

/// Every listed edge's first incidence is the first incidence of some
/// edge of any other table assembled from the same faces.
proof fn lemma_first_incidence_listed(
    faces: Seq<[VertexId; 3]>,
    e1: Seq<(VertexId, VertexId)>,
    ef1: Seq<[Option<FaceId>; 2]>,
    e2: Seq<(VertexId, VertexId)>,
    i: int,
) -> (j: int)
    requires
        edges_recorded(faces, e1, ef1),
        edges_cover(faces, e2),
        0 <= i < e1.len(),
    ensures
        0 <= j < e2.len(),
        first_incidence(faces, e2, j) == first_incidence(faces, e1, i),
{
    let inc = incidences(faces, e1[i]);
    assert(inc.len() >= 1);
    lemma_listed_incidence_on_edge(faces, e1[i], 3 * faces.len() as int, 0);
    let x = inc[0];
    assert(is_listed(e2, incidence_edge(faces, x)));
    let j = choose|j: int| 0 <= j < e2.len() && same_edge(#[trigger] e2[j], incidence_edge(faces, x));
    assert(e1[i] == incidence_edge(faces, x));
    lemma_incidences_congruent(faces, e2[j], e1[i], 3 * faces.len() as int);
    j
}

/// Two edge tables assembled from the same faces agree up to `i`.
proof fn lemma_edges_agree(
    faces: Seq<[VertexId; 3]>,
    e1: Seq<(VertexId, VertexId)>,
    ef1: Seq<[Option<FaceId>; 2]>,
    e2: Seq<(VertexId, VertexId)>,
    ef2: Seq<[Option<FaceId>; 2]>,
    i: int,
)
    requires
        edges_recorded(faces, e1, ef1),
        edges_ordered(faces, e1),
        edges_cover(faces, e1),
        edges_recorded(faces, e2, ef2),
        edges_ordered(faces, e2),
        edges_cover(faces, e2),
        0 <= i < e1.len(),
        i < e2.len(),
    ensures
        forall|k: int| 0 <= k <= i ==> #[trigger] e1[k] == e2[k],
    decreases i,
{
    if i > 0 {
        lemma_edges_agree(faces, e1, ef1, e2, ef2, i - 1);
    }
    let j2 = lemma_first_incidence_listed(faces, e1, ef1, e2, i);
    let j1 = lemma_first_incidence_listed(faces, e2, ef2, e1, i);
    if j2 < i {
        assert(e1[j2] == e2[j2]);
        assert(incidences(faces, e1[j2])[0] < incidences(faces, e1[i])[0]);
    }
    if j1 < i {
        assert(e1[j1] == e2[j1]);
        assert(incidences(faces, e2[j1])[0] < incidences(faces, e2[i])[0]);
    }
    if j2 > i {
        assert(incidences(faces, e2[i])[0] < incidences(faces, e2[j2])[0]);
    }
    if j1 > i {
        assert(incidences(faces, e1[i])[0] < incidences(faces, e1[j1])[0]);
    }
    let inc1 = incidences(faces, e1[i]);
    let inc2 = incidences(faces, e2[i]);
    assert(inc1[0] == inc2[0]);
    assert(e1[i] == incidence_edge(faces, inc1[0]));
    assert(e2[i] == incidence_edge(faces, inc2[0]));
}

/// The tables assembled from one face list are one: neighbors, edges and
/// each edge's faces.
pub proof fn lemma_assembled_unique(
    faces: Seq<[VertexId; 3]>,
    nb1: Seq<[Option<FaceId>; 3]>,
    e1: Seq<(VertexId, VertexId)>,
    ef1: Seq<[Option<FaceId>; 2]>,
    nb2: Seq<[Option<FaceId>; 3]>,
    e2: Seq<(VertexId, VertexId)>,
    ef2: Seq<[Option<FaceId>; 2]>,
)
    requires
        is_assembled_from(faces, nb1, e1, ef1),
        is_assembled_from(faces, nb2, e2, ef2),
    ensures
        nb1 == nb2,
        e1 == e2,
        ef1 == ef2,
{
    assert forall|i: int| 0 <= i < faces.len() implies nb1[i] == nb2[i] by {
        assert(nb1[i][0] == nb2[i][0]);
        assert(nb1[i][1] == nb2[i][1]);
        assert(nb1[i][2] == nb2[i][2]);
        assert(nb1[i] =~= nb2[i]);
    }
    assert(nb1 =~= nb2);
    if e1.len() > 0 && e2.len() > 0 {
        let m = if e1.len() < e2.len() {
            e1.len() - 1
        } else {
            e2.len() - 1
        };
        lemma_edges_agree(faces, e1, ef1, e2, ef2, m as int);
    }
    if e1.len() < e2.len() {
        let i = e1.len() as int;
        let j = lemma_first_incidence_listed(faces, e2, ef2, e1, i);
        assert(e1[j] == e2[j]);
        assert(incidences(faces, e2[j])[0] < incidences(faces, e2[i])[0]);
    } else if e2.len() < e1.len() {
        let i = e2.len() as int;
        let j = lemma_first_incidence_listed(faces, e1, ef1, e2, i);
        assert(e1[j] == e2[j]);
        assert(incidences(faces, e1[j])[0] < incidences(faces, e1[i])[0]);
    }
    assert(e1 =~= e2);
    assert forall|e: int| 0 <= e < e1.len() implies ef1[e] == ef2[e] by {
        assert(incidences(faces, e1[e]) == incidences(faces, e2[e]));
        assert(ef1[e] =~= ef2[e]);
    }
    assert(ef1 =~= ef2);
}

/// With one orientation per triple, two segments meet in one way.
proof fn lemma_segment_kind_unique<F: Fn((i64, i64), (i64, i64), (i64, i64)) -> Orientation>(
    orient: F,
    a: (i64, i64),
    b: (i64, i64),
    c: (i64, i64),
    d: (i64, i64),
    k1: SegmentIntersectionKind,
    k2: SegmentIntersectionKind,
)
    requires
        orient_deterministic(orient),
        segment_kind_answer(orient, a, b, c, d, k1),
        segment_kind_answer(orient, a, b, c, d, k2),
    ensures
        k1 == k2,
{
    let o1 = choose|o: [Orientation; 4]|
        kind_of(#[trigger] spec_classify_segments(endpoints(a, b, c, d), o)) == k1 && orient.ensures((c, d, a), o[0]) && orient.ensures((c, d, b), o[1])
            && orient.ensures((a, b, c), o[2]) && orient.ensures((a, b, d), o[3]);
    let o2 = choose|o: [Orientation; 4]|
        kind_of(#[trigger] spec_classify_segments(endpoints(a, b, c, d), o)) == k2 && orient.ensures((c, d, a), o[0]) && orient.ensures((c, d, b), o[1])
            && orient.ensures((a, b, c), o[2]) && orient.ensures((a, b, d), o[3]);
    assert(o1 =~= o2);
}

/// With one orientation per triple, the crossing answers of the
/// constrained build give one answer per question.
pub proof fn lemma_crosses_functional<F: Fn((i64, i64), (i64, i64), (i64, i64)) -> Orientation>(d: Seq<(i64, i64)>, orient: F)
    requires
        orient_deterministic(orient),
    ensures
        answers_functional(crosses_answers(d, orient)),
{
    let cr = crosses_answers(d, orient);
    assert forall|u: VertexId, w: VertexId, x: VertexId, y: VertexId, r1: bool, r2: bool|
        #![trigger cr(u, w, x, y, r1), cr(u, w, x, y, r2)]
        cr(u, w, x, y, r1) && cr(u, w, x, y, r2) implies r1 == r2 by {
        if u.0 < d.len() && w.0 < d.len() && x.0 < d.len() && y.0 < d.len() {
            let (a, b, c, e) = (d[u.0 as int], d[w.0 as int], d[x.0 as int], d[y.0 as int]);
            let k1 = choose|k: SegmentIntersectionKind|
                #[trigger] segment_kind_answer(orient, a, b, c, e, k) && r1 == (k == SegmentIntersectionKind::Proper);
            let k2 = choose|k: SegmentIntersectionKind|
                #[trigger] segment_kind_answer(orient, a, b, c, e, k) && r2 == (k == SegmentIntersectionKind::Proper);
            lemma_segment_kind_unique(orient, a, b, c, e, k1, k2);
        }
    }
}

/// With one orientation per triple, the convexity answers of the
/// constrained build give one answer per question.
pub proof fn lemma_convex_functional<F: Fn((i64, i64), (i64, i64), (i64, i64)) -> Orientation>(d: Seq<(i64, i64)>, orient: F)
    requires
        orient_deterministic(orient),
    ensures
        answers_functional(convex_answers(d, orient)),
{
    let cv = convex_answers(d, orient);
    assert forall|p: VertexId, q: VertexId, x: VertexId, y: VertexId, r1: bool, r2: bool|
        #![trigger cv(p, q, x, y, r1), cv(p, q, x, y, r2)]
        cv(p, q, x, y, r1) && cv(p, q, x, y, r2) implies r1 == r2 by {
        if p.0 < d.len() && q.0 < d.len() && x.0 < d.len() && y.0 < d.len() {
            let (a, b, c, e) = (d[p.0 as int], d[q.0 as int], d[x.0 as int], d[y.0 as int]);
            let (ox1, oy1) = choose|ox: Orientation, oy: Orientation|
                #![trigger orient.ensures((a, b, c), ox), orient.ensures((a, b, e), oy)]
                orient.ensures((a, b, c), ox) && orient.ensures((a, b, e), oy) && r1 == spec_opposite_signs(ox, oy);
            let (ox2, oy2) = choose|ox: Orientation, oy: Orientation|
                #![trigger orient.ensures((a, b, c), ox), orient.ensures((a, b, e), oy)]
                orient.ensures((a, b, c), ox) && orient.ensures((a, b, e), oy) && r2 == spec_opposite_signs(ox, oy);
            assert(ox1 == ox2 && oy1 == oy2);
        }
    }
}

/// With one sign per quadruple, the in-circle answers of the constrained
/// build give one answer per question.
pub proof fn lemma_incircle_functional<G: Fn((i64, i64), (i64, i64), (i64, i64), (i64, i64)) -> Sign>(
    d: Seq<(i64, i64)>,
    incircle: G,
)
    requires
        incircle_deterministic(incircle),
    ensures
        answers_functional(incircle_answers(d, incircle)),
{
    let ic = incircle_answers(d, incircle);
    assert forall|x: VertexId, y: VertexId, z: VertexId, w: VertexId, r1: bool, r2: bool|
        #![trigger ic(x, y, z, w, r1), ic(x, y, z, w, r2)]
        ic(x, y, z, w, r1) && ic(x, y, z, w, r2) implies r1 == r2 by {
        if x.0 < d.len() && y.0 < d.len() && z.0 < d.len() && w.0 < d.len() {
            let q = (d[x.0 as int], d[y.0 as int], d[z.0 as int], d[w.0 as int]);
            let s1 = choose|sg: Sign| #[trigger] incircle.ensures(q, sg) && r1 == (sg == Sign::Positive);
            let s2 = choose|sg: Sign| #[trigger] incircle.ensures(q, sg) && r2 == (sg == Sign::Positive);
            assert(s1 == s2);
        }
    }
}

/// A pair of constraints answered as meeting in kind `k`, one of the two
/// rejected kinds, is not clear.
proof fn lemma_not_clear<F: Fn((i64, i64), (i64, i64), (i64, i64)) -> Orientation>(
    orient: F,
    points: Seq<(i64, i64)>,
    constraints: Seq<(usize, usize)>,
    a: int,
    b: int,
    k: SegmentIntersectionKind,
)
    requires
        orient_deterministic(orient),
        constraint_kind_answer(orient, points, constraints, a, b, k),
        k == SegmentIntersectionKind::Proper || k == SegmentIntersectionKind::CollinearOverlap,
    ensures
        !constraints_pair_clear(orient, points, constraints, a, b),
{
    if constraints_pair_clear(orient, points, constraints, a, b) {
        let k2 = choose|k2: SegmentIntersectionKind|
            k2 != SegmentIntersectionKind::Proper && k2 != SegmentIntersectionKind::CollinearOverlap
                && #[trigger] constraint_kind_answer(orient, points, constraints, a, b, k2);
        lemma_segment_kind_unique(
            orient,
            points[constraints[a].0 as int],
            points[constraints[a].1 as int],
            points[constraints[b].0 as int],
            points[constraints[b].1 as int],
            k,
            k2,
        );
    }
}

/// The first bad constraint from `from` on is at most the end.
proof fn lemma_first_bad_constraint_bound(n: int, constraints: Seq<(usize, usize)>, from: int)
    requires
        0 <= from,
    ensures
        first_bad_constraint(n, constraints, from) <= constraints.len(),
    decreases constraints.len() - from,
{
    if from < constraints.len() {
        lemma_first_bad_constraint_bound(n, constraints, from + 1);
    }
}

/// With one orientation per triple, checking the constraints has one
/// outcome.
pub proof fn lemma_validation_unique<F: Fn((i64, i64), (i64, i64), (i64, i64)) -> Orientation>(
    orient: F,
    points: Seq<(i64, i64)>,
    constraints: Seq<(usize, usize)>,
    r1: Result<(), CdtError>,
    r2: Result<(), CdtError>,
)
    requires
        orient_deterministic(orient),
        validation_outcome(orient, points, constraints, r1),
        validation_outcome(orient, points, constraints, r2),
    ensures
        r1 is Ok <==> r2 is Ok,
        r1 is Err ==> r1 == r2,
{
    let m = constraints.len();
    let j = first_bad_constraint(points.len() as int, constraints, 0);
    lemma_first_bad_constraint_bound(points.len() as int, constraints, 0);
    if j < m || has_duplicate_point(points) {
        return;
    }
    if r1 == Err::<(), CdtError>(CdtError::DuplicateConstraint) || r2 == Err::<(), CdtError>(CdtError::DuplicateConstraint) {
        return;
    }
    let proper = Err::<(), CdtError>(CdtError::ProperlyCrossingConstraints);
    let overlap = Err::<(), CdtError>(CdtError::CollinearOverlappingConstraints);
    if r1 != r2 && (r1 == proper || r1 == overlap) {
        let k1 = if r1 == proper {
            SegmentIntersectionKind::Proper
        } else {
            SegmentIntersectionKind::CollinearOverlap
        };
        let (a1, b1) = choose|a: int, b: int|
            0 <= a < b < m && #[trigger] constraint_kind_answer(orient, points, constraints, a, b, k1) && clear_before(
                orient,
                points,
                constraints,
                a,
                b,
            );
        lemma_not_clear(orient, points, constraints, a1, b1, k1);
        if r2 == proper || r2 == overlap {
            let k2 = if r2 == proper {
                SegmentIntersectionKind::Proper
            } else {
                SegmentIntersectionKind::CollinearOverlap
            };
            let (a2, b2) = choose|a: int, b: int|
                0 <= a < b < m && #[trigger] constraint_kind_answer(orient, points, constraints, a, b, k2) && clear_before(
                    orient,
                    points,
                    constraints,
                    a,
                    b,
                );
            lemma_not_clear(orient, points, constraints, a2, b2, k2);
            if a1 == a2 && b1 == b2 {
                lemma_segment_kind_unique(
                    orient,
                    points[constraints[a1].0 as int],
                    points[constraints[a1].1 as int],
                    points[constraints[b1].0 as int],
                    points[constraints[b1].1 as int],
                    k1,
                    k2,
                );
                assert(k1 == k2);
                assert(false);
            } else if a1 < a2 || (a1 == a2 && b1 < b2) {
                assert(constraints_pair_clear(orient, points, constraints, a1, b1));
                assert(false);
            } else {
                assert(constraints_pair_clear(orient, points, constraints, a2, b2));
                assert(false);
            }
        } else {
            assert(r2 is Ok);
            assert(constraints_pair_clear(orient, points, constraints, a1, b1));
            assert(false);
        }
    } else if r1 != r2 && (r2 == proper || r2 == overlap) {
        let k2 = if r2 == proper {
            SegmentIntersectionKind::Proper
        } else {
            SegmentIntersectionKind::CollinearOverlap
        };
        let (a2, b2) = choose|a: int, b: int|
            0 <= a < b < m && #[trigger] constraint_kind_answer(orient, points, constraints, a, b, k2) && clear_before(
                orient,
                points,
                constraints,
                a,
                b,
            );
        lemma_not_clear(orient, points, constraints, a2, b2, k2);
        assert(r1 is Ok);
        assert(constraints_pair_clear(orient, points, constraints, a2, b2));
        assert(false);
    } else if r1 != r2 {
        assert(r1 is Ok && r2 is Ok);
    }
}

/// Over distinct points, the constraints name one sequence of vertex
/// pairs.
proof fn lemma_vertex_pairs_unique(
    d: Seq<(i64, i64)>,
    points: Seq<(i64, i64)>,
    constraints: Seq<(usize, usize)>,
    p1: Seq<(VertexId, VertexId)>,
    p2: Seq<(VertexId, VertexId)>,
)
    requires
        sorted_dedup_of(d, points),
        constraint_vertex_pairs(d, points, constraints, p1),
        constraint_vertex_pairs(d, points, constraints, p2),
    ensures
        p1 == p2,
{
    assert forall|k: int| 0 <= k < p1.len() implies p1[k] == p2[k] by {
        let (a1, b1) = p1[k];
        let (a2, b2) = p2[k];
        assert(d[a1.0 as int] == d[a2.0 as int]);
        assert(d[b1.0 as int] == d[b2.0 as int]);
        if a1.0 < a2.0 {
            assert(crate::hull::point_lt(d[a1.0 as int], d[a2.0 as int]));
        } else if a2.0 < a1.0 {
            assert(crate::hull::point_lt(d[a2.0 as int], d[a1.0 as int]));
        }
        if b1.0 < b2.0 {
            assert(crate::hull::point_lt(d[b1.0 as int], d[b2.0 as int]));
        } else if b2.0 < b1.0 {
            assert(crate::hull::point_lt(d[b2.0 as int], d[b1.0 as int]));
        }
    }
    assert(p1 =~= p2);
}

/// Two constrained triangulations with the same tables: vertices, faces,
/// neighbors, edges, each edge's faces, and constrained edges.
pub open spec fn same_constrained<P>(c1: ConstrainedTriangulation2<P>, c2: ConstrainedTriangulation2<P>) -> bool {
    let t1 = c1.spec_triangulation();
    let t2 = c2.spec_triangulation();
    &&& t1.spec_vertices() == t2.spec_vertices()
    &&& t1.spec_faces() == t2.spec_faces()
    &&& t1.spec_face_neighbors() == t2.spec_face_neighbors()
    &&& t1.spec_edges() == t2.spec_edges()
    &&& t1.spec_edge_faces() == t2.spec_edge_faces()
    &&& c1.spec_constrained() == c2.spec_constrained()
}

/// The constrained Delaunay triangulation is deterministic: with one
/// answer per question from each oracle, two outcomes of
/// [`constrained_delaunay2`] for the same points and constraints agree:
/// both fail with the same error, or both succeed with the same tables.
pub proof fn lemma_cdt_outcome_deterministic<
    F: Fn((i64, i64), (i64, i64), (i64, i64)) -> Orientation,
    G: Fn((i64, i64), (i64, i64), (i64, i64), (i64, i64)) -> Sign,
>(
    points: Seq<(i64, i64)>,
    constraints: Seq<(usize, usize)>,
    orient: F,
    incircle: G,
    r1: Result<ConstrainedTriangulation2<(i64, i64)>, CdtError>,
    r2: Result<ConstrainedTriangulation2<(i64, i64)>, CdtError>,
)
    requires
        orient_deterministic(orient),
        incircle_deterministic(incircle),
        cdt_outcome(points, constraints, orient, incircle, r1),
        cdt_outcome(points, constraints, orient, incircle, r2),
    ensures
        r1 is Ok <==> r2 is Ok,
        r1 is Err ==> r1 == r2,
        r1 matches Ok(c1) ==> r2 matches Ok(c2) && same_constrained(c1, c2),
{
    let v1 = choose|v: Result<(), CdtError>|
        #[trigger] validation_outcome(orient, points, constraints, v) && (v matches Err(e) ==> r1 == Err::<
            ConstrainedTriangulation2<(i64, i64)>,
            CdtError,
        >(e)) && (v is Ok ==> cdt_past_validation(points, constraints, orient, incircle, r1));
    let v2 = choose|v: Result<(), CdtError>|
        #[trigger] validation_outcome(orient, points, constraints, v) && (v matches Err(e) ==> r2 == Err::<
            ConstrainedTriangulation2<(i64, i64)>,
            CdtError,
        >(e)) && (v is Ok ==> cdt_past_validation(points, constraints, orient, incircle, r2));
    lemma_validation_unique(orient, points, constraints, v1, v2);
    if v1 is Ok {
        let t1 = choose|t0: Triangulation2<(i64, i64)>|
            #[trigger] delaunay_outcome(points, orient, incircle, t0) && cdt_from_delaunay(points, constraints, orient, incircle, t0, r1);
        let t2 = choose|t0: Triangulation2<(i64, i64)>|
            #[trigger] delaunay_outcome(points, orient, incircle, t0) && cdt_from_delaunay(points, constraints, orient, incircle, t0, r2);
        lemma_delaunay_order_independent(points, points, orient, incircle, t1, t2);
        lemma_assembled_unique(
            t1.spec_faces(),
            t1.spec_face_neighbors(),
            t1.spec_edges(),
            t1.spec_edge_faces(),
            t2.spec_face_neighbors(),
            t2.spec_edges(),
            t2.spec_edge_faces(),
        );
        let nf = t1.spec_faces().len();
        if 0 < nf <= 1073741819 {
            let d = t1.spec_vertices();
            let (p1, f1) = choose|pairs: Seq<(VertexId, VertexId)>, ff: Seq<[VertexId; 3]>|
                #![trigger constraint_vertex_pairs(d, points, constraints, pairs), cdt_constrained_part(orient, incircle, t1, pairs, ff, r1)]
                constraint_vertex_pairs(d, points, constraints, pairs) && cdt_constrained_part(orient, incircle, t1, pairs, ff, r1);
            let (p2, f2) = choose|pairs: Seq<(VertexId, VertexId)>, ff: Seq<[VertexId; 3]>|
                #![trigger constraint_vertex_pairs(d, points, constraints, pairs), cdt_constrained_part(orient, incircle, t2, pairs, ff, r2)]
                constraint_vertex_pairs(d, points, constraints, pairs) && cdt_constrained_part(orient, incircle, t2, pairs, ff, r2);
            lemma_vertex_pairs_unique(d, points, constraints, p1, p2);
            lemma_crosses_functional(d, orient);
            lemma_convex_functional(d, orient);
            lemma_incircle_functional(d, incircle);
            lemma_constrain_outcome_deterministic(
                crosses_answers(d, orient),
                convex_answers(d, orient),
                incircle_answers(d, incircle),
                t1,
                t2,
                p1,
                r1 is Ok,
                f1,
                r2 is Ok,
                f2,
            );
            if let Ok(c1) = r1 {
                if let Ok(c2) = r2 {
                    let u1 = c1.spec_triangulation();
                    let u2 = c2.spec_triangulation();
                    lemma_assembled_unique(
                        u1.spec_faces(),
                        u1.spec_face_neighbors(),
                        u1.spec_edges(),
                        u1.spec_edge_faces(),
                        u2.spec_face_neighbors(),
                        u2.spec_edges(),
                        u2.spec_edge_faces(),
                    );
                }
            }
        } else if nf == 0 && constraints.len() == 0 {
            if let Ok(c1) = r1 {
                if let Ok(c2) = r2 {
                    assert(t1.spec_edges() == t2.spec_edges());
                }
            }
        }
    }
}

/// The side answers `side` give at most one answer per vertex.
pub open spec fn side_functional(side: spec_fn(VertexId, bool) -> bool) -> bool {
    forall|x: VertexId, b1: bool, b2: bool| #![trigger side(x, b1), side(x, b2)] side(x, b1) && side(x, b2) ==> b1 == b2
}

/// With one orientation per triple, the interior-side answers give one
/// answer per vertex.
proof fn lemma_interior_side_functional<F: Fn((i64, i64), (i64, i64), (i64, i64)) -> Orientation>(
    d: Seq<(i64, i64)>,
    p0: (i64, i64),
    p1: (i64, i64),
    winding: Orientation,
    orient: F,
)
    requires
        orient_deterministic(orient),
    ensures
        side_functional(interior_side_answers(d, p0, p1, winding, orient)),
{
    let side = interior_side_answers(d, p0, p1, winding, orient);
    assert forall|x: VertexId, b1: bool, b2: bool| #![trigger side(x, b1), side(x, b2)] side(x, b1) && side(x, b2) implies b1
        == b2 by {
        if x.0 < d.len() {
            let o1 = choose|o: Orientation|
                #[trigger] orient.ensures((p0, p1, d[x.0 as int]), o) && b1 == match winding {
                    Orientation::CounterClockwise => o == Orientation::CounterClockwise,
                    Orientation::Clockwise => o == Orientation::Clockwise,
                    Orientation::Collinear => false,
                };
            let o2 = choose|o: Orientation|
                #[trigger] orient.ensures((p0, p1, d[x.0 as int]), o) && b2 == match winding {
                    Orientation::CounterClockwise => o == Orientation::CounterClockwise,
                    Orientation::Clockwise => o == Orientation::Clockwise,
                    Orientation::Collinear => false,
                };
            assert(o1 == o2);
        }
    }
}

/// The seed search has one outcome when the side answers give one
/// answer per vertex.
proof fn lemma_seed_unique<P>(
    t: &Triangulation2<P>,
    u: VertexId,
    v: VertexId,
    side: spec_fn(VertexId, bool) -> bool,
    r1: Option<FaceId>,
    r2: Option<FaceId>,
)
    requires
        side_functional(side),
        seed_result(t, u, v, side, r1),
        seed_result(t, u, v, side, r2),
    ensures
        r1 == r2,
{
    let e = first_edge_joining(t.spec_edges(), u, v, 0);
    if let Some(f1) = r1 {
        let ef = t.spec_edge_faces()[e->0];
        let j1 = choose|j: int|
            0 <= j < 2 && ef[j] == Some(f1) && #[trigger] seed_in_slot_by(t, ef, j, u, v, side) && forall|i: int|
                0 <= i < j ==> !(ef[i] is Some && has_third(t.spec_faces()[face_index(#[trigger] ef[i])], u, v)) || side(
                    spec_third_vertex(t.spec_faces()[face_index(ef[i])], u, v),
                    false,
                );
        let x1 = spec_third_vertex(t.spec_faces()[face_index(ef[j1])], u, v);
        assert(side(x1, true));
        if let Some(f2) = r2 {
            let j2 = choose|j: int|
                0 <= j < 2 && ef[j] == Some(f2) && #[trigger] seed_in_slot_by(t, ef, j, u, v, side) && forall|i: int|
                    0 <= i < j ==> !(ef[i] is Some && has_third(t.spec_faces()[face_index(#[trigger] ef[i])], u, v)) || side(
                        spec_third_vertex(t.spec_faces()[face_index(ef[i])], u, v),
                        false,
                    );
            let x2 = spec_third_vertex(t.spec_faces()[face_index(ef[j2])], u, v);
            assert(side(x2, true));
            if j1 < j2 {
                assert(ef[j1] is Some && has_third(t.spec_faces()[face_index(ef[j1])], u, v));
                assert(side(x1, false));
            } else if j2 < j1 {
                assert(ef[j2] is Some && has_third(t.spec_faces()[face_index(ef[j2])], u, v));
                assert(side(x2, false));
            }
        } else {
            assert(ef[j1] is Some && has_third(t.spec_faces()[face_index(ef[j1])], u, v));
            assert(side(x1, false));
        }
    } else if let Some(f2) = r2 {
        let ef = t.spec_edge_faces()[e->0];
        let j2 = choose|j: int|
            0 <= j < 2 && ef[j] == Some(f2) && #[trigger] seed_in_slot_by(t, ef, j, u, v, side) && forall|i: int|
                0 <= i < j ==> !(ef[i] is Some && has_third(t.spec_faces()[face_index(#[trigger] ef[i])], u, v)) || side(
                    spec_third_vertex(t.spec_faces()[face_index(ef[i])], u, v),
                    false,
                );
        let x2 = spec_third_vertex(t.spec_faces()[face_index(ef[j2])], u, v);
        assert(side(x2, true));
        assert(ef[j2] is Some && has_third(t.spec_faces()[face_index(ef[j2])], u, v));
        assert(side(x2, false));
    }
}

/// Two constrained triangulations with the same tables link the same
/// faces, and so reach the same faces from a seed.
proof fn lemma_reachable_same<P>(c1: ConstrainedTriangulation2<P>, c2: ConstrainedTriangulation2<P>, seed: int, f: int)
    requires
        same_constrained(c1, c2),
    ensures
        reachable(&c1, seed, f) == reachable(&c2, seed, f),
{
    assert forall|a: int, b: int| #[trigger] linked(&c1, a, b) == linked(&c2, a, b) by {
        if linked(&c1, a, b) {
            let e = choose|e: int|
                0 <= e < c1.spec_triangulation().spec_edges().len() && !c1.spec_constrained().contains(EdgeId(e as u32))
                    && #[trigger] super::polygon::link_at(c1.spec_triangulation().spec_edge_faces()[e], a, b);
            assert(super::polygon::link_at(c2.spec_triangulation().spec_edge_faces()[e], a, b));
        }
        if linked(&c2, a, b) {
            let e = choose|e: int|
                0 <= e < c2.spec_triangulation().spec_edges().len() && !c2.spec_constrained().contains(EdgeId(e as u32))
                    && #[trigger] super::polygon::link_at(c2.spec_triangulation().spec_edge_faces()[e], a, b);
            assert(super::polygon::link_at(c1.spec_triangulation().spec_edge_faces()[e], a, b));
        }
    }
    assert forall|path: Seq<int>| #[trigger] is_walk(&c1, path) == is_walk(&c2, path) by {
        if is_walk(&c1, path) {
            assert forall|j: int| 0 <= j < path.len() - 1 implies #[trigger] linked(&c2, path[j], path[j + 1]) by {
                assert(linked(&c1, path[j], path[j + 1]));
            }
        }
        if is_walk(&c2, path) {
            assert forall|j: int| 0 <= j < path.len() - 1 implies #[trigger] linked(&c1, path[j], path[j + 1]) by {
                assert(linked(&c2, path[j], path[j + 1]));
            }
        }
    }
    if reachable(&c1, seed, f) {
        let path = choose|path: Seq<int>| #[trigger] is_walk(&c1, path) && path[0] == seed && path.last() == f;
        assert(is_walk(&c2, path));
    }
    if reachable(&c2, seed, f) {
        let path = choose|path: Seq<int>| #[trigger] is_walk(&c2, path) && path[0] == seed && path.last() == f;
        assert(is_walk(&c1, path));
    }
}

/// Two triangulation results agree: both fail with the same error, or
/// both succeed with the same vertices and faces.
pub open spec fn same_triangulation_result<P>(
    r1: Result<Triangulation2<P>, PolygonTriangulationError>,
    r2: Result<Triangulation2<P>, PolygonTriangulationError>,
) -> bool {
    &&& r1 is Ok <==> r2 is Ok
    &&& r1 is Err ==> r1 == r2
    &&& r1 matches Ok(a) ==> r2 matches Ok(b) && a.spec_vertices() == b.spec_vertices() && a.spec_faces() == b.spec_faces()
}

/// Keeping the faces reachable from one seed of two constrained
/// triangulations with the same tables gives the same result.
proof fn lemma_keep_result_same<P>(
    c1: ConstrainedTriangulation2<P>,
    c2: ConstrainedTriangulation2<P>,
    seed: FaceId,
    expected: int,
    r1: Result<Triangulation2<P>, PolygonTriangulationError>,
    r2: Result<Triangulation2<P>, PolygonTriangulationError>,
)
    requires
        same_constrained(c1, c2),
        keep_result(c1, seed, expected, r1),
        keep_result(c2, seed, expected, r2),
    ensures
        same_triangulation_result(r1, r2),
{
    let t1 = c1.spec_triangulation();
    let t2 = c2.spec_triangulation();
    let fill1 = Seq::new(t1.spec_faces().len(), |f: int| reachable(&c1, seed.0 as int, f));
    let fill2 = Seq::new(t2.spec_faces().len(), |f: int| reachable(&c2, seed.0 as int, f));
    assert forall|f: int| 0 <= f < fill1.len() implies fill1[f] == fill2[f] by {
        lemma_reachable_same(c1, c2, seed.0 as int, f);
    }
    assert(fill1 =~= fill2);
}

/// With one orientation per triple, keeping the interior faces of two
/// constrained triangulations with the same tables, over distinct
/// vertices, gives the same result.
proof fn lemma_keep_outcome_same<F: Fn((i64, i64), (i64, i64), (i64, i64)) -> Orientation>(
    c1: ConstrainedTriangulation2<(i64, i64)>,
    c2: ConstrainedTriangulation2<(i64, i64)>,
    points: Seq<(i64, i64)>,
    p0: (i64, i64),
    p1: (i64, i64),
    winding: Orientation,
    orient: F,
    expected: int,
    r1: Result<Triangulation2<(i64, i64)>, PolygonTriangulationError>,
    r2: Result<Triangulation2<(i64, i64)>, PolygonTriangulationError>,
)
    requires
        orient_deterministic(orient),
        same_constrained(c1, c2),
        c1.spec_triangulation().spec_vertices().len() == 0 || sorted_dedup_of(c1.spec_triangulation().spec_vertices(), points),
        keep_outcome(c1, p0, p1, winding, orient, expected, r1),
        keep_outcome(c2, p0, p1, winding, orient, expected, r2),
    ensures
        same_triangulation_result(r1, r2),
{
    let t1 = c1.spec_triangulation();
    let t2 = c2.spec_triangulation();
    let d = t1.spec_vertices();
    if !(d.len() == 0 || !d.contains(p0) || !d.contains(p1)) {
        let side = interior_side_answers(d, p0, p1, winding, orient);
        lemma_interior_side_functional(d, p0, p1, winding, orient);
        let (u1, v1, s1) = choose|u: int, v: int, seed: Option<FaceId>|
            #![trigger seed_result(t1, VertexId(u as u32), VertexId(v as u32), side, seed)]
            0 <= u < d.len() && d[u] == p0 && 0 <= v < d.len() && d[v] == p1 && seed_result(
                t1,
                VertexId(u as u32),
                VertexId(v as u32),
                side,
                seed,
            ) && match seed {
                None => r1 == Err::<Triangulation2<(i64, i64)>, PolygonTriangulationError>(
                    PolygonTriangulationError::ConstraintInsertionFailed,
                ),
                Some(f) => keep_result(c1, f, expected, r1),
            };
        let (u2, v2, s2) = choose|u: int, v: int, seed: Option<FaceId>|
            #![trigger seed_result(t2, VertexId(u as u32), VertexId(v as u32), side, seed)]
            0 <= u < d.len() && d[u] == p0 && 0 <= v < d.len() && d[v] == p1 && seed_result(
                t2,
                VertexId(u as u32),
                VertexId(v as u32),
                side,
                seed,
            ) && match seed {
                None => r2 == Err::<Triangulation2<(i64, i64)>, PolygonTriangulationError>(
                    PolygonTriangulationError::ConstraintInsertionFailed,
                ),
                Some(f) => keep_result(c2, f, expected, r2),
            };
        if u1 < u2 {
            assert(crate::hull::point_lt(d[u1], d[u2]));
        } else if u2 < u1 {
            assert(crate::hull::point_lt(d[u2], d[u1]));
        }
        if v1 < v2 {
            assert(crate::hull::point_lt(d[v1], d[v2]));
        } else if v2 < v1 {
            assert(crate::hull::point_lt(d[v2], d[v1]));
        }
        assert(seed_result(t1, VertexId(u1 as u32), VertexId(v1 as u32), side, s2));
        lemma_seed_unique(t1, VertexId(u1 as u32), VertexId(v1 as u32), side, s1, s2);
        if let Some(f) = s1 {
            lemma_keep_result_same(c1, c2, f, expected, r1, r2);
        }
    }
}

/// A successful constrained build's vertices are the sorted distinct
/// points, or none.
proof fn lemma_cdt_ok_vertices<
    F: Fn((i64, i64), (i64, i64), (i64, i64)) -> Orientation,
    G: Fn((i64, i64), (i64, i64), (i64, i64), (i64, i64)) -> Sign,
>(
    points: Seq<(i64, i64)>,
    constraints: Seq<(usize, usize)>,
    orient: F,
    incircle: G,
    c: ConstrainedTriangulation2<(i64, i64)>,
)
    requires
        cdt_outcome(points, constraints, orient, incircle, Ok(c)),
    ensures
        c.spec_triangulation().spec_vertices().len() == 0 || sorted_dedup_of(c.spec_triangulation().spec_vertices(), points),
{
    let r = Ok::<ConstrainedTriangulation2<(i64, i64)>, CdtError>(c);
    let v = choose|v: Result<(), CdtError>|
        #[trigger] validation_outcome(orient, points, constraints, v) && (v matches Err(e) ==> r == Err::<
            ConstrainedTriangulation2<(i64, i64)>,
            CdtError,
        >(e)) && (v is Ok ==> cdt_past_validation(points, constraints, orient, incircle, r));
    let t0 = choose|t0: Triangulation2<(i64, i64)>|
        #[trigger] delaunay_outcome(points, orient, incircle, t0) && cdt_from_delaunay(points, constraints, orient, incircle, t0, r);
}

/// The polygon triangulation past the checks is deterministic: with one
/// answer per question from each oracle, two outcomes over the same
/// rings agree.
pub proof fn lemma_polygon_outcome_deterministic<
    F: Fn((i64, i64), (i64, i64), (i64, i64)) -> Orientation,
    G: Fn((i64, i64), (i64, i64), (i64, i64), (i64, i64)) -> Sign,
>(
    points: Seq<(i64, i64)>,
    constraints: Seq<(usize, usize)>,
    winding: Orientation,
    orient: F,
    incircle: G,
    expected: int,
    r1: Result<Triangulation2<(i64, i64)>, PolygonTriangulationError>,
    r2: Result<Triangulation2<(i64, i64)>, PolygonTriangulationError>,
)
    requires
        orient_deterministic(orient),
        incircle_deterministic(incircle),
        polygon_outcome(points, constraints, winding, orient, incircle, expected, r1),
        polygon_outcome(points, constraints, winding, orient, incircle, expected, r2),
    ensures
        same_triangulation_result(r1, r2),
{
    let rc1 = choose|rc: Result<ConstrainedTriangulation2<(i64, i64)>, CdtError>|
        #[trigger] cdt_outcome(points, constraints, orient, incircle, rc) && (rc is Err ==> r1 == Err::<
            Triangulation2<(i64, i64)>,
            PolygonTriangulationError,
        >(PolygonTriangulationError::ConstraintInsertionFailed)) && (rc matches Ok(c) ==> keep_outcome(
            c,
            points[0],
            points[1],
            winding,
            orient,
            expected,
            r1,
        ));
    let rc2 = choose|rc: Result<ConstrainedTriangulation2<(i64, i64)>, CdtError>|
        #[trigger] cdt_outcome(points, constraints, orient, incircle, rc) && (rc is Err ==> r2 == Err::<
            Triangulation2<(i64, i64)>,
            PolygonTriangulationError,
        >(PolygonTriangulationError::ConstraintInsertionFailed)) && (rc matches Ok(c) ==> keep_outcome(
            c,
            points[0],
            points[1],
            winding,
            orient,
            expected,
            r2,
        ));
    lemma_cdt_outcome_deterministic(points, constraints, orient, incircle, rc1, rc2);
    if let Ok(c1) = rc1 {
        if let Ok(c2) = rc2 {
            lemma_cdt_ok_vertices(points, constraints, orient, incircle, c1);
            lemma_keep_outcome_same(c1, c2, points, points[0], points[1], winding, orient, expected, r1, r2);
        }
    }
}

/// With one orientation per triple, the search for a ring's first
/// self-intersection has one outcome.
pub proof fn lemma_self_intersection_unique<F: Fn((i64, i64), (i64, i64), (i64, i64)) -> Orientation>(
    orient: F,
    ring: Seq<(i64, i64)>,
    x1: Option<PolygonSelfIntersection>,
    x2: Option<PolygonSelfIntersection>,
)
    requires
        orient_deterministic(orient),
        self_intersection_answer(orient, ring, x1),
        self_intersection_answer(orient, ring, x2),
    ensures
        x1 == x2,
{
    let n = ring.len() as int;
    if let Some(a) = x1 {
        let (i1, j1) = (a.edge_a as int, a.edge_b as int);
        let e1 = crate::segments::ring_edge(ring, i1);
        let f1 = crate::segments::ring_edge(ring, j1);
        if let Some(b) = x2 {
            let (i2, j2) = (b.edge_a as int, b.edge_b as int);
            let e2 = crate::segments::ring_edge(ring, i2);
            let f2 = crate::segments::ring_edge(ring, j2);
            if i1 == i2 && j1 == j2 {
                lemma_segment_kind_unique(orient, e1.0, e1.1, f1.0, f1.1, a.kind, b.kind);
            } else if pair_before(i1, j1, i2, j2) {
                assert(ring_pair_answer(orient, ring, ring, i1, j1, SegmentIntersectionKind::Disjoint));
                lemma_segment_kind_unique(orient, e1.0, e1.1, f1.0, f1.1, a.kind, SegmentIntersectionKind::Disjoint);
            } else {
                assert(pair_before(i2, j2, i1, j1));
                assert(ring_pair_answer(orient, ring, ring, i2, j2, SegmentIntersectionKind::Disjoint));
                lemma_segment_kind_unique(orient, e2.0, e2.1, f2.0, f2.1, b.kind, SegmentIntersectionKind::Disjoint);
            }
        } else {
            assert(ring_pair_answer(orient, ring, ring, i1, j1, SegmentIntersectionKind::Disjoint));
            lemma_segment_kind_unique(orient, e1.0, e1.1, f1.0, f1.1, a.kind, SegmentIntersectionKind::Disjoint);
        }
    } else if let Some(b) = x2 {
        let (i2, j2) = (b.edge_a as int, b.edge_b as int);
        let e2 = crate::segments::ring_edge(ring, i2);
        let f2 = crate::segments::ring_edge(ring, j2);
        assert(ring_pair_answer(orient, ring, ring, i2, j2, SegmentIntersectionKind::Disjoint));
        lemma_segment_kind_unique(orient, e2.0, e2.1, f2.0, f2.1, b.kind, SegmentIntersectionKind::Disjoint);
    }
}

/// [`triangulate_polygon`] is deterministic: with one answer per
/// question from each oracle, two results for the same ring and winding
/// agree: the same error, or the same vertices and faces.
pub proof fn lemma_triangulate_polygon_deterministic<
    F: Fn((i64, i64), (i64, i64), (i64, i64)) -> Orientation,
    G: Fn((i64, i64), (i64, i64), (i64, i64), (i64, i64)) -> Sign,
>(
    ring: Seq<(i64, i64)>,
    winding: Orientation,
    orient: F,
    incircle: G,
    r1: Result<Triangulation2<(i64, i64)>, PolygonTriangulationError>,
    r2: Result<Triangulation2<(i64, i64)>, PolygonTriangulationError>,
)
    requires
        orient_deterministic(orient),
        incircle_deterministic(incircle),
        polygon_contract(ring, winding, orient, incircle, r1),
        polygon_contract(ring, winding, orient, incircle, r2),
    ensures
        same_triangulation_result(r1, r2),
{
    if spec_ring_validity(ring, winding) is Valid {
        let x1 = choose|x: Option<PolygonSelfIntersection>|
            #[trigger] self_intersection_answer(orient, ring, x) && (x matches Some(f) ==> r1 == Err::<
                Triangulation2<(i64, i64)>,
                PolygonTriangulationError,
            >(PolygonTriangulationError::SelfIntersecting(f))) && (x is None ==> r1 is Ok || r1 == Err::<
                Triangulation2<(i64, i64)>,
                PolygonTriangulationError,
            >(PolygonTriangulationError::ConstraintInsertionFailed)) && (x is None ==> polygon_outcome(
                ring,
                super::polygon_build::ring_edge_seq(0, ring.len() as int),
                winding,
                orient,
                incircle,
                ring.len() - 2,
                r1,
            ));
        let x2 = choose|x: Option<PolygonSelfIntersection>|
            #[trigger] self_intersection_answer(orient, ring, x) && (x matches Some(f) ==> r2 == Err::<
                Triangulation2<(i64, i64)>,
                PolygonTriangulationError,
            >(PolygonTriangulationError::SelfIntersecting(f))) && (x is None ==> r2 is Ok || r2 == Err::<
                Triangulation2<(i64, i64)>,
                PolygonTriangulationError,
            >(PolygonTriangulationError::ConstraintInsertionFailed)) && (x is None ==> polygon_outcome(
                ring,
                super::polygon_build::ring_edge_seq(0, ring.len() as int),
                winding,
                orient,
                incircle,
                ring.len() - 2,
                r2,
            ));
        lemma_self_intersection_unique(orient, ring, x1, x2);
        if x1 is None {
            lemma_polygon_outcome_deterministic(
                ring,
                super::polygon_build::ring_edge_seq(0, ring.len() as int),
                winding,
                orient,
                incircle,
                ring.len() - 2,
                r1,
                r2,
            );
        }
    }
}

/// With no holes, [`triangulate_polygon_with_holes`] gives what
/// [`triangulate_polygon`] gives for the outer ring, when each oracle
/// gives one answer per question: the same error, or the same vertices
/// and faces.
pub proof fn lemma_no_holes_matches_polygon<
    F: Fn((i64, i64), (i64, i64), (i64, i64)) -> Orientation,
    G: Fn((i64, i64), (i64, i64), (i64, i64), (i64, i64)) -> Sign,
>(
    outer: Seq<(i64, i64)>,
    winding: Orientation,
    orient: F,
    incircle: G,
    r1: Result<Triangulation2<(i64, i64)>, PolygonTriangulationError>,
    r2: Result<Triangulation2<(i64, i64)>, PolygonTriangulationError>,
)
    requires
        orient_deterministic(orient),
        incircle_deterministic(incircle),
        polygon_contract(outer, winding, orient, incircle, r1),
        polygon_with_holes_contract(
            outer,
            winding,
            Seq::<Vec<(i64, i64)>>::empty(),
            Seq::<Orientation>::empty(),
            orient,
            incircle,
            r2,
        ),
    ensures
        same_triangulation_result(r1, r2),
{
    let no_holes = Seq::<Vec<(i64, i64)>>::empty();
    if spec_ring_validity(outer, winding) is Valid {
        let edges = super::polygon_build::ring_edge_seq(0, outer.len() as int);
        let x1 = choose|x: Option<PolygonSelfIntersection>|
            #[trigger] self_intersection_answer(orient, outer, x) && (x matches Some(f) ==> r1 == Err::<
                Triangulation2<(i64, i64)>,
                PolygonTriangulationError,
            >(PolygonTriangulationError::SelfIntersecting(f))) && (x is None ==> r1 is Ok || r1 == Err::<
                Triangulation2<(i64, i64)>,
                PolygonTriangulationError,
            >(PolygonTriangulationError::ConstraintInsertionFailed)) && (x is None ==> polygon_outcome(
                outer,
                edges,
                winding,
                orient,
                incircle,
                outer.len() - 2,
                r1,
            ));
        let x2 = choose|x: Option<PolygonSelfIntersection>|
            #[trigger] self_intersection_answer(orient, outer, x) && (x matches Some(f) ==> r2 == Err::<
                Triangulation2<(i64, i64)>,
                PolygonTriangulationError,
            >(PolygonTriangulationError::SelfIntersecting(f)));
        lemma_self_intersection_unique(orient, outer, x1, x2);
        if x1 is None {
            if let Err(e) = r2 {
                if let PolygonTriangulationError::SelfIntersecting(f) = e {
                    lemma_self_intersection_unique(orient, outer, x1, Some(f));
                }
            }
            assert(r2 is Ok || r2 == Err::<Triangulation2<(i64, i64)>, PolygonTriangulationError>(
                PolygonTriangulationError::ConstraintInsertionFailed,
            ));
            lemma_no_holes_same_outcome(outer, winding, orient, incircle, r2);
            lemma_polygon_outcome_deterministic(outer, edges, winding, orient, incircle, outer.len() - 2, r1, r2);
        }
    }
}

} // verus!
