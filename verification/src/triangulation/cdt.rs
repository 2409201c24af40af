use vstd::prelude::*;

use super::topology::{incidence_edge, local_edge, same_edge, slot, Triangulation2};
use crate::ids::{EdgeId, FaceId, VertexId};
use crate::kinds::SegmentIntersectionKind;

verus! {

/// Why building a constrained Delaunay triangulation rejected its input
/// or failed to build a result.
#[derive(Debug, Clone, Copy, PartialEq, Eq, Structural)]
pub enum CdtError {
    /// A constraint referenced an index `>= points.len()`, or the points
    /// contain a duplicate coordinate.
    InvalidVertexIndex,
    /// The same unordered vertex pair appears more than once among the
    /// constraints.
    DuplicateConstraint,
    /// A constraint's two indices are equal.
    ZeroLengthConstraint,
    /// Two distinct constraint segments properly cross each other.
    ProperlyCrossingConstraints,
    /// Two distinct constraint segments are collinear and overlap along a
    /// sub-segment.
    CollinearOverlappingConstraints,
    /// The points admit no triangle (fewer than 3, or all collinear)
    /// while constraints were given.
    DegeneratePointSet,
    /// A constraint could not be realized by edge flipping within the
    /// bounded number of attempts.
    ConstraintInsertionFailed,
}

/// The canonical (smaller index first) form of the vertex pair `(u, v)`.
pub open spec fn spec_canon(u: VertexId, v: VertexId) -> (VertexId, VertexId) {
    if u.0 <= v.0 {
        (u, v)
    } else {
        (v, u)
    }
}

/// The canonical form of the vertex pair `(u, v)`: smaller index first.
pub fn canon(u: VertexId, v: VertexId) -> (r: (VertexId, VertexId))
    ensures
        r == spec_canon(u, v),
{
    if u.0 <= v.0 {
        (u, v)
    } else {
        (v, u)
    }
}

/// Face `f` has `x` among its three vertices.
pub open spec fn face_has(f: [VertexId; 3], x: VertexId) -> bool {
    f[0] == x || f[1] == x || f[2] == x
}

fn face_has_exec(f: [VertexId; 3], x: VertexId) -> (r: bool)
    ensures
        r == face_has(f, x),
{
    f[0] == x || f[1] == x || f[2] == x
}

/// Some face has both `u` and `v` among its vertices.
pub open spec fn spec_edge_exists(faces: Seq<[VertexId; 3]>, u: VertexId, v: VertexId) -> bool {
    exists|i: int| 0 <= i < faces.len() && face_has(#[trigger] faces[i], u) && face_has(faces[i], v)
}

/// `true` iff some face has both `u` and `v` among its vertices.
pub fn edge_exists(faces: &Vec<[VertexId; 3]>, u: VertexId, v: VertexId) -> (r: bool)
    ensures
        r == spec_edge_exists(faces@, u, v),
{
    let mut i: usize = 0;
    while i < faces.len()
        invariant
            i <= faces.len(),
            forall|j: int| 0 <= j < i ==> !(face_has(#[trigger] faces@[j], u) && face_has(faces@[j], v)),
        decreases faces.len() - i,
    {
        if face_has_exec(faces[i], u) && face_has_exec(faces[i], v) {
            return true;
        }
        i += 1;
    }
    false
}


/// `v` holds `key`.
pub fn contains_pair(v: &Vec<(VertexId, VertexId)>, key: (VertexId, VertexId)) -> (r: bool)
    ensures
        r == v@.contains(key),
{
    let mut i: usize = 0;
    while i < v.len()
        invariant
            i <= v.len(),
            forall|j: int| 0 <= j < i ==> #[trigger] v@[j] != key,
        decreases v.len() - i,
    {
        if v[i].0 == key.0 && v[i].1 == key.1 {
            assert(v@[i as int] == key);
            return true;
        }
        i += 1;
    }
    false
}

/// Incidence `t` has a neighbor across it and its edge is `(a, b)` in
/// either direction.
pub open spec fn interior_match(
    faces: Seq<[VertexId; 3]>,
    nb: Seq<[Option<FaceId>; 3]>,
    a: VertexId,
    b: VertexId,
    t: int,
) -> bool {
    slot(nb, t) is Some && same_edge(incidence_edge(faces, t), (a, b))
}

/// What [`adjacent_faces_of_edge`] gives: none when no incidence lies on
/// `(a, b)` with a neighbor across it; otherwise the first such
/// incidence's face and that neighbor.
pub open spec fn adjacent_result(
    faces: Seq<[VertexId; 3]>,
    nb: Seq<[Option<FaceId>; 3]>,
    a: VertexId,
    b: VertexId,
    r: Option<(FaceId, FaceId)>,
) -> bool {
    match r {
        None => forall|t: int| 0 <= t < 3 * faces.len() ==> !#[trigger] interior_match(faces, nb, a, b, t),
        Some((fa, fb)) => exists|t: int|
            0 <= t < 3 * faces.len() && #[trigger] interior_match(faces, nb, a, b, t) && (forall|t2: int|
                0 <= t2 < t ==> !#[trigger] interior_match(faces, nb, a, b, t2)) && fa == FaceId((t / 3) as u32) && slot(nb, t)
                == Some(fb),
    }
}

/// The two faces currently incident to the edge `(a, b)`, found at the
/// first incidence (face by face, local edge by local edge) that lies on
/// `(a, b)` and has a neighbor across it: that incidence's face and its
/// neighbor. `None` if no incidence qualifies.
pub fn adjacent_faces_of_edge(
    faces: &Vec<[VertexId; 3]>,
    face_neighbors: &Vec<[Option<FaceId>; 3]>,
    a: VertexId,
    b: VertexId,
) -> (r: Option<(FaceId, FaceId)>)
    requires
        face_neighbors.len() == faces.len(),
        3 * faces.len() <= usize::MAX,
    ensures
        adjacent_result(faces@, face_neighbors@, a, b, r),
{
    let n3 = faces.len() * 3;
    let mut t: usize = 0;
    while t < n3
        invariant
            n3 == 3 * faces.len(),
            face_neighbors.len() == faces.len(),
            t <= n3,
            forall|t2: int| 0 <= t2 < t ==> !#[trigger] interior_match(faces@, face_neighbors@, a, b, t2),
        decreases n3 - t,
    {
        let i = t / 3;
        let k = t % 3;
        if let Some(fb) = face_neighbors[i][k] {
            let face = faces[i];
            let x = face[(k + 1) % 3];
            let y = face[(k + 2) % 3];
            proof {
                assert(incidence_edge(faces@, t as int) == (x, y));
            }
            if (x == a && y == b) || (x == b && y == a) {
                proof {
                    assert(interior_match(faces@, face_neighbors@, a, b, t as int));
                }
                return Some((FaceId(i as u32), fb));
            }
        }
        t += 1;
    }
    None
}


/// The canonical vertex pair of incidence `t`'s edge.
pub open spec fn canon_of(faces: Seq<[VertexId; 3]>, t: int) -> (VertexId, VertexId) {
    spec_canon(incidence_edge(faces, t).0, incidence_edge(faces, t).1)
}

/// No earlier incidence with a neighbor has the same canonical pair.
pub open spec fn first_of_key(faces: Seq<[VertexId; 3]>, nb: Seq<[Option<FaceId>; 3]>, t: int) -> bool {
    forall|t2: int| 0 <= t2 < t && (#[trigger] slot(nb, t2)) is Some ==> canon_of(faces, t2) != canon_of(faces, t)
}

/// Incidence `t` is reported as an unconstrained interior edge: it has
/// a neighbor across it, it is the first such incidence of its edge, and
/// its edge is not constrained.
pub open spec fn reported_interior(
    faces: Seq<[VertexId; 3]>,
    nb: Seq<[Option<FaceId>; 3]>,
    constrained: Seq<(VertexId, VertexId)>,
    t: int,
) -> bool {
    &&& slot(nb, t) is Some
    &&& first_of_key(faces, nb, t)
    &&& !constrained.contains(canon_of(faces, t))
}

/// What is reported for incidence `t`: its canonical pair, its face and
/// the neighbor across it.
pub open spec fn interior_entry(
    faces: Seq<[VertexId; 3]>,
    nb: Seq<[Option<FaceId>; 3]>,
    t: int,
) -> (VertexId, VertexId, FaceId, FaceId) {
    (canon_of(faces, t).0, canon_of(faces, t).1, FaceId((t / 3) as u32), slot(nb, t)->0)
}

/// The reports for the first `m` incidences.
pub open spec fn interior_reports(
    faces: Seq<[VertexId; 3]>,
    nb: Seq<[Option<FaceId>; 3]>,
    constrained: Seq<(VertexId, VertexId)>,
    m: int,
) -> Seq<(VertexId, VertexId, FaceId, FaceId)> {
    Seq::new(m as nat, |t: int| t).filter(|t: int| reported_interior(faces, nb, constrained, t)).map_values(
        |t: int| interior_entry(faces, nb, t),
    )
}

/// Every undirected interior edge (one with a neighbor across it) not in
/// `constrained_pairs`, once each, as `(u, v, fa, fb)`: its canonical
/// vertex pair, the face where it is first met and the neighbor across
/// it there. Edges are reported in order of first appearance; an edge
/// met first with a neighbor is decided there, constrained or not.
pub fn unconstrained_interior_edges(
    faces: &Vec<[VertexId; 3]>,
    face_neighbors: &Vec<[Option<FaceId>; 3]>,
    constrained_pairs: &Vec<(VertexId, VertexId)>,
) -> (r: Vec<(VertexId, VertexId, FaceId, FaceId)>)
    requires
        face_neighbors.len() == faces.len(),
        3 * faces.len() <= usize::MAX,
    ensures
        r@ == interior_reports(faces@, face_neighbors@, constrained_pairs@, 3 * faces.len()),
{
    let n3 = faces.len() * 3;
    let mut found: Vec<(VertexId, VertexId, FaceId, FaceId)> = Vec::new();
    let mut seen: Vec<(VertexId, VertexId)> = Vec::new();
    let mut t: usize = 0;
    while t < n3
        invariant
            n3 == 3 * faces.len(),
            face_neighbors.len() == faces.len(),
            t <= n3,
            found@ == interior_reports(faces@, face_neighbors@, constrained_pairs@, t as int),
            forall|key: (VertexId, VertexId)|
                #[trigger] seen@.contains(key) <==> exists|t2: int|
                    0 <= t2 < t && (#[trigger] slot(face_neighbors@, t2)) is Some && canon_of(faces@, t2) == key,
        decreases n3 - t,
    {
        let i = t / 3;
        let k = t % 3;
        let ghost pred = |x: int| reported_interior(faces@, face_neighbors@, constrained_pairs@, x);
        let ghost ent = |x: int| interior_entry(faces@, face_neighbors@, x);
        proof {
            let prefix = Seq::new(t as nat, |x: int| x);
            assert(Seq::new((t + 1) as nat, |x: int| x) =~= prefix.push(t as int));
            prefix.lemma_filter_push(t as int, pred);
            prefix.filter(pred).lemma_push_map_commute(ent, t as int);
        }
        let ghost old_seen = seen@;
        if let Some(fb) = face_neighbors[i][k] {
            let face = faces[i];
            let key = canon(face[(k + 1) % 3], face[(k + 2) % 3]);
            proof {
                assert(incidence_edge(faces@, t as int) == (face[(k + 1) % 3], face[(k + 2) % 3]));
                assert(key == canon_of(faces@, t as int));
            }
            let already = contains_pair(&seen, key);
            proof {
                if !already {
                    assert forall|t2: int| 0 <= t2 < t && (#[trigger] slot(face_neighbors@, t2)) is Some implies canon_of(
                        faces@,
                        t2,
                    ) != canon_of(faces@, t as int) by {
                        if canon_of(faces@, t2) == key {
                            assert(seen@.contains(key));
                        }
                    }
                    assert(first_of_key(faces@, face_neighbors@, t as int));
                } else {
                    assert(seen@.contains(key));
                    let t2 = choose|t2: int|
                        0 <= t2 < t && (#[trigger] slot(face_neighbors@, t2)) is Some && canon_of(faces@, t2) == key;
                    assert(!first_of_key(faces@, face_neighbors@, t as int));
                }
            }
            if !already {
                seen.push(key);
                let constrained = contains_pair(constrained_pairs, key);
                if !constrained {
                    found.push((key.0, key.1, FaceId(i as u32), fb));
                }
            }
            proof {
                assert forall|key2: (VertexId, VertexId)|
                    #[trigger] seen@.contains(key2) <==> exists|t2: int|
                        0 <= t2 < t + 1 && (#[trigger] slot(face_neighbors@, t2)) is Some && canon_of(faces@, t2) == key2 by {
                    if seen@.contains(key2) {
                        if old_seen.contains(key2) {
                            let t3 = choose|t3: int|
                                0 <= t3 < t && (#[trigger] slot(face_neighbors@, t3)) is Some && canon_of(faces@, t3) == key2;
                            assert(0 <= t3 < t + 1);
                        } else {
                            let j = choose|j: int| 0 <= j < seen@.len() && seen@[j] == key2;
                            if j < old_seen.len() {
                                assert(old_seen[j] == key2);
                            }
                            assert(j == seen@.len() - 1);
                            assert(key2 == key);
                            assert(slot(face_neighbors@, t as int) is Some);
                        }
                    }
                    if exists|t2: int|
                        0 <= t2 < t + 1 && (#[trigger] slot(face_neighbors@, t2)) is Some && canon_of(faces@, t2) == key2 {
                        let t2 = choose|t2: int|
                            0 <= t2 < t + 1 && (#[trigger] slot(face_neighbors@, t2)) is Some && canon_of(faces@, t2) == key2;
                        if t2 < t {
                            assert(old_seen.contains(key2));
                            let j = choose|j: int| 0 <= j < old_seen.len() && old_seen[j] == key2;
                            assert(seen@[j] == key2);
                        } else {
                            assert(key2 == key);
                            if !already {
                                assert(seen@[seen@.len() - 1] == key);
                            }
                        }
                    }
                }
            }
        } else {
            proof {
                assert(!pred(t as int));
                assert forall|key2: (VertexId, VertexId)|
                    #[trigger] seen@.contains(key2) <==> exists|t2: int|
                        0 <= t2 < t + 1 && (#[trigger] slot(face_neighbors@, t2)) is Some && canon_of(faces@, t2) == key2 by {
                    if exists|t2: int|
                        0 <= t2 < t + 1 && (#[trigger] slot(face_neighbors@, t2)) is Some && canon_of(faces@, t2) == key2 {
                        let t2 = choose|t2: int|
                            0 <= t2 < t + 1 && (#[trigger] slot(face_neighbors@, t2)) is Some && canon_of(faces@, t2) == key2;
                        assert(t2 < t);
                    }
                }
            }
        }
        t += 1;
    }
    found
}


/// The position (0, 1 or 2) of the first vertex of `a` that is not a
/// vertex of `b`; 3 if every vertex of `a` is in `b`.
pub open spec fn apex_index(a: [VertexId; 3], b: [VertexId; 3]) -> int {
    if !face_has(b, a[0]) {
        0
    } else if !face_has(b, a[1]) {
        1
    } else if !face_has(b, a[2]) {
        2
    } else {
        3
    }
}

fn apex_index_exec(a: [VertexId; 3], b: [VertexId; 3]) -> (r: usize)
    ensures
        r == apex_index(a, b),
{
    if !face_has_exec(b, a[0]) {
        0
    } else if !face_has_exec(b, a[1]) {
        1
    } else if !face_has_exec(b, a[2]) {
        2
    } else {
        3
    }
}

/// `a` and `b` each have a vertex the other lacks, and that vertex of
/// `a` occurs in `a` only once.
pub open spec fn apexes_defined(a: [VertexId; 3], b: [VertexId; 3]) -> bool {
    &&& apex_index(a, b) < 3
    &&& apex_index(b, a) < 3
    &&& forall|j: int| 0 <= j < 3 && j != apex_index(a, b) ==> #[trigger] a[j] != a[apex_index(a, b)]
}

/// The two vertices of `a` other than the one at position `i`, in order.
pub open spec fn others(a: [VertexId; 3], i: int) -> (VertexId, VertexId) {
    if i == 0 {
        (a[1], a[2])
    } else if i == 1 {
        (a[0], a[2])
    } else {
        (a[0], a[1])
    }
}

/// The vertices shared by faces `fa` and `fb` and each face's own apex:
/// `(shared_a, shared_b, apex_of_fa, apex_of_fb)`. The apex of a face is
/// its first vertex (in stored order) that the other face lacks; the two
/// shared values are the other two vertices of `fa`, in stored order.
pub fn shared_and_apex(faces: &Vec<[VertexId; 3]>, fa: FaceId, fb: FaceId) -> (r: (
    VertexId,
    VertexId,
    VertexId,
    VertexId,
))
    requires
        (fa.0 as int) < faces.len(),
        (fb.0 as int) < faces.len(),
        apexes_defined(faces@[fa.0 as int], faces@[fb.0 as int]),
    ensures
        ({
            let a = faces@[fa.0 as int];
            let b = faces@[fb.0 as int];
            let ia = apex_index(a, b);
            &&& r.2 == a[ia]
            &&& r.3 == b[apex_index(b, a)]
            &&& (r.0, r.1) == others(a, ia)
        }),
{
    let tri_a = faces[fa.0 as usize];
    let tri_b = faces[fb.0 as usize];
    let ia = apex_index_exec(tri_a, tri_b);
    let ib = apex_index_exec(tri_b, tri_a);
    let p = tri_a[ia];
    let q = tri_b[ib];
    let shared = if ia == 0 {
        (tri_a[1], tri_a[2])
    } else if ia == 1 {
        (tri_a[0], tri_a[2])
    } else {
        (tri_a[0], tri_a[1])
    };
    (shared.0, shared.1, p, q)
}

/// `row` with its first entry equal to `from` replaced by `to`.
pub open spec fn replace_first(row: [Option<FaceId>; 3], from: Option<FaceId>, to: Option<FaceId>) -> [Option<FaceId>; 3] {
    if row[0] == from {
        [to, row[1], row[2]]
    } else if row[1] == from {
        [row[0], to, row[2]]
    } else {
        [row[0], row[1], to]
    }
}

/// `row` has an entry equal to `x`.
pub open spec fn row_has(row: [Option<FaceId>; 3], x: Option<FaceId>) -> bool {
    row[0] == x || row[1] == x || row[2] == x
}

/// The neighbor table after fixing the back pointer of `outer` (if any)
/// from `from` to `to`.
pub open spec fn fix_back_pointer(
    nb: Seq<[Option<FaceId>; 3]>,
    outer: Option<FaceId>,
    from: Option<FaceId>,
    to: Option<FaceId>,
) -> Seq<[Option<FaceId>; 3]> {
    match outer {
        Some(o) => nb.update(o.0 as int, replace_first(nb[o.0 as int], from, to)),
        None => nb,
    }
}

/// The back pointer of `outer` (if any) can be fixed: it is a face whose
/// row holds `from`.
pub open spec fn back_pointer_present(nb: Seq<[Option<FaceId>; 3]>, outer: Option<FaceId>, from: Option<FaceId>) -> bool {
    match outer {
        Some(o) => (o.0 as int) < nb.len() && row_has(nb[o.0 as int], from),
        None => true,
    }
}

fn replace_first_in(nb: &mut Vec<[Option<FaceId>; 3]>, o: usize, from: Option<FaceId>, to: Option<FaceId>)
    requires
        o < old(nb).len(),
        row_has(old(nb)@[o as int], from),
    ensures
        final(nb)@ == old(nb)@.update(o as int, replace_first(old(nb)@[o as int], from, to)),
{
    let row = nb[o];
    let new_row = if row[0] == from {
        [to, row[1], row[2]]
    } else if row[1] == from {
        [row[0], to, row[2]]
    } else {
        [row[0], row[1], to]
    };
    nb.set(o, new_row);
}

/// The preconditions of a flip of the edge shared by faces `fa` and
/// `fb`: both faces exist and have apexes, `fb` runs through the shared
/// vertices in the opposite direction to `fa`, and the two outer faces
/// whose back pointers move (if present) hold those back pointers.
pub open spec fn flip_ok(
    faces: Seq<[VertexId; 3]>,
    nb: Seq<[Option<FaceId>; 3]>,
    fa: FaceId,
    fb: FaceId,
) -> bool {
    let a = faces[fa.0 as int];
    let b = faces[fb.0 as int];
    let pa = apex_index(a, b);
    let pb = apex_index(b, a);
    let nb1 = flipped_rows(faces, nb, fa, fb);
    &&& (fa.0 as int) < faces.len()
    &&& (fb.0 as int) < faces.len()
    &&& nb.len() == faces.len()
    &&& apexes_defined(a, b)
    &&& b[(pb + 1) % 3] == a[(pa + 2) % 3]
    &&& b[(pb + 2) % 3] == a[(pa + 1) % 3]
    &&& back_pointer_present(nb1, nb[fb.0 as int][(pb + 1) % 3], Some(fb))
    &&& back_pointer_present(
        fix_back_pointer(nb1, nb[fb.0 as int][(pb + 1) % 3], Some(fb), Some(fa)),
        nb[fa.0 as int][(pa + 1) % 3],
        Some(fa),
    )
}

/// The neighbor table with the two flipped faces' rows rewritten.
pub open spec fn flipped_rows(
    faces: Seq<[VertexId; 3]>,
    nb: Seq<[Option<FaceId>; 3]>,
    fa: FaceId,
    fb: FaceId,
) -> Seq<[Option<FaceId>; 3]> {
    let a = faces[fa.0 as int];
    let b = faces[fb.0 as int];
    let pa = apex_index(a, b);
    let pb = apex_index(b, a);
    let na = nb[fa.0 as int];
    let nbb = nb[fb.0 as int];
    nb.update(fa.0 as int, [nbb[(pb + 1) % 3], Some(fb), na[(pa + 2) % 3]]).update(
        fb.0 as int,
        [nbb[(pb + 2) % 3], na[(pa + 1) % 3], Some(fa)],
    )
}

/// The neighbor table after flipping the edge shared by `fa` and `fb`:
/// the two rebuilt rows, and the back pointers of the two outer faces
/// that change sides.
pub open spec fn flipped_neighbors(
    faces: Seq<[VertexId; 3]>,
    nb: Seq<[Option<FaceId>; 3]>,
    fa: FaceId,
    fb: FaceId,
) -> Seq<[Option<FaceId>; 3]> {
    let a = faces[fa.0 as int];
    let b = faces[fb.0 as int];
    let pa = apex_index(a, b);
    let pb = apex_index(b, a);
    let nb1 = flipped_rows(faces, nb, fa, fb);
    let nb2 = fix_back_pointer(nb1, nb[fb.0 as int][(pb + 1) % 3], Some(fb), Some(fa));
    fix_back_pointer(nb2, nb[fa.0 as int][(pa + 1) % 3], Some(fa), Some(fb))
}

/// Flips the edge shared by faces `fa` and `fb` to the other diagonal of
/// their quadrilateral. With `p` the apex of `fa`, `q` the apex of `fb`,
/// and `u`, `v` the vertices after `p` in `fa`, `fa` becomes `[p, u, q]`
/// and `fb` becomes `[p, q, v]` (both keep their ids); their neighbor
/// rows are rebuilt from the four outer neighbors, and the two outer
/// faces that change sides get their back pointer updated.
pub fn flip_edge(
    faces: &mut Vec<[VertexId; 3]>,
    face_neighbors: &mut Vec<[Option<FaceId>; 3]>,
    fa: FaceId,
    fb: FaceId,
)
    requires
        flip_ok(old(faces)@, old(face_neighbors)@, fa, fb),
    ensures
        ({
            let a = old(faces)@[fa.0 as int];
            let b = old(faces)@[fb.0 as int];
            let pa = apex_index(a, b);
            let pb = apex_index(b, a);
            let p = a[pa];
            let q = b[pb];
            let u = a[(pa + 1) % 3];
            let v = a[(pa + 2) % 3];
            let nb1 = flipped_rows(old(faces)@, old(face_neighbors)@, fa, fb);
            let nb2 = fix_back_pointer(nb1, old(face_neighbors)@[fb.0 as int][(pb + 1) % 3], Some(fb), Some(fa));
            &&& final(faces)@ == old(faces)@.update(fa.0 as int, [p, u, q]).update(fb.0 as int, [p, q, v])
            &&& final(face_neighbors)@ == fix_back_pointer(
                nb2,
                old(face_neighbors)@[fa.0 as int][(pa + 1) % 3],
                Some(fa),
                Some(fb),
            )
        }),
{
    let ia = fa.0 as usize;
    let ib = fb.0 as usize;
    let old_fa = faces[ia];
    let old_fb = faces[ib];
    let old_na = face_neighbors[ia];
    let old_nb = face_neighbors[ib];

    let pa = apex_index_exec(old_fa, old_fb);
    let pb = apex_index_exec(old_fb, old_fa);
    let p = old_fa[pa];
    let q = old_fb[pb];
    let u = old_fa[(pa + 1) % 3];
    let v = old_fa[(pa + 2) % 3];
    let n_opp_u = old_na[(pa + 1) % 3];
    let n_opp_v = old_na[(pa + 2) % 3];
    let n_opp_v_in_fb = old_nb[(pb + 1) % 3];
    let n_opp_u_in_fb = old_nb[(pb + 2) % 3];

    faces.set(ia, [p, u, q]);
    faces.set(ib, [p, q, v]);
    face_neighbors.set(ia, [n_opp_v_in_fb, Some(fb), n_opp_v]);
    face_neighbors.set(ib, [n_opp_u_in_fb, n_opp_u, Some(fa)]);

    if let Some(outer) = n_opp_v_in_fb {
        replace_first_in(face_neighbors, outer.0 as usize, Some(fb), Some(fa));
    }
    if let Some(outer) = n_opp_u {
        replace_first_in(face_neighbors, outer.0 as usize, Some(fa), Some(fb));
    }
}


/// A triangulation plus a marked set of edges that were realized as
/// constraints and are never flipped away.
#[derive(Debug)]
pub struct ConstrainedTriangulation2<P> {
    triangulation: Triangulation2<P>,
    constrained_edges: Vec<EdgeId>,
}

/// The edge ids of `edges` whose canonical vertex pair is in `pairs`,
/// in edge order.
pub open spec fn constrained_ids(edges: Seq<(VertexId, VertexId)>, pairs: Seq<(VertexId, VertexId)>) -> Seq<EdgeId> {
    Seq::new(edges.len(), |i: int| EdgeId(i as u32)).filter(
        |id: EdgeId| pairs.contains(spec_canon(edges[id.0 as int].0, edges[id.0 as int].1)),
    )
}

impl<P> ConstrainedTriangulation2<P> {
    /// The underlying triangulation.
    pub closed spec fn spec_triangulation(&self) -> &Triangulation2<P> {
        &self.triangulation
    }

    /// The constrained edges, in edge order.
    pub closed spec fn spec_constrained(&self) -> Seq<EdgeId> {
        self.constrained_edges@
    }

    /// Marks as constrained every edge of `triangulation` whose canonical
    /// vertex pair is in `constrained_pairs`.
    pub fn new(triangulation: Triangulation2<P>, constrained_pairs: &Vec<(VertexId, VertexId)>) -> (r: Self)
        ensures
            r.spec_triangulation() == triangulation,
            r.spec_constrained() == constrained_ids(triangulation.spec_edges(), constrained_pairs@),
    {
        let ids = triangulation.edges();
        let ghost edges = triangulation.spec_edges();
        let ghost pred = |id: EdgeId| constrained_pairs@.contains(spec_canon(edges[id.0 as int].0, edges[id.0 as int].1));
        let ghost all = Seq::new(edges.len(), |i: int| EdgeId(i as u32));
        let mut constrained_edges: Vec<EdgeId> = Vec::new();
        let mut i: usize = 0;
        assert(ids@ =~= all);
        while i < ids.len()
            invariant
                i <= ids.len(),
                ids@ == all,
                all == Seq::new(edges.len(), |i: int| EdgeId(i as u32)),
                all.len() == edges.len(),
                edges == triangulation.spec_edges(),
                pred == (|id: EdgeId| constrained_pairs@.contains(spec_canon(edges[id.0 as int].0, edges[id.0 as int].1))),
                constrained_edges@ == all.take(i as int).filter(pred),
                all.len() <= u32::MAX,
            decreases ids.len() - i,
        {
            let id = ids[i];
            assert(all[i as int] == EdgeId(i as u32));
            assert(id.0 as int == i as int);
            let (u, v) = triangulation.edge_vertices(id);
            let key = canon(u, v);
            proof {
                assert(all.take(i + 1) =~= all.take(i as int).push(all[i as int]));
                all.take(i as int).lemma_filter_push(all[i as int], pred);
            }
            if contains_pair(constrained_pairs, key) {
                constrained_edges.push(id);
            }
            i += 1;
        }
        proof {
            assert(all.take(i as int) =~= all);
        }
        ConstrainedTriangulation2 { triangulation, constrained_edges }
    }

    /// The underlying triangulation, taking this one apart.
    pub(crate) fn into_triangulation(self) -> (r: Triangulation2<P>)
        ensures
            r == *self.spec_triangulation(),
    {
        self.triangulation
    }

    /// The underlying triangulation.
    pub fn triangulation(&self) -> (r: &Triangulation2<P>)
        ensures
            r == self.spec_triangulation(),
    {
        &self.triangulation
    }

    /// `true` iff `edge` is one of the constraint edges.
    pub fn is_constrained(&self, edge: EdgeId) -> (r: bool)
        ensures
            r == self.spec_constrained().contains(edge),
    {
        let mut i: usize = 0;
        while i < self.constrained_edges.len()
            invariant
                i <= self.constrained_edges.len(),
                forall|j: int| 0 <= j < i ==> #[trigger] self.constrained_edges@[j] != edge,
            decreases self.constrained_edges.len() - i,
        {
            if self.constrained_edges[i] == edge {
                assert(self.constrained_edges@[i as int] == edge);
                return true;
            }
            i += 1;
        }
        false
    }
}

/// The first constraint at or after `from` that is out of range or
/// zero-length, or `constraints.len()` if none is.
pub open spec fn first_bad_constraint(n: int, constraints: Seq<(usize, usize)>, from: int) -> int
    decreases constraints.len() - from,
{
    if from >= constraints.len() {
        constraints.len() as int
    } else if constraints[from].0 >= n || constraints[from].1 >= n || constraints[from].0 == constraints[from].1 {
        from
    } else {
        first_bad_constraint(n, constraints, from + 1)
    }
}

/// Checks every constraint, in order, for an index `>= n_points`
/// ([`CdtError::InvalidVertexIndex`]) or two equal indices
/// ([`CdtError::ZeroLengthConstraint`]); the first offending constraint
/// decides the error, an out-of-range index taking precedence within it.
pub fn check_constraint_indices(n_points: usize, constraints: &Vec<(usize, usize)>) -> (r: Result<(), CdtError>)
    ensures
        ({
            let j = first_bad_constraint(n_points as int, constraints@, 0);
            &&& j == constraints@.len() ==> r == Ok::<(), CdtError>(())
            &&& j < constraints@.len() ==> r == Err::<(), CdtError>(
                if constraints@[j].0 >= n_points || constraints@[j].1 >= n_points {
                    CdtError::InvalidVertexIndex
                } else {
                    CdtError::ZeroLengthConstraint
                },
            )
        }),
{
    let mut i: usize = 0;
    while i < constraints.len()
        invariant
            i <= constraints.len(),
            first_bad_constraint(n_points as int, constraints@, 0) == first_bad_constraint(n_points as int, constraints@, i as int),
        decreases constraints.len() - i,
    {
        let (a, b) = constraints[i];
        if a >= n_points || b >= n_points {
            return Err(CdtError::InvalidVertexIndex);
        }
        if a == b {
            return Err(CdtError::ZeroLengthConstraint);
        }
        i += 1;
    }
    Ok(())
}

/// Two constraints name the same unordered vertex pair.
pub open spec fn same_pair(x: (usize, usize), y: (usize, usize)) -> bool {
    (x.0 == y.0 && x.1 == y.1) || (x.0 == y.1 && x.1 == y.0)
}

/// Rejects a constraint list in which some unordered vertex pair occurs
/// twice ([`CdtError::DuplicateConstraint`]).
pub fn check_duplicate_constraints(constraints: &Vec<(usize, usize)>) -> (r: Result<(), CdtError>)
    ensures
        r is Ok <==> forall|i: int, j: int|
            0 <= i < j < constraints@.len() ==> !same_pair(#[trigger] constraints@[i], #[trigger] constraints@[j]),
        r is Err ==> r == Err::<(), CdtError>(CdtError::DuplicateConstraint),
{
    let mut j: usize = 0;
    while j < constraints.len()
        invariant
            j <= constraints.len(),
            forall|i1: int, i2: int|
                0 <= i1 < i2 < j ==> !same_pair(#[trigger] constraints@[i1], #[trigger] constraints@[i2]),
        decreases constraints.len() - j,
    {
        let mut i: usize = 0;
        while i < j
            invariant
                i <= j < constraints.len(),
                forall|i1: int, i2: int|
                    0 <= i1 < i2 < j ==> !same_pair(#[trigger] constraints@[i1], #[trigger] constraints@[i2]),
                forall|i1: int| 0 <= i1 < i ==> !same_pair(#[trigger] constraints@[i1], constraints@[j as int]),
            decreases j - i,
        {
            let x = constraints[i];
            let y = constraints[j];
            if (x.0 == y.0 && x.1 == y.1) || (x.0 == y.1 && x.1 == y.0) {
                assert(same_pair(constraints@[i as int], constraints@[j as int]));
                return Err(CdtError::DuplicateConstraint);
            }
            i += 1;
        }
        j += 1;
    }
    Ok(())
}

/// The loop bound for edge flipping: `4 * face_count + 16`.
pub fn flip_bound(face_count: usize) -> (r: usize)
    requires
        4 * face_count + 16 <= usize::MAX,
    ensures
        r == 4 * face_count + 16,
{
    4 * face_count + 16
}

/// The oracle said constraints `i` and `j` neither cross properly nor
/// overlap collinearly.
pub open spec fn constraint_pair_ok<F: Fn(usize, usize) -> SegmentIntersectionKind>(kind: F, i: int, j: int) -> bool {
    exists|k: SegmentIntersectionKind|
        k != SegmentIntersectionKind::Proper && k != SegmentIntersectionKind::CollinearOverlap && #[trigger] kind.ensures(
            (i as usize, j as usize),
            k,
        )
}

/// Every pair `a < b` of `m` constraints that comes before the pair
/// `(i, j)` in row-major order neither crosses properly nor overlaps
/// collinearly.
pub open spec fn pairs_before_ok<F: Fn(usize, usize) -> SegmentIntersectionKind>(kind: F, m: int, i: int, j: int) -> bool {
    forall|a: int, b: int| 0 <= a < b < m && (a < i || (a == i && b < j)) ==> #[trigger] constraint_pair_ok(kind, a, b)
}

/// Checks every pair `i < j` of `m` constraint segments, in order, with
/// `kind(i, j)` classifying how segments `i` and `j` meet: the first pair
/// that crosses properly, or overlaps collinearly, is reported.
pub fn check_constraint_crossings<F: Fn(usize, usize) -> SegmentIntersectionKind>(m: usize, kind: &F) -> (r: Result<(), CdtError>)
    requires
        forall|i: usize, j: usize| i < m && j < m ==> kind.requires((i, j)),
    ensures
        r is Ok ==> forall|i: int, j: int| 0 <= i < j < m ==> #[trigger] constraint_pair_ok(*kind, i, j),
        r == Err::<(), CdtError>(CdtError::ProperlyCrossingConstraints) ==> exists|i: int, j: int|
            0 <= i < j < m && #[trigger] kind.ensures((i as usize, j as usize), SegmentIntersectionKind::Proper)
                && pairs_before_ok(*kind, m as int, i, j),
        r == Err::<(), CdtError>(CdtError::CollinearOverlappingConstraints) ==> exists|i: int, j: int|
            0 <= i < j < m && #[trigger] kind.ensures((i as usize, j as usize), SegmentIntersectionKind::CollinearOverlap)
                && pairs_before_ok(*kind, m as int, i, j),
        r is Err ==> r == Err::<(), CdtError>(CdtError::ProperlyCrossingConstraints) || r == Err::<(), CdtError>(
            CdtError::CollinearOverlappingConstraints,
        ),
{
    let mut i: usize = 0;
    while i < m
        invariant
            i <= m,
            forall|i: usize, j: usize| i < m && j < m ==> kind.requires((i, j)),
            forall|a: int, b: int| 0 <= a < i && a < b < m ==> #[trigger] constraint_pair_ok(*kind, a, b),
        decreases m - i,
    {
        let mut j: usize = i + 1;
        while j < m
            invariant
                i < m,
                i + 1 <= j <= m,
                forall|i: usize, j: usize| i < m && j < m ==> kind.requires((i, j)),
                forall|a: int, b: int| 0 <= a < i && a < b < m ==> #[trigger] constraint_pair_ok(*kind, a, b),
                forall|b: int| i < b < j ==> #[trigger] constraint_pair_ok(*kind, i as int, b),
            decreases m - j,
        {
            let k = kind(i, j);
            proof {
                assert(kind.ensures((((i as int) as usize), ((j as int) as usize)), k));
            }
            proof {
                assert(pairs_before_ok(*kind, m as int, i as int, j as int));
            }
            if k == SegmentIntersectionKind::Proper {
                return Err(CdtError::ProperlyCrossingConstraints);
            }
            if k == SegmentIntersectionKind::CollinearOverlap {
                return Err(CdtError::CollinearOverlappingConstraints);
            }
            proof {
                assert(constraint_pair_ok(*kind, i as int, j as int));
            }
            j += 1;
        }
        i += 1;
    }
    Ok(())
}

} // verus!
