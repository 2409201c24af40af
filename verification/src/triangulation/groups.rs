use vstd::prelude::*;

use super::keys::{insert_sorted, lex_lt, lemma_lex_asymmetric, lemma_lex_total, lemma_lex_transitive, lemma_sorted_unique, strictly_increasing, compare_keys};
use super::topology::Triangulation2;
use crate::ids::FaceId;

verus! {

/// `fs` lists face `f`.
pub open spec fn has_face(fs: Seq<FaceId>, f: int) -> bool {
    exists|a: int| 0 <= a < fs.len() && (#[trigger] fs[a]).0 == f
}

/// Face ids strictly increase along `fs`.
pub open spec fn faces_increasing(fs: Seq<FaceId>) -> bool {
    forall|a: int, b: int| 0 <= a < b < fs.len() ==> (#[trigger] fs[a]).0 < (#[trigger] fs[b]).0
}

/// `groups` are the classes of faces `0..root.len()` with equal `root`:
/// each is a nonempty increasing list of faces sharing one root, it
/// lists exactly the faces with that root, no two share a root, and
/// every face's root has a group.
pub open spec fn groups_by_root(root: Seq<u32>, groups: Seq<Seq<FaceId>>) -> bool {
    &&& forall|i: int| 0 <= i < groups.len() ==> (#[trigger] groups[i]).len() >= 1 && faces_increasing(groups[i])
    &&& forall|i: int, a: int|
        0 <= i < groups.len() && 0 <= a < groups[i].len() ==> (#[trigger] groups[i][a]).0 < root.len()
    &&& forall|i: int, f: int|
        0 <= i < groups.len() && 0 <= f < root.len() ==> (#[trigger] has_face(groups[i], f) <==> root[f]
            == root[groups[i][0].0 as int])
    &&& forall|i: int, j: int|
        0 <= i < groups.len() && 0 <= j < groups.len() && i != j ==> root[(#[trigger] groups[i])[0].0 as int]
            != root[(#[trigger] groups[j])[0].0 as int]
    &&& forall|f: int| 0 <= f < root.len() ==> #[trigger] in_some_group(groups, f)
}

/// Some group lists face `f`.
pub open spec fn in_some_group(groups: Seq<Seq<FaceId>>, f: int) -> bool {
    exists|i: int| 0 <= i < groups.len() && #[trigger] has_face(groups[i], f)
}

/// Faces `0..root.len()` grouped by equal `root`, each group in
/// increasing face order.
pub fn group_by_root(root: &Vec<u32>) -> (groups: Vec<Vec<FaceId>>)
    requires
        root.len() <= u32::MAX,
        forall|f: int| 0 <= f < root.len() ==> (#[trigger] root[f]) < root.len(),
    ensures
        groups_by_root(root@, groups@.map_values(|g: Vec<FaceId>| g@)),
        groups.len() <= root.len(),
{
    let n = root.len();
    let mut slot: Vec<usize> = vec![n; n];
    let mut groups: Vec<Vec<FaceId>> = Vec::new();
    let mut f: usize = 0;
    while f < n
        invariant
            n == root.len() <= u32::MAX,
            forall|x: int| 0 <= x < root.len() ==> (#[trigger] root[x]) < root.len(),
            f <= n,
            slot.len() == n,
            groups.len() <= f,
            forall|r: int| 0 <= r < n ==> (#[trigger] slot[r]) == n || slot[r] < groups.len(),
            forall|r: int| 0 <= r < n && #[trigger] slot[r] < groups.len() ==> groups[slot[r] as int]@.len() >= 1
                && root[groups[slot[r] as int]@[0].0 as int] == r,
            forall|i: int| 0 <= i < groups.len() ==> (#[trigger] groups[i])@.len() >= 1 && slot[root[groups[i]@[0].0 as int] as int] == i,
            forall|r: int, g: int| #![trigger slot[r], root[g]] 0 <= r < n && slot[r] == n && 0 <= g < f ==> root[g] != r,
            forall|i: int| 0 <= i < groups.len() ==> faces_increasing(#[trigger] groups[i]@),
            forall|i: int, a: int|
                0 <= i < groups.len() && 0 <= a < groups[i]@.len() ==> (#[trigger] groups[i]@[a]).0 < f,
            forall|i: int, g: int|
                0 <= i < groups.len() && 0 <= g < f ==> (#[trigger] has_face(groups[i]@, g) <==> root[g]
                    == root[groups[i]@[0].0 as int]),
        decreases n - f,
    {
        let r = root[f] as usize;
        let ghost old_groups = groups@;
        if slot[r] == n {
            let k = groups.len();
            slot.set(r, k);
            let mut single: Vec<FaceId> = Vec::new();
            single.push(FaceId(f as u32));
            groups.push(single);
            proof {
                assert(groups[k as int]@[0].0 == f);
                assert forall|i: int, g: int|
                    0 <= i < groups.len() && 0 <= g < f + 1 implies (#[trigger] has_face(groups[i]@, g) <==> root[g]
                        == root[groups[i]@[0].0 as int]) by {
                    if i < k {
                        assert(groups[i] == old_groups[i]);
                        if g == f {
                            if has_face(groups[i]@, g) {
                                let a = choose|a: int| 0 <= a < groups[i]@.len() && (#[trigger] groups[i]@[a]).0 == g;
                                assert(groups[i]@[a].0 < f);
                            }
                            assert(root[groups[i]@[0].0 as int] != r) by {
                                assert(slot[root[groups[i]@[0].0 as int] as int] == i);
                            }
                        }
                    } else {
                        if g == f {
                            assert(groups[i]@[0].0 == g);
                        } else {
                            assert(root[g] != r);
                            if has_face(groups[i]@, g) {
                                let a = choose|a: int| 0 <= a < groups[i]@.len() && (#[trigger] groups[i]@[a]).0 == g;
                                assert(a == 0);
                            }
                        }
                    }
                }
                assert forall|r2: int, g: int| #![trigger slot[r2], root[g]] 0 <= r2 < n && slot[r2] == n && 0 <= g < f + 1 implies root[g] != r2 by {
                    if g == f {
                        assert(r2 != r);
                    }
                }
            }
        } else {
            let s = slot[r];
            proof {
                assert(root[groups[s as int]@[0].0 as int] == r);
            }
            groups[s].push(FaceId(f as u32));
            proof {
                assert forall|i: int| 0 <= i < groups.len() implies faces_increasing(#[trigger] groups[i]@) by {
                    if i != s {
                        assert(groups[i] == old_groups[i]);
                    } else {
                        assert forall|a: int, b: int| 0 <= a < b < groups[i]@.len() implies (#[trigger] groups[i]@[a]).0 < (#[trigger] groups[i]@[b]).0 by {
                            if b == groups[i]@.len() - 1 {
                                assert(old_groups[i]@[a].0 < f);
                            } else {
                                assert(old_groups[i]@[a] == groups[i]@[a]);
                                assert(old_groups[i]@[b] == groups[i]@[b]);
                            }
                        }
                    }
                }
                assert forall|i: int, g: int|
                    0 <= i < groups.len() && 0 <= g < f + 1 implies (#[trigger] has_face(groups[i]@, g) <==> root[g]
                        == root[groups[i]@[0].0 as int]) by {
                    if i != s {
                        assert(groups[i] == old_groups[i]);
                        if g == f {
                            if has_face(groups[i]@, g) {
                                let a = choose|a: int| 0 <= a < groups[i]@.len() && (#[trigger] groups[i]@[a]).0 == g;
                                assert(groups[i]@[a].0 < f);
                            }
                            assert(slot[root[groups[i]@[0].0 as int] as int] == i);
                        }
                    } else {
                        assert(groups[i]@[0] == old_groups[i]@[0]);
                        let last = groups[i]@.len() - 1;
                        if g == f {
                            assert(groups[i]@[last].0 == g);
                        } else {
                            if has_face(groups[i]@, g) {
                                let a = choose|a: int| 0 <= a < groups[i]@.len() && (#[trigger] groups[i]@[a]).0 == g;
                                assert(a != last);
                                assert(old_groups[i]@[a].0 == g);
                                assert(has_face(old_groups[i]@, g));
                            }
                            if has_face(old_groups[i]@, g) {
                                let a = choose|a: int| 0 <= a < old_groups[i]@.len() && (#[trigger] old_groups[i]@[a]).0 == g;
                                assert(groups[i]@[a].0 == g);
                            }
                        }
                    }
                }
                assert forall|i: int, a: int|
                    0 <= i < groups.len() && 0 <= a < groups[i]@.len() implies (#[trigger] groups[i]@[a]).0 < f + 1 by {
                    if i != s {
                        assert(groups[i] == old_groups[i]);
                    } else if a < old_groups[i]@.len() {
                        assert(groups[i]@[a] == old_groups[i]@[a]);
                    }
                }
                assert forall|r2: int| 0 <= r2 < n && #[trigger] slot[r2] < groups.len() implies groups[slot[r2] as int]@.len() >= 1
                    && root[groups[slot[r2] as int]@[0].0 as int] == r2 by {
                    let i = slot[r2] as int;
                    if i == s {
                        assert(groups[i]@[0] == old_groups[i]@[0]);
                    } else {
                        assert(groups[i] == old_groups[i]);
                    }
                }
                assert forall|i: int| 0 <= i < groups.len() implies (#[trigger] groups[i])@.len() >= 1 && slot[root[groups[i]@[0].0 as int] as int] == i by {
                    if i == s {
                        assert(groups[i]@[0] == old_groups[i]@[0]);
                    } else {
                        assert(groups[i] == old_groups[i]);
                    }
                }
                assert forall|r2: int, g: int| #![trigger slot[r2], root[g]] 0 <= r2 < n && slot[r2] == n && 0 <= g < f + 1 implies root[g] != r2 by {
                    if g == f {
                        assert(slot[r as int] == s);
                    }
                }
            }
        }
        f += 1;
    }
    let ghost gs = groups@.map_values(|g: Vec<FaceId>| g@);
    proof {
        assert forall|i: int| 0 <= i < gs.len() implies (#[trigger] gs[i]).len() >= 1 && faces_increasing(gs[i]) by {
            assert(gs[i] == groups[i]@);
        }
        assert forall|i: int, a: int| 0 <= i < gs.len() && 0 <= a < gs[i].len() implies (#[trigger] gs[i][a]).0 < root.len() by {
            assert(gs[i] == groups[i]@);
        }
        assert forall|i: int, g: int| 0 <= i < gs.len() && 0 <= g < root.len() implies (#[trigger] has_face(gs[i], g) <==> root[g]
            == root[gs[i][0].0 as int]) by {
            assert(gs[i] == groups[i]@);
        }
        assert forall|i: int, j: int| 0 <= i < gs.len() && 0 <= j < gs.len() && i != j implies root[(#[trigger] gs[i])[0].0 as int]
            != root[(#[trigger] gs[j])[0].0 as int] by {
            assert(gs[i] == groups[i]@);
            assert(gs[j] == groups[j]@);
            assert(slot[root[groups[i]@[0].0 as int] as int] == i);
            assert(slot[root[groups[j]@[0].0 as int] as int] == j);
        }
        assert forall|g: int| 0 <= g < root.len() implies #[trigger] in_some_group(gs, g) by {
            let r = root[g] as int;
            assert(slot[r] != n);
            let i = slot[r] as int;
            assert(gs[i] == groups[i]@);
            assert(has_face(gs[i], g));
        }
    }
    groups
}

/// One of the first `m` faces of `fs` has a vertex with raw id `v`.
pub open spec fn covers_vertex_upto<P>(t: &Triangulation2<P>, fs: Seq<FaceId>, m: int, v: u32) -> bool {
    exists|a: int, k: int|
        0 <= a < m && 0 <= k < 3 && (#[trigger] t.spec_faces()[fs[a].0 as int][k]).0 == v
}

/// Some face of `fs` has a vertex with raw id `v`.
pub open spec fn covers_vertex<P>(t: &Triangulation2<P>, fs: Seq<FaceId>, v: u32) -> bool {
    covers_vertex_upto(t, fs, fs.len() as int, v)
}

/// `key` lists, in increasing order and once each, the raw ids of the
/// vertices of the faces in `fs`.
pub open spec fn is_group_key<P>(t: &Triangulation2<P>, fs: Seq<FaceId>, key: Seq<u32>) -> bool {
    &&& strictly_increasing(key)
    &&& forall|v: u32| key.contains(v) <==> covers_vertex(t, fs, v)
}

/// The sorted, deduplicated raw vertex ids of the faces in `fs`.
pub open spec fn group_key_of<P>(t: &Triangulation2<P>, fs: Seq<FaceId>) -> Seq<u32> {
    choose|key: Seq<u32>| is_group_key(t, fs, key)
}

/// A group's key is unique, so it is [`group_key_of`].
pub proof fn lemma_group_key_of<P>(t: &Triangulation2<P>, fs: Seq<FaceId>, key: Seq<u32>)
    requires
        is_group_key(t, fs, key),
    ensures
        group_key_of(t, fs) == key,
{
    let k2 = group_key_of(t, fs);
    assert(is_group_key(t, fs, k2));
    lemma_sorted_unique(k2, key);
}

/// The sorted, deduplicated raw vertex ids of the faces in `fs`: the
/// key by which face groups are ordered.
pub fn group_key<P>(t: &Triangulation2<P>, fs: &Vec<FaceId>) -> (key: Vec<u32>)
    requires
        forall|a: int| 0 <= a < fs.len() ==> (#[trigger] fs[a]).0 < t.spec_faces().len(),
    ensures
        is_group_key(t, fs@, key@),
        group_key_of(t, fs@) == key@,
{
    let mut key: Vec<u32> = Vec::new();
    let mut a: usize = 0;
    while a < fs.len()
        invariant
            a <= fs.len(),
            forall|b: int| 0 <= b < fs.len() ==> (#[trigger] fs[b]).0 < t.spec_faces().len(),
            strictly_increasing(key@),
            forall|v: u32| key@.contains(v) <==> covers_vertex_upto(t, fs@, a as int, v),
        decreases fs.len() - a,
    {
        let tri = t.face_vertices(fs[a]);
        let ghost k0 = key@;
        insert_sorted(&mut key, tri[0].0);
        insert_sorted(&mut key, tri[1].0);
        insert_sorted(&mut key, tri[2].0);
        proof {
            assert forall|v: u32| key@.contains(v) <==> covers_vertex_upto(t, fs@, a + 1, v) by {
                if covers_vertex_upto(t, fs@, a + 1, v) {
                    let (b, k) = choose|b: int, k: int|
                        0 <= b < a + 1 && 0 <= k < 3 && (#[trigger] t.spec_faces()[fs@[b].0 as int][k]).0 == v;
                    if b < a {
                        assert(covers_vertex_upto(t, fs@, a as int, v));
                    } else {
                        assert(tri[k] == t.spec_faces()[fs@[b].0 as int][k]);
                    }
                }
                if k0.contains(v) {
                    assert(covers_vertex_upto(t, fs@, a as int, v));
                    let (b, k) = choose|b: int, k: int|
                        0 <= b < a && 0 <= k < 3 && (#[trigger] t.spec_faces()[fs@[b].0 as int][k]).0 == v;
                    assert(t.spec_faces()[fs@[b].0 as int][k].0 == v);
                }
                if v == tri[0].0 {
                    assert(t.spec_faces()[fs@[a as int].0 as int][0].0 == v);
                }
                if v == tri[1].0 {
                    assert(t.spec_faces()[fs@[a as int].0 as int][1].0 == v);
                }
                if v == tri[2].0 {
                    assert(t.spec_faces()[fs@[a as int].0 as int][2].0 == v);
                }
            }
        }
        a += 1;
    }
    proof {
        lemma_group_key_of(t, fs@, key@);
    }
    key
}

/// Group `a` (key `ka`, first face `fa`) comes before group `b`: by key,
/// then by first face.
pub open spec fn group_before(ka: Seq<u32>, fa: u32, kb: Seq<u32>, fb: u32) -> bool {
    lex_lt(ka, kb) || (ka == kb && fa < fb)
}

/// [`group_before`] is a strict order, total on groups with different
/// first faces.
pub proof fn lemma_group_before_order(ka: Seq<u32>, fa: u32, kb: Seq<u32>, fb: u32, kc: Seq<u32>, fc: u32)
    ensures
        !group_before(ka, fa, ka, fa),
        group_before(ka, fa, kb, fb) && group_before(kb, fb, kc, fc) ==> group_before(ka, fa, kc, fc),
        fa != fb ==> group_before(ka, fa, kb, fb) || group_before(kb, fb, ka, fa),
        !(group_before(ka, fa, kb, fb) && group_before(kb, fb, ka, fa)),
{
    lemma_lex_asymmetric(ka, kb);
    if lex_lt(ka, kb) && lex_lt(kb, kc) {
        lemma_lex_transitive(ka, kb, kc);
    }
    if ka != kb {
        lemma_lex_total(ka, kb);
    }
}

/// The positions of the groups in canonical order: `order[i]` is the
/// group placed `i`-th, every group is placed once, and the groups come
/// in strictly increasing [`group_before`] order.
pub fn canonical_order(keys: &Vec<Vec<u32>>, firsts: &Vec<u32>) -> (order: Vec<usize>)
    requires
        keys.len() == firsts.len(),
        forall|i: int, j: int| 0 <= i < firsts.len() && 0 <= j < firsts.len() && i != j ==> firsts[i] != firsts[j],
    ensures
        order.len() == keys.len(),
        forall|x: usize| order@.contains(x) <==> x < keys.len(),
        forall|i: int| 0 <= i < order.len() ==> (#[trigger] order[i]) < keys.len(),
        forall|i: int, j: int|
            0 <= i < j < order.len() ==> group_before(
                keys[#[trigger] order[i] as int]@,
                firsts[order[i] as int],
                keys[#[trigger] order[j] as int]@,
                firsts[order[j] as int],
            ),
{
    let mut order: Vec<usize> = Vec::new();
    let mut m: usize = 0;
    while m < keys.len()
        invariant
            keys.len() == firsts.len(),
            forall|i: int, j: int| 0 <= i < firsts.len() && 0 <= j < firsts.len() && i != j ==> firsts[i] != firsts[j],
            m <= keys.len(),
            order.len() == m,
            forall|x: usize| order@.contains(x) <==> x < m,
            forall|i: int| 0 <= i < order.len() ==> (#[trigger] order[i]) < m,
            forall|i: int, j: int|
                0 <= i < j < order.len() ==> group_before(
                    keys[#[trigger] order[i] as int]@,
                    firsts[order[i] as int],
                    keys[#[trigger] order[j] as int]@,
                    firsts[order[j] as int],
                ),
        decreases keys.len() - m,
    {
        let mut p: usize = 0;
        let mut found = false;
        while p < order.len() && !found
            invariant
                p <= order.len(),
                m < keys.len(),
                keys.len() == firsts.len(),
                forall|i: int| 0 <= i < order.len() ==> (#[trigger] order[i]) < m,
                forall|q: int| 0 <= q < p ==> !group_before(
                    keys[m as int]@,
                    firsts[m as int],
                    keys[#[trigger] order[q] as int]@,
                    firsts[order[q] as int],
                ),
                found ==> p < order.len() && group_before(
                    keys[m as int]@,
                    firsts[m as int],
                    keys[order[p as int] as int]@,
                    firsts[order[p as int] as int],
                ),
            decreases order.len() - p + if found { 0int } else { 1int },
        {
            let o = order[p];
            let (lt, eq) = compare_keys(&keys[m], &keys[o]);
            if lt || (eq && firsts[m] < firsts[o]) {
                found = true;
            } else {
                p += 1;
            }
        }
        let ghost before = order@;
        order.insert(p, m);
        proof {
            assert(order@ =~= before.subrange(0, p as int).push(m) + before.subrange(p as int, before.len() as int));
            assert forall|i: int, j: int| 0 <= i < j < order.len() implies group_before(
                keys[#[trigger] order[i] as int]@,
                firsts[order[i] as int],
                keys[#[trigger] order[j] as int]@,
                firsts[order[j] as int],
            ) by {
                let km = keys[m as int]@;
                let fm = firsts[m as int];
                if j < p {
                    assert(order[i] == before[i] && order[j] == before[j]);
                } else if j == p {
                    let q = before[i] as int;
                    assert(order[i] == before[i]);
                    assert(q < m);
                    lemma_group_before_order(km, fm, keys[q]@, firsts[q], km, fm);
                    lemma_group_before_order(keys[q]@, firsts[q], km, fm, km, fm);
                } else if i < p {
                    assert(order[i] == before[i] && order[j] == before[j - 1]);
                } else if i == p {
                    let q = before[j - 1] as int;
                    let r = before[p as int] as int;
                    assert(order[j] == before[j - 1]);
                    assert(found);
                    if j - 1 > p {
                        lemma_group_before_order(km, fm, keys[r]@, firsts[r], keys[q]@, firsts[q]);
                    }
                } else {
                    assert(order[i] == before[i - 1] && order[j] == before[j - 1]);
                }
            }
            assert forall|x: usize| order@.contains(x) <==> x < m + 1 by {
                if order@.contains(x) {
                    let k = choose|k: int| 0 <= k < order@.len() && order@[k] == x;
                    if k < p {
                        assert(before[k] == x);
                        assert(before.contains(x));
                    } else if k > p {
                        assert(before[k - 1] == x);
                        assert(before.contains(x));
                    }
                }
                if x < m {
                    assert(before.contains(x));
                    let k = choose|k: int| 0 <= k < before.len() && before[k] == x;
                    if k < p {
                        assert(order@[k] == x);
                    } else {
                        assert(order@[k + 1] == x);
                    }
                }
                if x == m {
                    assert(order@[p as int] == x);
                }
            }
            assert forall|i: int| 0 <= i < order.len() implies (#[trigger] order[i]) < m + 1 by {
                if i < p {
                    assert(order[i] == before[i]);
                } else if i > p {
                    assert(order[i] == before[i - 1]);
                }
            }
        }
        m += 1;
    }
    order
}

} // verus!
