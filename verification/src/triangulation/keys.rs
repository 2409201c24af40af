use vstd::prelude::*;

verus! {

/// Every element is smaller than every later one.
pub open spec fn strictly_increasing(s: Seq<u32>) -> bool {
    forall|i: int, j: int| 0 <= i < j < s.len() ==> #[trigger] s[i] < #[trigger] s[j]
}

/// Lexicographic order on sequences: a proper prefix comes first,
/// otherwise the first differing element decides.
pub open spec fn lex_lt(a: Seq<u32>, b: Seq<u32>) -> bool
    decreases a.len(),
{
    if a.len() == 0 {
        b.len() > 0
    } else if b.len() == 0 {
        false
    } else if a[0] < b[0] {
        true
    } else if a[0] > b[0] {
        false
    } else {
        lex_lt(a.drop_first(), b.drop_first())
    }
}

/// No sequence comes before itself, and of two sequences at most one
/// comes first.
pub proof fn lemma_lex_asymmetric(a: Seq<u32>, b: Seq<u32>)
    ensures
        !lex_lt(a, a),
        !(lex_lt(a, b) && lex_lt(b, a)),
    decreases a.len(),
{
    if a.len() > 0 && b.len() > 0 && a[0] == b[0] {
        lemma_lex_asymmetric(a.drop_first(), b.drop_first());
    }
    if a.len() > 0 {
        lemma_lex_asymmetric(a.drop_first(), a.drop_first());
    }
}

/// Lexicographic order is transitive.
pub proof fn lemma_lex_transitive(a: Seq<u32>, b: Seq<u32>, c: Seq<u32>)
    requires
        lex_lt(a, b),
        lex_lt(b, c),
    ensures
        lex_lt(a, c),
    decreases a.len(),
{
    if a.len() > 0 && b.len() > 0 && c.len() > 0 && a[0] == b[0] && b[0] == c[0] {
        lemma_lex_transitive(a.drop_first(), b.drop_first(), c.drop_first());
    }
}

/// Of two different sequences, one comes first.
pub proof fn lemma_lex_total(a: Seq<u32>, b: Seq<u32>)
    requires
        a != b,
    ensures
        lex_lt(a, b) || lex_lt(b, a),
    decreases a.len(),
{
    if a.len() > 0 && b.len() > 0 && a[0] == b[0] {
        if a.drop_first() == b.drop_first() {
            assert(a =~= seq![a[0]] + a.drop_first());
            assert(b =~= seq![b[0]] + b.drop_first());
        }
        lemma_lex_total(a.drop_first(), b.drop_first());
    }
    if a.len() == 0 && b.len() == 0 {
        assert(a =~= b);
    }
}

/// Past a common prefix, the order is decided by what follows it.
proof fn lemma_lex_skip(a: Seq<u32>, b: Seq<u32>, i: int)
    requires
        0 <= i <= a.len(),
        i <= b.len(),
        a.subrange(0, i) == b.subrange(0, i),
    ensures
        lex_lt(a, b) == lex_lt(a.skip(i), b.skip(i)),
    decreases i,
{
    if i > 0 {
        assert(a[0] == a.subrange(0, i)[0]);
        assert(b[0] == b.subrange(0, i)[0]);
        assert(a.drop_first().subrange(0, i - 1) =~= a.subrange(0, i).drop_first());
        assert(b.drop_first().subrange(0, i - 1) =~= b.subrange(0, i).drop_first());
        lemma_lex_skip(a.drop_first(), b.drop_first(), i - 1);
        assert(a.drop_first().skip(i - 1) =~= a.skip(i));
        assert(b.drop_first().skip(i - 1) =~= b.skip(i));
    } else {
        assert(a.skip(0) =~= a);
        assert(b.skip(0) =~= b);
    }
}

/// Compares two sequences: whether `a` comes first, and whether they are
/// equal.
pub fn compare_keys(a: &Vec<u32>, b: &Vec<u32>) -> (r: (bool, bool))
    ensures
        r.0 == lex_lt(a@, b@),
        r.1 == (a@ == b@),
{
    let mut i: usize = 0;
    while i < a.len() && i < b.len() && a[i] == b[i]
        invariant
            i <= a.len(),
            i <= b.len(),
            a@.subrange(0, i as int) == b@.subrange(0, i as int),
        decreases a.len() - i,
    {
        proof {
            assert(a@.subrange(0, i + 1) =~= a@.subrange(0, i as int).push(a@[i as int]));
            assert(b@.subrange(0, i + 1) =~= b@.subrange(0, i as int).push(b@[i as int]));
        }
        i += 1;
    }
    proof {
        lemma_lex_skip(a@, b@, i as int);
    }
    if i < a.len() && i < b.len() {
        proof {
            assert(a@.skip(i as int)[0] == a@[i as int]);
            assert(b@.skip(i as int)[0] == b@[i as int]);
            assert(a@[i as int] != b@[i as int]);
        }
        (a[i] < b[i], false)
    } else if i < b.len() {
        proof {
            assert(a@.skip(i as int).len() == 0);
            assert(b@.skip(i as int).len() > 0);
        }
        (true, false)
    } else if i < a.len() {
        proof {
            assert(b@.skip(i as int).len() == 0);
            assert(a@.skip(i as int).len() > 0);
        }
        (false, false)
    } else {
        proof {
            assert(a@ =~= a@.subrange(0, i as int));
            assert(b@ =~= b@.subrange(0, i as int));
            assert(a@.skip(i as int).len() == 0);
        }
        (false, true)
    }
}

/// Inserts `x` into a strictly increasing sequence, keeping it strictly
/// increasing; a value already present is not inserted twice.
pub fn insert_sorted(v: &mut Vec<u32>, x: u32)
    requires
        strictly_increasing(old(v)@),
    ensures
        strictly_increasing(final(v)@),
        forall|y: u32| final(v)@.contains(y) <==> (old(v)@.contains(y) || y == x),
{
    let mut p: usize = 0;
    while p < v.len() && v[p] < x
        invariant
            p <= v.len(),
            v@ == old(v)@,
            forall|q: int| 0 <= q < p ==> v@[q] < x,
        decreases v.len() - p,
    {
        p += 1;
    }
    if p < v.len() && v[p] == x {
        proof {
            assert(v@[p as int] == x);
            assert(v@.contains(x));
        }
        return;
    }
    let ghost before = v@;
    v.insert(p, x);
    proof {
        assert(v@ =~= before.subrange(0, p as int).push(x) + before.subrange(p as int, before.len() as int));
        assert forall|i: int, j: int| 0 <= i < j < v@.len() implies #[trigger] v@[i] < #[trigger] v@[j] by {
            if j < p {
            } else if j == p {
            } else if i < p {
                assert(v@[j] == before[j - 1]);
                assert(before[p as int] > x);
                if j - 1 > p {
                    assert(before[p as int] < before[j - 1]);
                }
            } else if i == p {
                assert(v@[j] == before[j - 1]);
                assert(before[p as int] > x);
                if j - 1 > p {
                    assert(before[p as int] < before[j - 1]);
                }
            } else {
                assert(v@[i] == before[i - 1]);
                assert(v@[j] == before[j - 1]);
            }
        }
        assert forall|y: u32| v@.contains(y) <==> (before.contains(y) || y == x) by {
            if v@.contains(y) {
                let k = choose|k: int| 0 <= k < v@.len() && v@[k] == y;
                if k < p {
                    assert(before[k] == y);
                } else if k > p {
                    assert(before[k - 1] == y);
                }
            }
            if before.contains(y) {
                let k = choose|k: int| 0 <= k < before.len() && before[k] == y;
                if k < p {
                    assert(v@[k] == y);
                } else {
                    assert(v@[k + 1] == y);
                }
            }
            if y == x {
                assert(v@[p as int] == x);
            }
        }
        assert(before == old(v)@);
        assert(forall|y: u32| v@.contains(y) <==> (old(v)@.contains(y) || y == x));
    }
}

/// Two strictly increasing sequences with the same elements are equal.
pub proof fn lemma_sorted_unique(a: Seq<u32>, b: Seq<u32>)
    requires
        strictly_increasing(a),
        strictly_increasing(b),
        forall|y: u32| a.contains(y) <==> b.contains(y),
    ensures
        a == b,
    decreases a.len() + b.len(),
{
    if a.len() == 0 {
        if b.len() > 0 {
            assert(b.contains(b[0]));
        }
        assert(a =~= b);
    } else if b.len() == 0 {
        assert(a.contains(a[0]));
    } else {
        assert(a.contains(a[0]));
        assert(b.contains(b[0]));
        let ka = choose|k: int| 0 <= k < a.len() && a[k] == b[0];
        let kb = choose|k: int| 0 <= k < b.len() && b[k] == a[0];
        if ka > 0 {
            assert(a[0] < a[ka]);
        }
        if kb > 0 {
            assert(b[0] < b[kb]);
        }
        assert(a[0] == b[0]);
        let a1 = a.drop_first();
        let b1 = b.drop_first();
        assert forall|y: u32| a1.contains(y) <==> b1.contains(y) by {
            if a1.contains(y) {
                let k = choose|k: int| 0 <= k < a1.len() && a1[k] == y;
                assert(a[k + 1] == y);
                assert(a[0] < a[k + 1]);
                assert(b.contains(y));
                let k2 = choose|k2: int| 0 <= k2 < b.len() && b[k2] == y;
                assert(k2 != 0);
                assert(b1[k2 - 1] == y);
            }
            if b1.contains(y) {
                let k = choose|k: int| 0 <= k < b1.len() && b1[k] == y;
                assert(b[k + 1] == y);
                assert(b[0] < b[k + 1]);
                assert(a.contains(y));
                let k2 = choose|k2: int| 0 <= k2 < a.len() && a[k2] == y;
                assert(k2 != 0);
                assert(a1[k2 - 1] == y);
            }
        }
        assert(strictly_increasing(a1)) by {
            assert forall|i: int, j: int| 0 <= i < j < a1.len() implies #[trigger] a1[i] < #[trigger] a1[j] by {
                assert(a[i + 1] < a[j + 1]);
            }
        }
        assert(strictly_increasing(b1)) by {
            assert forall|i: int, j: int| 0 <= i < j < b1.len() implies #[trigger] b1[i] < #[trigger] b1[j] by {
                assert(b[i + 1] < b[j + 1]);
            }
        }
        lemma_sorted_unique(a1, b1);
        assert(a =~= seq![a[0]] + a1);
        assert(b =~= seq![b[0]] + b1);
    }
}

} // verus!
