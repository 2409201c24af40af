use vstd::prelude::*;

verus! {

/// The root reached from `x` by following parent links while the ghost
/// ranks strictly increase and stay below `bound`.
pub open spec fn root_of(parent: Seq<u32>, rank: Seq<nat>, bound: nat, x: int) -> int
    decreases bound - rank[x],
{
    if 0 <= x < parent.len() {
        let p = parent[x] as int;
        if p != x && 0 <= p < parent.len() && rank[x] < rank[p] && rank[p] < bound {
            root_of(parent, rank, bound, p)
        } else {
            x
        }
    } else {
        x
    }
}

/// The shape every union-find keeps: parents are valid indices, ranks
/// strictly increase from child to parent and stay below the bound.
pub open spec fn uf_inv(parent: Seq<u32>, rank: Seq<nat>, bound: nat) -> bool {
    &&& parent.len() == rank.len()
    &&& parent.len() <= u32::MAX + 1
    &&& forall|x: int| 0 <= x < parent.len() ==> (#[trigger] parent[x]) < parent.len()
    &&& forall|x: int| 0 <= x < parent.len() ==> #[trigger] rank[x] < bound
    &&& forall|x: int|
        0 <= x < parent.len() && #[trigger] parent[x] != x ==> rank[x] < rank[(parent[x] as int)]
}


/// Under the invariant, the root of `y` is `y` itself or the root of its
/// parent.
pub proof fn lemma_root_step(parent: Seq<u32>, rank: Seq<nat>, bound: nat, y: int)
    requires
        uf_inv(parent, rank, bound),
        0 <= y < parent.len(),
    ensures
        root_of(parent, rank, bound, y) == if parent[y] as int == y {
            y
        } else {
            root_of(parent, rank, bound, parent[y] as int)
        },
{
    if parent[y] as int != y {
        assert(parent[y] != y);
        assert(rank[y] < rank[parent[y] as int]);
        assert(rank[parent[y] as int] < bound);
    }
}

/// The root of `y` is a valid index that is its own parent, with rank at
/// least that of `y` (strictly more when `y` is not a root).
pub proof fn lemma_root_is_root(parent: Seq<u32>, rank: Seq<nat>, bound: nat, y: int)
    requires
        uf_inv(parent, rank, bound),
        0 <= y < parent.len(),
    ensures
        0 <= root_of(parent, rank, bound, y) < parent.len(),
        parent[root_of(parent, rank, bound, y)] as int == root_of(parent, rank, bound, y),
        rank[y] <= rank[root_of(parent, rank, bound, y)],
        parent[y] as int != y ==> rank[y] < rank[root_of(parent, rank, bound, y)],
    decreases bound - rank[y],
{
    lemma_root_step(parent, rank, bound, y);
    if parent[y] as int != y {
        assert(parent[y] != y);
        let p = parent[y] as int;
        assert(rank[y] < rank[p]);
        assert(rank[p] < bound);
        lemma_root_is_root(parent, rank, bound, p);
    }
}

/// Pointing a non-root `x` straight at its root keeps the invariant and
/// every element's root.
proof fn lemma_compress(parent: Seq<u32>, rank: Seq<nat>, bound: nat, x: int)
    requires
        uf_inv(parent, rank, bound),
        0 <= x < parent.len(),
    ensures
        uf_inv(parent.update(x, root_of(parent, rank, bound, x) as u32), rank, bound),
        forall|y: int|
            0 <= y < parent.len() ==> #[trigger] root_of(parent.update(x, root_of(parent, rank, bound, x) as u32), rank, bound, y)
                == root_of(parent, rank, bound, y),
{
    let r = root_of(parent, rank, bound, x);
    lemma_root_is_root(parent, rank, bound, x);
    let p2 = parent.update(x, r as u32);
    assert forall|y: int| 0 <= y < parent.len() && #[trigger] p2[y] != y implies rank[y] < rank[(p2[y] as int)] by {
        if y != x {
            assert(p2[y] == parent[y]);
        }
    }
    assert(uf_inv(p2, rank, bound));
    assert forall|y: int| 0 <= y < parent.len() implies #[trigger] root_of(p2, rank, bound, y) == root_of(parent, rank, bound, y) by {
        lemma_compress_root(parent, rank, bound, x, y);
    }
}

proof fn lemma_compress_root(parent: Seq<u32>, rank: Seq<nat>, bound: nat, x: int, y: int)
    requires
        uf_inv(parent, rank, bound),
        0 <= x < parent.len(),
        0 <= y < parent.len(),
        uf_inv(parent.update(x, root_of(parent, rank, bound, x) as u32), rank, bound),
    ensures
        root_of(parent.update(x, root_of(parent, rank, bound, x) as u32), rank, bound, y) == root_of(parent, rank, bound, y),
    decreases bound - rank[y],
{
    let r = root_of(parent, rank, bound, x);
    let p2 = parent.update(x, r as u32);
    lemma_root_is_root(parent, rank, bound, x);
    lemma_root_step(parent, rank, bound, y);
    lemma_root_step(p2, rank, bound, y);
    if y == x {
        if r != x {
            lemma_root_step(p2, rank, bound, r);
            assert(p2[r] == parent[r]);
        }
    } else if parent[y] as int != y {
        assert(parent[y] != y);
        assert(rank[y] < rank[parent[y] as int]);
        lemma_compress_root(parent, rank, bound, x, parent[y] as int);
    }
}

/// Linking root `ra` under root `rb` (raising `rb`'s rank past `ra`'s):
/// every element whose root was `ra` now has root `rb`, the rest keep
/// theirs.
proof fn lemma_link_root(parent: Seq<u32>, rank: Seq<nat>, bound: nat, ra: int, rb: int, y: int)
    requires
        uf_inv(parent, rank, bound),
        0 <= ra < parent.len(),
        0 <= rb < parent.len(),
        ra != rb,
        parent[ra] as int == ra,
        parent[rb] as int == rb,
        0 <= y < parent.len(),
    ensures
        ({
            let p2 = parent.update(ra, rb as u32);
            let k = if rank[rb] > rank[ra] + 1 { rank[rb] } else { (rank[ra] + 1) as nat };
            let rank2 = rank.update(rb, k);
            let bound2 = if bound > k + 1 { bound } else { k + 1 };
            &&& uf_inv(p2, rank2, bound2)
            &&& root_of(p2, rank2, bound2, y) == if root_of(parent, rank, bound, y) == ra {
                rb
            } else {
                root_of(parent, rank, bound, y)
            }
        }),
    decreases bound - rank[y],
{
    let p2 = parent.update(ra, rb as u32);
    let k = if rank[rb] > rank[ra] + 1 { rank[rb] } else { (rank[ra] + 1) as nat };
    let rank2 = rank.update(rb, k);
    let bound2 = if bound > k + 1 { bound } else { k + 1 };
    assert forall|z: int| 0 <= z < p2.len() && #[trigger] p2[z] != z implies rank2[z] < rank2[(p2[z] as int)] by {
        if z != ra {
            assert(p2[z] == parent[z]);
            assert(parent[z] != z);
            assert(rank[z] < rank[(parent[z] as int)]);
            if z == rb {
                assert(false);
            }
        }
    }
    assert forall|z: int| 0 <= z < p2.len() implies #[trigger] rank2[z] < bound2 by {
        assert(rank[z] < bound);
    }
    assert forall|z: int| 0 <= z < p2.len() implies (#[trigger] p2[z]) < p2.len() by {
        assert(parent[z] < parent.len());
    }
    assert(uf_inv(p2, rank2, bound2));
    lemma_root_step(parent, rank, bound, y);
    lemma_root_step(p2, rank2, bound2, y);
    if y == ra {
        lemma_root_step(p2, rank2, bound2, rb);
    } else if y == rb {
    } else if parent[y] as int != y {
        assert(parent[y] != y);
        assert(rank[y] < rank[parent[y] as int]);
        lemma_link_root(parent, rank, bound, ra, rb, parent[y] as int);
    }
}

/// A disjoint-set forest over `0..n`, with path compression on `find`.
pub struct UnionFind {
    parent: Vec<u32>,
    rank: Ghost<Seq<nat>>,
    bound: Ghost<nat>,
}

impl UnionFind {
    /// The set representative of every element.
    pub closed spec fn reps(&self) -> Seq<int> {
        Seq::new(self.parent@.len(), |x: int| root_of(self.parent@, self.rank@, self.bound@, x))
    }

    /// How far `x`'s rank is below the rank bound.
    pub closed spec fn height(&self, x: int) -> int {
        self.bound@ - self.rank@[x]
    }

    /// The number of elements.
    pub closed spec fn size(&self) -> nat {
        self.parent@.len()
    }

    /// The forest's shape is sound.
    pub closed spec fn wf(&self) -> bool {
        uf_inv(self.parent@, self.rank@, self.bound@)
    }

    /// Every representative is an element, and is its own representative.
    pub proof fn lemma_reps_valid(&self)
        requires
            self.wf(),
        ensures
            self.reps().len() == self.size(),
            forall|x: int| 0 <= x < self.size() ==> 0 <= #[trigger] self.reps()[x] < self.size(),
            forall|x: int| 0 <= x < self.size() ==> self.reps()[#[trigger] self.reps()[x]] == self.reps()[x],
    {
        assert forall|x: int| 0 <= x < self.size() implies 0 <= #[trigger] self.reps()[x] < self.size() && self.reps()[self.reps()[x]] == self.reps()[x] by {
            lemma_root_is_root(self.parent@, self.rank@, self.bound@, x);
            let r = self.reps()[x];
            lemma_root_step(self.parent@, self.rank@, self.bound@, r);
        }
    }

    /// `n` singleton sets.
    pub fn new(n: usize) -> (r: Self)
        requires
            n <= u32::MAX + 1,
        ensures
            r.wf(),
            r.size() == n,
            forall|x: int| 0 <= x < n ==> #[trigger] r.reps()[x] == x,
    {
        let mut parent: Vec<u32> = Vec::new();
        let mut i: usize = 0;
        while i < n
            invariant
                i <= n <= u32::MAX + 1,
                parent@.len() == i,
                forall|x: int| 0 <= x < i ==> #[trigger] parent@[x] == x,
            decreases n - i,
        {
            parent.push(i as u32);
            i += 1;
        }
        let r = UnionFind { parent, rank: Ghost(Seq::new(n as nat, |x: int| 0nat)), bound: Ghost(1nat) };
        assert forall|x: int| 0 <= x < n implies #[trigger] r.reps()[x] == x by {
            assert(r.parent@[x] == x);
        }
        r
    }

    /// The representative of `x`'s set; compresses the path from `x`.
    pub fn find(&mut self, x: u32) -> (r: u32)
        requires
            old(self).wf(),
            (x as int) < old(self).size(),
        ensures
            final(self).wf(),
            final(self).size() == old(self).size(),
            final(self).reps() == old(self).reps(),
            r as int == old(self).reps()[x as int],
        decreases old(self).height(x as int),
    {
        proof {
            lemma_root_step(self.parent@, self.rank@, self.bound@, x as int);
            lemma_root_is_root(self.parent@, self.rank@, self.bound@, x as int);
        }
        let ghost reps0 = self.reps();
        let p = self.parent[x as usize];
        if p != x {
            proof {
                assert(self.rank@[x as int] < self.rank@[p as int]);
                assert(self.rank@[p as int] < self.bound@);
            }
            let root = self.find(p);
            proof {
                assert(self.reps()[x as int] == reps0[x as int]);
                lemma_root_is_root(self.parent@, self.rank@, self.bound@, x as int);
                lemma_compress(self.parent@, self.rank@, self.bound@, x as int);
                assert(root as int == root_of(self.parent@, self.rank@, self.bound@, x as int)) by {
                    lemma_root_step(self.parent@, self.rank@, self.bound@, x as int);
                    assert(reps0[p as int] == root_of(self.parent@, self.rank@, self.bound@, p as int));
                }
            }
            let ghost before = self.parent@;
            self.parent.set(x as usize, root);
            proof {
                assert(self.parent@ == before.update(x as int, root_of(before, self.rank@, self.bound@, x as int) as u32));
                assert(self.reps() =~= reps0);
            }
        }
        proof {
            lemma_root_step(self.parent@, self.rank@, self.bound@, x as int);
            lemma_root_is_root(self.parent@, self.rank@, self.bound@, x as int);
        }
        self.parent[x as usize]
    }

    /// Merges the sets of `a` and `b`: every element whose representative
    /// was `a`'s takes `b`'s representative.
    pub fn union(&mut self, a: u32, b: u32)
        requires
            old(self).wf(),
            (a as int) < old(self).size(),
            (b as int) < old(self).size(),
        ensures
            final(self).wf(),
            final(self).size() == old(self).size(),
            forall|y: int|
                0 <= y < old(self).size() ==> #[trigger] final(self).reps()[y] == if old(self).reps()[y] == old(self).reps()[a as int] {
                    old(self).reps()[b as int]
                } else {
                    old(self).reps()[y]
                },
    {
        let ghost reps0 = self.reps();
        let ra = self.find(a);
        let rb = self.find(b);
        if ra != rb {
            proof {
                lemma_root_is_root(self.parent@, self.rank@, self.bound@, a as int);
                lemma_root_is_root(self.parent@, self.rank@, self.bound@, b as int);
            }
            let ghost parent0 = self.parent@;
            let ghost rank0 = self.rank@;
            let ghost bound0 = self.bound@;
            let ghost k = if rank0[rb as int] > rank0[ra as int] + 1 { rank0[rb as int] } else { (rank0[ra as int] + 1) as nat };
            self.parent.set(ra as usize, rb);
            self.rank = Ghost(rank0.update(rb as int, k));
            self.bound = Ghost(if bound0 > k + 1 { bound0 } else { k + 1 });
            proof {
                assert forall|y: int| 0 <= y < parent0.len() implies #[trigger] self.reps()[y] == if reps0[y] == reps0[a as int] {
                    reps0[b as int]
                } else {
                    reps0[y]
                } by {
                    lemma_link_root(parent0, rank0, bound0, ra as int, rb as int, y);
                }
                lemma_link_root(parent0, rank0, bound0, ra as int, rb as int, 0);
            }
        }
    }
}

} // verus!
