use vstd::prelude::*;

verus! {

/// Disjoint sets over `0..n`, each set represented by one of its members.
///
/// Every element points at a "boss"; following bosses ends at the set's
/// representative, which is its own boss. A ghost rank that strictly grows
/// along boss links (and stays below a ghost bound) shows that every such walk
/// ends.
pub struct UnionFind {
    boss: Vec<usize>,
    rank: Ghost<Seq<nat>>,
    bound: Ghost<nat>,
}

/// The boss links `boss` are acyclic as witnessed by `rank`: every link leads to a
/// strictly higher rank, and all ranks are at most `bound`.
pub open spec fn links_ranked(boss: Seq<usize>, rank: Seq<nat>, bound: nat) -> bool {
    &&& rank.len() == boss.len()
    &&& forall|x: int| 0 <= x < boss.len() ==> #[trigger] boss[x] < boss.len()
    &&& forall|x: int|
        0 <= x < boss.len() && #[trigger] boss[x] != x ==> rank[x] < rank[boss[x] as int]
    &&& forall|x: int| 0 <= x < boss.len() ==> #[trigger] rank[x] <= bound
}

/// Where the walk along boss links from `x` ends.
pub open spec fn root_of(boss: Seq<usize>, rank: Seq<nat>, bound: nat, x: int) -> int
    decreases bound - rank[x],
{
    if 0 <= x < boss.len() && x < rank.len() && boss[x] != x && 0 <= boss[x] < boss.len()
        && boss[x] < rank.len() && rank[x] < rank[boss[x] as int] <= bound {
        root_of(boss, rank, bound, boss[x] as int)
    } else {
        x
    }
}

/// The representatives after merging the set represented by `from` into the
/// set represented by `to`.
pub open spec fn merge_classes(reps: Seq<int>, from: int, to: int) -> Seq<int> {
    Seq::new(reps.len(), |y: int| if reps[y] == from { to } else { reps[y] })
}

/// Under ranked links, the walk from `x` ends at a member that is its own boss
/// and whose rank is at least that of `x`.
proof fn lemma_root_props(boss: Seq<usize>, rank: Seq<nat>, bound: nat, x: int)
    requires
        links_ranked(boss, rank, bound),
        0 <= x < boss.len(),
    ensures
        0 <= root_of(boss, rank, bound, x) < boss.len(),
        boss[root_of(boss, rank, bound, x)] == root_of(boss, rank, bound, x),
        rank[root_of(boss, rank, bound, x)] >= rank[x],
        boss[x] == x ==> root_of(boss, rank, bound, x) == x,
        boss[x] != x ==> root_of(boss, rank, bound, x) == root_of(
            boss,
            rank,
            bound,
            boss[x] as int,
        ),
    decreases bound - rank[x],
{
    if boss[x] != x {
        assert(boss[x] < boss.len());
        assert(rank[x] < rank[boss[x] as int]);
        assert(rank[boss[x] as int] <= bound);
        lemma_root_props(boss, rank, bound, boss[x] as int);
    }
}

/// Pointing `x` straight at its own representative changes no element's
/// representative.
proof fn lemma_redirect_keeps_roots(
    boss: Seq<usize>,
    rank: Seq<nat>,
    bound: nat,
    x: int,
    y: int,
)
    requires
        links_ranked(boss, rank, bound),
        0 <= x < boss.len(),
        0 <= y < boss.len(),
        links_ranked(
            boss.update(x, root_of(boss, rank, bound, x) as usize),
            rank,
            bound,
        ),
    ensures
        root_of(boss.update(x, root_of(boss, rank, bound, x) as usize), rank, bound, y)
            == root_of(boss, rank, bound, y),
    decreases bound - rank[y],
{
    let r = root_of(boss, rank, bound, x);
    let nb = boss.update(x, r as usize);
    lemma_root_props(boss, rank, bound, x);
    lemma_root_props(boss, rank, bound, y);
    lemma_root_props(nb, rank, bound, y);
    if y == x {
        if r != x {
            lemma_root_props(nb, rank, bound, r);
            assert(nb[r] == r);
        }
    } else if boss[y] != y {
        assert(nb[y] == boss[y]);
        lemma_redirect_keeps_roots(boss, rank, bound, x, boss[y] as int);
    }
}

/// Linking representative `ba` under representative `bb` (lifting `bb`'s rank
/// when needed) merges exactly their two sets.
proof fn lemma_link_merges(
    boss: Seq<usize>,
    rank: Seq<nat>,
    bound: nat,
    ba: int,
    bb: int,
    y: int,
)
    requires
        links_ranked(boss, rank, bound),
        0 <= ba < boss.len(),
        0 <= bb < boss.len(),
        ba != bb,
        boss[ba] == ba,
        boss[bb] == bb,
        0 <= y < boss.len(),
    ensures
        ({
            let new_rank_bb = if rank[bb] > rank[ba] + 1 {
                rank[bb]
            } else {
                (rank[ba] + 1) as nat
            };
            let nrank = rank.update(bb, new_rank_bb);
            let nbound = if bound > new_rank_bb {
                bound
            } else {
                new_rank_bb
            };
            let nboss = boss.update(ba, bb as usize);
            &&& links_ranked(nboss, nrank, nbound)
            &&& root_of(nboss, nrank, nbound, y) == if root_of(boss, rank, bound, y) == ba {
                bb
            } else {
                root_of(boss, rank, bound, y)
            }
        }),
    decreases bound - rank[y],
{
    let new_rank_bb = if rank[bb] > rank[ba] + 1 {
        rank[bb]
    } else {
        (rank[ba] + 1) as nat
    };
    let nrank = rank.update(bb, new_rank_bb);
    let nbound = if bound > new_rank_bb {
        bound
    } else {
        new_rank_bb
    };
    let nboss = boss.update(ba, bb as usize);
    assert forall|x: int|
        0 <= x < nboss.len() && #[trigger] nboss[x] != x implies nrank[x] < nrank[nboss[x] as int] by {
        if x != ba {
            assert(boss[x] != x);
        }
    }
    assert(links_ranked(nboss, nrank, nbound));
    lemma_root_props(boss, rank, bound, y);
    lemma_root_props(nboss, nrank, nbound, y);
    if boss[y] == y {
        if y == ba {
            lemma_root_props(nboss, nrank, nbound, bb);
        }
    } else {
        assert(nboss[y] == boss[y]);
        lemma_link_merges(boss, rank, bound, ba, bb, boss[y] as int);
    }
}

/// Merging the set represented by `reps[a]` into that represented by `reps[b]`
/// puts `a` and `b` together, and two elements share a representative
/// afterwards exactly when they did before, or one was with `a` and the other
/// with `b`.
pub proof fn lemma_merge_classes(reps: Seq<int>, a: int, b: int, x: int, y: int)
    requires
        0 <= a < reps.len(),
        0 <= b < reps.len(),
        0 <= x < reps.len(),
        0 <= y < reps.len(),
    ensures
        merge_classes(reps, reps[a], reps[b])[a] == merge_classes(reps, reps[a], reps[b])[b],
        (merge_classes(reps, reps[a], reps[b])[x] == merge_classes(reps, reps[a], reps[b])[y]) <==> (
        reps[x] == reps[y] || (reps[x] == reps[a] && reps[y] == reps[b]) || (reps[x] == reps[b]
            && reps[y] == reps[a])),
{
}

impl UnionFind {
    /// Every representative represents itself, and lies in `0..n`.
    pub proof fn lemma_representatives(&self, x: int)
        requires
            self.wf(),
            0 <= x < self@.len(),
        ensures
            0 <= self@[x] < self@.len(),
            self@[self@[x]] == self@[x],
    {
        lemma_root_props(self.boss@, self.rank@, self.bound@, x);
        let r = root_of(self.boss@, self.rank@, self.bound@, x);
        lemma_root_props(self.boss@, self.rank@, self.bound@, r);
    }

    /// The structure's invariant: boss links stay inside `0..n` and are ranked.
    pub closed spec fn wf(&self) -> bool {
        links_ranked(self.boss@, self.rank@, self.bound@)
    }

    /// The representative of every element, indexed by element.
    pub closed spec fn view(&self) -> Seq<int> {
        Seq::new(
            self.boss@.len(),
            |x: int| root_of(self.boss@, self.rank@, self.bound@, x),
        )
    }

    /// `n` singleton sets: every element represents itself.
    pub fn new(n: usize) -> (uf: UnionFind)
        ensures
            uf.wf(),
            uf@.len() == n,
            forall|x: int| 0 <= x < n ==> #[trigger] uf@[x] == x,
    {
        let mut boss: Vec<usize> = Vec::new();
        let mut i: usize = 0;
        while i < n
            invariant
                i <= n,
                boss.len() == i,
                forall|j: int| 0 <= j < i ==> boss[j] == j,
            decreases n - i,
        {
            boss.push(i);
            i = i + 1;
        }
        let uf = UnionFind { boss, rank: Ghost(Seq::new(n as nat, |j: int| 0nat)), bound: Ghost(0nat) };
        assert forall|x: int| 0 <= x < n implies #[trigger] uf@[x] == x by {
            assert(uf.boss@[x] == x);
        }
        uf
    }

    /// The representative of `x`'s set. Links on the way are pointed straight at
    /// it, which changes no element's representative.
    pub fn get(&mut self, x: usize) -> (r: usize)
        requires
            old(self).wf(),
            x < old(self)@.len(),
        ensures
            final(self).wf(),
            final(self)@ == old(self)@,
            r == old(self)@[x as int],
    {
        self.find_and_compress(x)
    }

    /// The walk behind `get`, which keeps the ghost ranking as it is.
    fn find_and_compress(&mut self, x: usize) -> (r: usize)
        requires
            old(self).wf(),
            x < old(self)@.len(),
        ensures
            final(self).wf(),
            final(self)@ == old(self)@,
            r == old(self)@[x as int],
            final(self).rank@ == old(self).rank@,
            final(self).bound@ == old(self).bound@,
            final(self).boss@.len() == old(self).boss@.len(),
        decreases old(self).bound@ - old(self).rank@[x as int],
    {
        proof {
            lemma_root_props(self.boss@, self.rank@, self.bound@, x as int);
        }
        if self.boss[x] == x {
            x
        } else {
            let local_boss = self.boss[x];
            let ghost before = self.boss@;
            assert(self.rank@[x as int] < self.rank@[local_boss as int]);
            let boss = self.find_and_compress(local_boss);
            let ghost mid = self.boss@;
            proof {
                assert(boss == root_of(before, self.rank@, self.bound@, local_boss as int));
                assert(self@[x as int] == old(self)@[x as int]);
                assert(root_of(mid, self.rank@, self.bound@, x as int) == boss);
                lemma_root_props(mid, self.rank@, self.bound@, x as int);
                lemma_root_props(mid, self.rank@, self.bound@, local_boss as int);
                let nb = mid.update(x as int, boss);
                assert forall|y: int|
                    0 <= y < nb.len() && #[trigger] nb[y] != y implies self.rank@[y] < self.rank@[nb[y] as int] by {
                    if y != x {
                        assert(mid[y] != y);
                    }
                }
                assert(links_ranked(nb, self.rank@, self.bound@));
                assert forall|y: int| 0 <= y < mid.len() implies root_of(nb, self.rank@, self.bound@, y)
                    == root_of(mid, self.rank@, self.bound@, y) by {
                    lemma_redirect_keeps_roots(mid, self.rank@, self.bound@, x as int, y);
                }
            }
            self.boss.set(x, boss);
            proof {
                assert(self@ =~= old(self)@);
            }
            boss
        }
    }

    /// Merges the sets of `a` and `b`; `false` when they were already one set.
    /// The set of `a` joins that of `b`, whose representative stays.
    pub fn join(&mut self, a: usize, b: usize) -> (merged: bool)
        requires
            old(self).wf(),
            a < old(self)@.len(),
            b < old(self)@.len(),
        ensures
            final(self).wf(),
            merged == (old(self)@[a as int] != old(self)@[b as int]),
            final(self)@ == merge_classes(old(self)@, old(self)@[a as int], old(self)@[b as int]),
    {
        let ba = self.get(a);
        let bb = self.get(b);
        if ba == bb {
            proof {
                assert(self@ =~= merge_classes(old(self)@, ba as int, bb as int));
            }
            false
        } else {
            let ghost boss0 = self.boss@;
            let ghost rank0 = self.rank@;
            let ghost bound0 = self.bound@;
            proof {
                lemma_root_props(boss0, rank0, bound0, a as int);
                lemma_root_props(boss0, rank0, bound0, b as int);
            }
            self.boss.set(ba, bb);
            proof {
                let new_rank_bb = if rank0[bb as int] > rank0[ba as int] + 1 {
                    rank0[bb as int]
                } else {
                    (rank0[ba as int] + 1) as nat
                };
                self.rank = Ghost(rank0.update(bb as int, new_rank_bb));
                self.bound = Ghost(
                    if bound0 > new_rank_bb {
                        bound0
                    } else {
                        new_rank_bb
                    },
                );
                lemma_link_merges(boss0, rank0, bound0, ba as int, bb as int, 0);
                assert forall|y: int| 0 <= y < boss0.len() implies #[trigger] self@[y]
                    == merge_classes(old(self)@, ba as int, bb as int)[y] by {
                    lemma_link_merges(boss0, rank0, bound0, ba as int, bb as int, y);
                }
                assert(self@ =~= merge_classes(old(self)@, ba as int, bb as int));
            }
            true
        }
    }
}

} // verus!
