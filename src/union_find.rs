use vstd::prelude::*;
use vstd::set_lib::{set_int_range, lemma_int_range, lemma_map_size_bound, lemma_len_subset};

verus! {

/// Disjoint sets over the indices `0..n`, with union by rank and path compression.
pub struct UnionFind {
    pub parent: Vec<usize>,
    pub rank: Vec<usize>,
    /// The root of each index's tree.
    pub roots: Ghost<Seq<int>>,
}

impl UnionFind {
    pub open spec fn len(&self) -> nat {
        self.parent@.len()
    }

    /// The representative of `i`'s set.
    pub open spec fn root(&self, i: int) -> int {
        self.roots@[i]
    }

    /// `i` and `j` lie in one set.
    pub open spec fn same(&self, i: int, j: int) -> bool {
        self.root(i) == self.root(j)
    }

    pub open spec fn wf(&self) -> bool {
        let n = self.parent@.len();
        &&& self.rank@.len() == n
        &&& self.roots@.len() == n
        &&& forall|i: int| 0 <= i < n ==> (#[trigger] self.parent@[i] as int) < n
        &&& forall|i: int| 0 <= i < n ==> 0 <= #[trigger] self.roots@[i] < n
        &&& forall|i: int| 0 <= i < n ==> self.parent@[#[trigger] self.roots@[i]] == self.roots@[i]
        &&& forall|i: int| 0 <= i < n ==> self.roots@[#[trigger] self.parent@[i] as int] == self.roots@[i]
        &&& forall|i: int| 0 <= i < n && #[trigger] self.parent@[i] == i ==> self.roots@[i] == i
        &&& forall|i: int|
            0 <= i < n && #[trigger] self.parent@[i] != i ==> self.rank@[i] < self.rank@[self.parent@[i] as int]
        &&& forall|i: int|
            0 <= i < n && #[trigger] self.roots@[i] != i ==> self.rank@[i] < self.rank@[self.roots@[i]]
        &&& forall|i: int, k: int|
            #![trigger self.rank@[i], self.rank_held(k)]
            0 <= i < n && 0 <= k <= self.rank@[i] ==> self.rank_held(k)
    }

    /// Some index has rank `k`.
    pub open spec fn rank_held(&self, k: int) -> bool {
        exists|j: int| 0 <= j < self.rank@.len() && #[trigger] self.rank@[j] == k
    }

    /// `size` singleton sets.
    pub fn new(size: usize) -> (r: Self)
        ensures
            r.wf(),
            r.len() == size,
            forall|i: int| 0 <= i < size ==> #[trigger] r.root(i) == i,
            forall|i: int| 0 <= i < size ==> #[trigger] r.parent@[i] == i && r.rank@[i] == 0,
    {
        let mut parent: Vec<usize> = Vec::new();
        let mut rank: Vec<usize> = Vec::new();
        let mut i: usize = 0;
        while i < size
            invariant
                i <= size,
                parent.len() == i,
                rank.len() == i,
                forall|k: int| 0 <= k < i ==> #[trigger] parent@[k] == k,
                forall|k: int| 0 <= k < i ==> #[trigger] rank@[k] == 0,
            decreases size - i,
        {
            parent.push(i);
            rank.push(0);
            i += 1;
        }
        let r = UnionFind { parent, rank, roots: Ghost(Seq::new(size as nat, |k: int| k)) };
        assert forall|i: int, k: int|
            #![trigger r.rank@[i], r.rank_held(k)]
            0 <= i < size && 0 <= k <= r.rank@[i] implies r.rank_held(k) by {
            assert(r.rank@[i] == 0);
        }
        r
    }

    /// The representative of `x`'s set. Shortens the paths it walks; the sets stay as they are.
    pub fn find(&mut self, x: usize) -> (r: usize)
        requires
            old(self).wf(),
            x < old(self).len(),
        ensures
            final(self).wf(),
            final(self).len() == old(self).len(),
            final(self).roots == old(self).roots,
            final(self).rank == old(self).rank,
            r == old(self).root(x as int),
            final(self).parent@[x as int] == r,
        decreases usize::MAX - old(self).rank@[x as int],
    {
        let p = self.parent[x];
        if p != x {
            let r = self.find(p);
            let ghost mid = *self;
            self.parent.set(x, r);
            proof {
                let n = self.parent@.len() as int;
                assert forall|i: int| 0 <= i < n implies self.parent@[#[trigger] self.roots@[i]]
                    == self.roots@[i] by {
                    if self.roots@[i] == x {
                        assert(mid.parent@[x as int] == x);
                    }
                }
                assert forall|i: int| 0 <= i < n implies self.roots@[#[trigger] self.parent@[i] as int]
                    == self.roots@[i] by {}
                assert forall|i: int| 0 <= i < n && #[trigger] self.parent@[i] == i implies self.roots@[i]
                    == i by {}
                assert forall|i: int| 0 <= i < n && #[trigger] self.parent@[i] != i implies self.rank@[i]
                    < self.rank@[self.parent@[i] as int] by {
                    if i == x {
                        assert(mid.roots@[x as int] != x);
                    }
                }
                assert forall|i: int, k: int|
                    #![trigger self.rank@[i], self.rank_held(k)]
                    0 <= i < n && 0 <= k <= self.rank@[i] implies self.rank_held(k) by {
                    assert(mid.rank@[i] == self.rank@[i]);
                    assert(mid.rank_held(k));
                }
            }
            r
        } else {
            x
        }
    }

    /// Joins the sets of `x` and `y`.
    pub fn union(&mut self, x: usize, y: usize)
        requires
            old(self).wf(),
            x < old(self).len(),
            y < old(self).len(),
        ensures
            final(self).wf(),
            final(self).len() == old(self).len(),
            forall|i: int, j: int|
                0 <= i < old(self).len() && 0 <= j < old(self).len() ==> (#[trigger] final(self).same(i, j) <==> {
                    ||| old(self).same(i, j)
                    ||| old(self).same(i, x as int) && old(self).same(j, y as int)
                    ||| old(self).same(i, y as int) && old(self).same(j, x as int)
                }),
            ({
                let rx = old(self).root(x as int);
                let ry = old(self).root(y as int);
                &&& rx == ry ==> final(self).rank == old(self).rank && final(self).roots == old(self).roots
                &&& rx != ry && old(self).rank@[rx] > old(self).rank@[ry] ==> final(self).parent@[ry] == rx
                    && final(self).rank == old(self).rank
                &&& rx != ry && old(self).rank@[rx] < old(self).rank@[ry] ==> final(self).parent@[rx] == ry
                    && final(self).rank == old(self).rank
                &&& rx != ry && old(self).rank@[rx] == old(self).rank@[ry] ==> final(self).parent@[ry] == rx
                    && final(self).rank@ == old(self).rank@.update(rx, (old(self).rank@[rx] + 1) as usize)
            }),
    {
        let ghost start = *self;
        let root_x = self.find(x);
        let root_y = self.find(y);
        if root_x != root_y {
            let rx = self.rank[root_x];
            let ry = self.rank[root_y];
            if rx > ry {
                self.link(root_y, root_x);
            } else if rx < ry {
                self.link(root_x, root_y);
            } else {
                let len = self.parent.len();
                proof {
                    self.lemma_rank_below_len(root_x as int);
                }
                self.link(root_y, root_x);
                self.rank.set(root_x, rx + 1);
                proof {
                    let n = self.parent@.len() as int;
                    assert forall|i: int, k: int|
                        #![trigger self.rank@[i], self.rank_held(k)]
                        0 <= i < n && 0 <= k <= self.rank@[i] implies self.rank_held(k) by {
                        if i == root_x && k == rx + 1 {
                            assert(self.rank@[root_x as int] == k);
                        } else if k == rx {
                            assert(self.rank@[root_y as int] == k);
                        } else if i == root_x {
                            assert(start.rank@[root_y as int] == rx);
                            assert(start.rank_held(k));
                            let j = choose|j: int| 0 <= j < n && #[trigger] start.rank@[j] == k;
                            assert(self.rank@[j] == k);
                        } else {
                            assert(start.rank_held(k));
                            let j = choose|j: int| 0 <= j < n && #[trigger] start.rank@[j] == k;
                            assert(self.rank@[j] == k);
                        }
                    }
                    assert forall|i: int| 0 <= i < n && #[trigger] self.parent@[i] != i implies self.rank@[i]
                        < self.rank@[self.parent@[i] as int] by {}
                    assert forall|i: int| 0 <= i < n && #[trigger] self.roots@[i] != i implies self.rank@[i]
                        < self.rank@[self.roots@[i]] by {}
                }
            }
        }
    }

    /// Hangs the tree of root `child` below root `root`; ranks stay as they are.
    fn link(&mut self, child: usize, root: usize)
        requires
            old(self).wf(),
            child < old(self).len(),
            root < old(self).len(),
            child != root,
            old(self).parent@[child as int] == child,
            old(self).parent@[root as int] == root,
            old(self).rank@[child as int] <= old(self).rank@[root as int],
        ensures
            final(self).len() == old(self).len(),
            final(self).rank == old(self).rank,
            final(self).parent@ == old(self).parent@.update(child as int, root),
            final(self).roots@ == old(self).roots@.map_values(|r: int| if r == child { root as int } else { r }),
            forall|i: int|
                0 <= i < old(self).len() ==> (#[trigger] final(self).same(i, root as int) <==> old(self).same(i, root as int)
                    || old(self).same(i, child as int)),
            old(self).rank@[child as int] < old(self).rank@[root as int] ==> final(self).wf(),
            final(self).rank@[child as int] == old(self).rank@[root as int] ==> {
                &&& forall|i: int|
                    0 <= i < final(self).len() && #[trigger] final(self).parent@[i] != i && i != child ==> final(self).rank@[i]
                        < final(self).rank@[final(self).parent@[i] as int]
                &&& forall|i: int|
                    0 <= i < final(self).len() && #[trigger] final(self).roots@[i] != i ==> final(self).rank@[i]
                        <= final(self).rank@[final(self).roots@[i]]
                &&& forall|i: int|
                    0 <= i < final(self).len() && #[trigger] final(self).roots@[i] != i && final(self).rank@[i]
                        == final(self).rank@[final(self).roots@[i]] ==> final(self).roots@[i] == root && i == child
            },
            final(self).rank@[child as int] == old(self).rank@[root as int] ==> ({
                let s = *final(self);
                let n = s.parent@.len();
                &&& s.rank@.len() == n
                &&& s.roots@.len() == n
                &&& forall|i: int| 0 <= i < n ==> (#[trigger] s.parent@[i] as int) < n
                &&& forall|i: int| 0 <= i < n ==> 0 <= #[trigger] s.roots@[i] < n
                &&& forall|i: int| 0 <= i < n ==> s.parent@[#[trigger] s.roots@[i]] == s.roots@[i]
                &&& forall|i: int| 0 <= i < n ==> s.roots@[#[trigger] s.parent@[i] as int] == s.roots@[i]
                &&& forall|i: int| 0 <= i < n && #[trigger] s.parent@[i] == i ==> s.roots@[i] == i
            }),
    {
        let ghost start = *self;
        self.parent.set(child, root);
        self.roots = Ghost(start.roots@.map_values(|r: int| if r == child { root as int } else { r }));
        proof {
            let n = self.parent@.len() as int;
            assert forall|i: int| 0 <= i < n implies self.parent@[#[trigger] self.roots@[i]] == self.roots@[i] by {}
            assert forall|i: int| 0 <= i < n implies self.roots@[#[trigger] self.parent@[i] as int]
                == self.roots@[i] by {
                if i == child {
                    assert(start.roots@[child as int] == child);
                    assert(start.roots@[root as int] == root);
                }
            }
            assert forall|i: int| 0 <= i < n && #[trigger] self.parent@[i] == i implies self.roots@[i] == i by {
                if i != child {
                    assert(start.parent@[i] == i);
                    assert(start.roots@[i] == i);
                }
            }
            assert forall|i: int| 0 <= i < n && #[trigger] self.roots@[i] != i implies self.rank@[i]
                <= self.rank@[self.roots@[i]] by {
                if start.roots@[i] == child && i != child {
                    assert(start.rank@[i] < start.rank@[child as int]);
                }
            }
            assert forall|i: int|
                0 <= i < n && #[trigger] self.roots@[i] != i && self.rank@[i] == self.rank@[self.roots@[i]] implies self.roots@[i]
                == root && i == child by {
                if start.roots@[i] == child && i != child {
                    assert(start.rank@[i] < start.rank@[child as int]);
                }
            }
            assert forall|i: int| 0 <= i < n implies (#[trigger] self.same(i, root as int) <==> start.same(i, root as int)
                || start.same(i, child as int)) by {
                assert(start.roots@[root as int] == root);
                assert(start.roots@[child as int] == child);
            }
            assert forall|i: int, k: int|
                #![trigger self.rank@[i], self.rank_held(k)]
                0 <= i < n && 0 <= k <= self.rank@[i] implies self.rank_held(k) by {
                assert(start.rank@[i] == self.rank@[i]);
                assert(start.rank_held(k));
            }
            if start.rank@[child as int] < start.rank@[root as int] {
                assert forall|i: int| 0 <= i < n && #[trigger] self.roots@[i] != i implies self.rank@[i]
                    < self.rank@[self.roots@[i]] by {
                    if start.roots@[i] == child && i != child {
                        assert(start.rank@[i] < start.rank@[child as int]);
                    }
                }
                assert forall|i: int| 0 <= i < n && #[trigger] self.parent@[i] != i implies self.rank@[i]
                    < self.rank@[self.parent@[i] as int] by {}
            }
        }
    }

    /// A rank is smaller than the number of indices: every smaller rank is held by some index.
    proof fn lemma_rank_below_len(&self, i: int)
        requires
            self.wf(),
            0 <= i < self.len(),
        ensures
            self.rank@[i] < self.len(),
    {
        let n = self.len() as int;
        let r = self.rank@[i] as int;
        let ranks = set_int_range(0, n).map(|j: int| self.rank@[j] as int);
        lemma_int_range(0, n);
        lemma_int_range(0, r + 1);
        lemma_map_size_bound(set_int_range(0, n), ranks, |j: int| self.rank@[j] as int);
        assert forall|k: int| #[trigger] set_int_range(0, r + 1).contains(k) implies ranks.contains(k) by {
            assert(self.rank_held(k));
            let j = choose|j: int| 0 <= j < n && #[trigger] self.rank@[j] == k;
            assert(set_int_range(0, n).contains(j));
        }
        lemma_len_subset(set_int_range(0, r + 1), ranks);
    }
}

} // verus!
