//! Index-based union-find (disjoint-set union) with path compression
//! and union-by-rank.

use vstd::arithmetic::power2;
use vstd::prelude::*;
use vstd::set_lib;

verus! {

/// Following parents stays inside the vector and strictly climbs in
/// `rank` until it meets a root, an index that is its own parent.
spec fn forest(parent: Seq<usize>, rank: Seq<u8>) -> bool {
    &&& parent.len() == rank.len()
    &&& forall|i: int| 0 <= i < parent.len() ==> (#[trigger] parent[i]) < parent.len()
    &&& forall|i: int|
        0 <= i < parent.len() && (#[trigger] parent[i]) != i ==> rank[i] < rank[parent[i] as int]
}

/// The root reached from `x` by following parents.
spec fn root(parent: Seq<usize>, rank: Seq<u8>, x: int) -> int
    decreases 256 - rank[x],
    when forest(parent, rank) && 0 <= x < parent.len()
{
    if parent[x] == x {
        x
    } else {
        root(parent, rank, parent[x] as int)
    }
}

/// The indices whose root is `r`.
spec fn tree(parent: Seq<usize>, rank: Seq<u8>, r: int) -> Set<int> {
    set_lib::set_int_range(0, parent.len() as int).filter(|i: int| root(parent, rank, i) == r)
}

/// A root of rank `k` has at least `2^k` indices below it.
spec fn balanced(parent: Seq<usize>, rank: Seq<u8>) -> bool {
    forall|r: int|
        0 <= r < parent.len() && parent[r] == r ==> power2::pow2(rank[r] as nat) <= #[trigger] tree(
            parent,
            rank,
            r,
        ).len()
}

proof fn lemma_root(parent: Seq<usize>, rank: Seq<u8>, x: int)
    requires
        forest(parent, rank),
        0 <= x < parent.len(),
    ensures
        0 <= root(parent, rank, x) < parent.len(),
        parent[root(parent, rank, x)] == root(parent, rank, x),
        rank[x] <= rank[root(parent, rank, x)],
        parent[x] != x ==> rank[x] < rank[root(parent, rank, x)],
    decreases 256 - rank[x],
{
    if parent[x] != x {
        lemma_root(parent, rank, parent[x] as int);
    }
}

/// Pointing `x` at another index of the same tree, of higher rank, leaves
/// every root where it was.
proof fn lemma_compress(parent: Seq<usize>, rank: Seq<u8>, x: int, y: usize, i: int)
    requires
        forest(parent, rank),
        0 <= x < parent.len(),
        0 <= i < parent.len(),
        0 <= y < parent.len(),
        parent[x] != x,
        rank[x] < rank[y as int],
        root(parent, rank, y as int) == root(parent, rank, x),
    ensures
        forest(parent.update(x, y), rank),
        root(parent.update(x, y), rank, i) == root(parent, rank, i),
    decreases 256 - rank[i],
{
    let next = parent.update(x, y);
    if next[i] != i {
        lemma_compress(parent, rank, x, y, next[i] as int);
        if i == x {
            lemma_root(parent, rank, x);
        }
    }
}

proof fn lemma_same_trees(p1: Seq<usize>, p2: Seq<usize>, rank: Seq<u8>)
    requires
        forest(p1, rank),
        forest(p2, rank),
        p1.len() == p2.len(),
        balanced(p1, rank),
        forall|i: int|
            0 <= i < p1.len() ==> #[trigger] root(p2, rank, i) == root(p1, rank, i),
    ensures
        balanced(p2, rank),
{
    assert forall|r: int| 0 <= r < p2.len() && p2[r] == r implies power2::pow2(rank[r] as nat)
        <= #[trigger] tree(p2, rank, r).len() by {
        assert(root(p2, rank, r) == r);
        lemma_root(p1, rank, r);
        assert(p1[r] == r);
        assert(tree(p1, rank, r) =~= tree(p2, rank, r));
    }
}

/// A tree's rank stays far below the largest `u8`.
proof fn lemma_rank_small(parent: Seq<usize>, rank: Seq<u8>, r: int)
    requires
        forest(parent, rank),
        balanced(parent, rank),
        0 <= r < parent.len(),
        parent[r] == r,
        parent.len() <= usize::MAX,
    ensures
        rank[r] < 64,
{
    let all = set_lib::set_int_range(0, parent.len() as int);
    set_lib::lemma_int_range(0, parent.len() as int);
    set_lib::lemma_len_subset(tree(parent, rank, r), all);
    power2::lemma2_to64();
    if rank[r] >= 64 {
        if rank[r] > 64 {
            power2::lemma_pow2_strictly_increases(64, rank[r] as nat);
        }
        assert(power2::pow2(64) == 0x10000000000000000);
    }
}

/// What hanging the root `small` below the root `big` does to the roots.
proof fn lemma_link_root(
    parent: Seq<usize>,
    rank: Seq<u8>,
    small: int,
    big: usize,
    new_rank: Seq<u8>,
    i: int,
)
    requires
        forest(parent, rank),
        0 <= small < parent.len(),
        big < parent.len(),
        small != big,
        parent[small] == small,
        parent[big as int] == big,
        new_rank == rank || (rank[small] == rank[big as int] && rank[big as int] < 255 && new_rank
            == rank.update(big as int, (rank[big as int] + 1) as u8)),
        new_rank == rank ==> rank[small] < rank[big as int],
        0 <= i < parent.len(),
    ensures
        forest(parent.update(small, big), new_rank),
        root(parent.update(small, big), new_rank, i) == (if root(parent, rank, i) == small {
            big as int
        } else {
            root(parent, rank, i)
        }),
    decreases 256 - rank[i],
{
    let next = parent.update(small, big);
    assert forall|k: int| 0 <= k < next.len() && (#[trigger] next[k]) != k implies new_rank[k]
        < new_rank[next[k] as int] by {
        if k != small {
            assert(parent[k] != k);
            assert(k != big);
        }
    }
    assert(forest(next, new_rank));
    if i == small {
        assert(root(next, new_rank, big as int) == big);
    } else if parent[i] != i {
        lemma_link_root(parent, rank, small, big, new_rank, parent[i] as int);
    }
}

proof fn lemma_link_balanced(
    parent: Seq<usize>,
    rank: Seq<u8>,
    small: int,
    big: usize,
    new_rank: Seq<u8>,
)
    requires
        forest(parent, rank),
        balanced(parent, rank),
        0 <= small < parent.len(),
        big < parent.len(),
        small != big,
        parent[small] == small,
        parent[big as int] == big,
        new_rank == rank || (rank[small] == rank[big as int] && rank[big as int] < 255 && new_rank
            == rank.update(big as int, (rank[big as int] + 1) as u8)),
        new_rank == rank ==> rank[small] < rank[big as int],
    ensures
        balanced(parent.update(small, big), new_rank),
{
    let next = parent.update(small, big);
    let merge = |i: int| if root(parent, rank, i) == small {
        big as int
    } else {
        root(parent, rank, i)
    };
    assert forall|i: int| 0 <= i < parent.len() implies #[trigger] root(next, new_rank, i) == merge(
        i,
    ) by {
        lemma_link_root(parent, rank, small, big, new_rank, i);
    }
    lemma_link_root(parent, rank, small, big, new_rank, small);
    set_lib::lemma_int_range(0, parent.len() as int);
    assert forall|r: int| 0 <= r < next.len() && next[r] == r implies power2::pow2(new_rank[r] as nat)
        <= #[trigger] tree(next, new_rank, r).len() by {
        let t_small = tree(parent, rank, small);
        let t_big = tree(parent, rank, big as int);
        if r == big {
            assert(tree(next, new_rank, r) =~= t_small.union(t_big));
            assert(t_small.disjoint(t_big));
            set_lib::lemma_set_disjoint_lens(t_small, t_big);
            if new_rank[r] != rank[r] {
                power2::lemma_pow2_unfold(new_rank[r] as nat);
            }
        } else {
            assert(r != small);
            assert(parent[r] == r);
            assert(tree(next, new_rank, r) =~= tree(parent, rank, r));
        }
    }
}

/// Some group holds `i`.
pub open spec fn listed(groups: Seq<Vec<usize>>, i: int) -> bool {
    exists|c: int, j: int|
        0 <= c < groups.len() && 0 <= j < groups[c]@.len() && (#[trigger] groups[c]@[j]) == i
}

/// Disjoint-set union over `0..n` indices.
pub struct UnionFind {
    parent: Vec<usize>,
    rank: Vec<u8>,
}

impl UnionFind {
    /// The structure is a forest, balanced by rank.
    pub closed spec fn wf(self) -> bool {
        forest(self.parent@, self.rank@) && balanced(self.parent@, self.rank@)
    }

    /// How many indices there are.
    pub closed spec fn size(self) -> nat {
        self.parent@.len()
    }

    /// The representative of the component of `i`.
    pub closed spec fn rep(self, i: int) -> int {
        root(self.parent@, self.rank@, i)
    }

    /// The rank of index `i`.
    pub closed spec fn rank_of(self, i: int) -> int {
        self.rank@[i] as int
    }

    /// `i` and `j` lie in one component.
    pub open spec fn same(self, i: int, j: int) -> bool {
        self.rep(i) == self.rep(j)
    }

    pub fn new(n: usize) -> (uf: Self)
        ensures
            uf.wf(),
            uf.size() == n,
            forall|i: int| 0 <= i < n ==> #[trigger] uf.rep(i) == i,
            forall|i: int| 0 <= i < n ==> #[trigger] uf.rank_of(i) == 0,
    {
        let mut parent: Vec<usize> = Vec::new();
        let mut rank: Vec<u8> = Vec::new();
        for i in 0..n
            invariant
                parent@.len() == i,
                rank@.len() == i,
                forall|k: int| 0 <= k < i ==> #[trigger] parent@[k] == k,
                forall|k: int| 0 <= k < i ==> #[trigger] rank@[k] == 0,
        {
            parent.push(i);
            rank.push(0);
        }
        proof {
            power2::lemma2_to64();
            set_lib::lemma_int_range(0, n as int);
            assert forall|r: int| 0 <= r < parent@.len() && parent@[r] == r implies power2::pow2(
                rank@[r] as nat,
            ) <= #[trigger] tree(parent@, rank@, r).len() by {
                assert(root(parent@, rank@, r) == r);
                let one = set![r];
                assert(one.subset_of(tree(parent@, rank@, r)));
                set_lib::lemma_len_subset(one, tree(parent@, rank@, r));
            }
        }
        UnionFind { parent, rank }
    }

    /// Root of `x`, with path compression.
    pub fn find(&mut self, x: usize) -> (r: usize)
        requires
            old(self).wf(),
            x < old(self).size(),
        ensures
            r == old(self).rep(x as int),
            r < old(self).size(),
            final(self).wf(),
            final(self).size() == old(self).size(),
            forall|i: int|
                0 <= i < old(self).size() ==> #[trigger] final(self).rep(i) == old(self).rep(i),
            forall|i: int|
                0 <= i < old(self).size() ==> #[trigger] final(self).rank_of(i) == old(self).rank_of(i),
            final(self).rep(r as int) == r,
    {
        let mut x: usize = x;
        let ghost start = x;
        while self.parent[x] != x
            invariant
                old(self).wf(),
                self.wf(),
                x < self.size(),
                start < self.size(),
                self.size() == old(self).size(),
                self.rank@ == old(self).rank@,
                forall|i: int|
                    0 <= i < old(self).size() ==> #[trigger] root(self.parent@, self.rank@, i)
                        == root(old(self).parent@, old(self).rank@, i),
                root(self.parent@, self.rank@, x as int) == root(
                    self.parent@,
                    self.rank@,
                    start as int,
                ),
            decreases 256 - self.rank@[x as int],
        {
            let up: usize = self.parent[x];
            let next: usize = self.parent[up];
            proof {
                assert(root(self.parent@, self.rank@, x as int) == root(
                    self.parent@,
                    self.rank@,
                    up as int,
                ));
                assert(root(self.parent@, self.rank@, up as int) == root(
                    self.parent@,
                    self.rank@,
                    next as int,
                ));
                assert forall|i: int| 0 <= i < self.size() implies #[trigger] root(
                    self.parent@.update(x as int, next),
                    self.rank@,
                    i,
                ) == root(old(self).parent@, old(self).rank@, i) by {
                    lemma_compress(self.parent@, self.rank@, x as int, next, i);
                }
                lemma_compress(self.parent@, self.rank@, x as int, next, x as int);
                lemma_same_trees(self.parent@, self.parent@.update(x as int, next), self.rank@);
            }
            self.parent[x] = next;
            x = next;
        }
        proof {
            lemma_root(old(self).parent@, old(self).rank@, start as int);
        }
        x
    }

    /// Union by rank. Returns true if `a` and `b` were in distinct
    /// components before the call. Where two roots of one rank are joined,
    /// that of `a` is on top and rises by one.
    pub fn union(&mut self, a: usize, b: usize) -> (joined: bool)
        requires
            old(self).wf(),
            a < old(self).size(),
            b < old(self).size(),
        ensures
            joined == !old(self).same(a as int, b as int),
            final(self).wf(),
            final(self).size() == old(self).size(),
            forall|i: int|
                0 <= i < old(self).size() ==> #[trigger] final(self).rep(i) == ({
                    let ra = old(self).rep(a as int);
                    let rb = old(self).rep(b as int);
                    let top = if old(self).rank_of(ra) < old(self).rank_of(rb) {
                        rb
                    } else {
                        ra
                    };
                    if old(self).rep(i) == ra || old(self).rep(i) == rb {
                        top
                    } else {
                        old(self).rep(i)
                    }
                }),
            forall|i: int|
                0 <= i < old(self).size() ==> #[trigger] final(self).rank_of(i) == ({
                    let ra = old(self).rep(a as int);
                    let rb = old(self).rep(b as int);
                    if ra != rb && old(self).rank_of(ra) == old(self).rank_of(rb) && i == ra {
                        old(self).rank_of(i) + 1
                    } else {
                        old(self).rank_of(i)
                    }
                }),
            forall|i: int, j: int|
                0 <= i < old(self).size() && 0 <= j < old(self).size() ==> (#[trigger] final(self).same(i, j) <==> {
                    ||| old(self).same(i, j)
                    ||| old(self).same(i, a as int) && old(self).same(b as int, j)
                    ||| old(self).same(i, b as int) && old(self).same(a as int, j)
                }),
    {
        let ra: usize = self.find(a);
        let rb: usize = self.find(b);
        if ra == rb {
            return false;
        }
        let (small, big): (usize, usize) = if self.rank[ra] < self.rank[rb] {
            (ra, rb)
        } else {
            (rb, ra)
        };
        let ghost p = self.parent@;
        let ghost k = self.rank@;
        let ghost mid = *self;
        proof {
            assert(self.rep(ra as int) == ra);
            assert(self.rep(rb as int) == rb);
            lemma_root(p, k, ra as int);
            lemma_root(p, k, rb as int);
            assert(p.len() == self.parent.len());
            lemma_rank_small(p, k, big as int);
            assert(self.rank_of(ra as int) == old(self).rank_of(ra as int));
            assert(self.rank_of(rb as int) == old(self).rank_of(rb as int));
        }
        self.parent[small] = big;
        if self.rank[ra] == self.rank[rb] {
            let bumped: u8 = self.rank[big] + 1;
            self.rank[big] = bumped;
        }
        proof {
            let nk = self.rank@;
            assert forall|i: int| 0 <= i < p.len() implies #[trigger] root(self.parent@, nk, i)
                == (if root(p, k, i) == small {
                big as int
            } else {
                root(p, k, i)
            }) by {
                lemma_link_root(p, k, small as int, big, nk, i);
            }
            lemma_link_root(p, k, small as int, big, nk, small as int);
            lemma_link_balanced(p, k, small as int, big, nk);
            assert forall|i: int| 0 <= i < p.len() implies #[trigger] self.rank_of(i) == (if k[ra as int]
                == k[rb as int] && i == ra {
                old(self).rank_of(i) + 1
            } else {
                old(self).rank_of(i)
            }) by {
                assert(mid.rank_of(i) == old(self).rank_of(i));
                assert(k[i] as int == mid.rank_of(i));
            }
            assert forall|i: int| 0 <= i < p.len() implies #[trigger] self.rep(i) == (if old(self).rep(i) == small {
                big as int
            } else {
                old(self).rep(i)
            }) by {
                assert(mid.rep(i) == old(self).rep(i));
            }
        }
        true
    }

    /// Group indices by their root. Each inner `Vec` is one connected
    /// component, in increasing order; components come in increasing order
    /// of their roots.
    pub fn components(&mut self) -> (out: Vec<Vec<usize>>)
        requires
            old(self).wf(),
        ensures
            final(self).wf(),
            final(self).size() == old(self).size(),
            forall|i: int|
                0 <= i < old(self).size() ==> #[trigger] final(self).rep(i) == old(self).rep(i),
            forall|c: int| 0 <= c < out@.len() ==> (#[trigger] out@[c])@.len() > 0,
            forall|c: int, j: int|
                0 <= c < out@.len() && 0 <= j < out@[c]@.len() ==> (#[trigger] out@[c]@[j]) < old(self).size() && old(self).same(out@[c]@[j] as int, out@[c]@[0] as int),
            forall|c: int, j: int, k: int|
                0 <= c < out@.len() && 0 <= j < k < out@[c]@.len() ==> (#[trigger] out@[c]@[j])
                    < (#[trigger] out@[c]@[k]),
            forall|c: int, d: int|
                0 <= c < d < out@.len() ==> old(self).rep((#[trigger] out@[c])@[0] as int) < old(self).rep((#[trigger] out@[d])@[0] as int),
            forall|i: int| 0 <= i < old(self).size() ==> #[trigger] listed(out@, i),
    {
        let n: usize = self.parent.len();
        let ghost start = *self;
        let mut buckets: Vec<Vec<usize>> = Vec::new();
        for i in 0..n
            invariant
                buckets@.len() == i,
                forall|r: int| 0 <= r < i ==> (#[trigger] buckets@[r])@.len() == 0,
        {
            buckets.push(Vec::new());
        }
        proof {
            assert forall|k: int| 0 <= k < n implies 0 <= #[trigger] start.rep(k) < n by {
                lemma_root(start.parent@, start.rank@, k);
            }
        }
        for i in 0..n
            invariant
                n == start.size(),
                start.wf(),
                start == *old(self),
                self.wf(),
                self.size() == n,
                buckets@.len() == n,
                forall|k: int| 0 <= k < n ==> #[trigger] self.rep(k) == start.rep(k),
                forall|r: int, j: int|
                    0 <= r < n && 0 <= j < buckets@[r]@.len() ==> (#[trigger] buckets@[r]@[j]) < i
                        && start.rep(buckets@[r]@[j] as int) == r,
                forall|r: int, j: int, k: int|
                    0 <= r < n && 0 <= j < k < buckets@[r]@.len() ==> (#[trigger] buckets@[r]@[j])
                        < (#[trigger] buckets@[r]@[k]),
                forall|k: int| 0 <= k < i ==> #[trigger] buckets@[start.rep(k)]@.contains(k as usize),
                forall|k: int|
                    0 <= k < n ==> 0 <= #[trigger] start.rep(k) < n,
        {
            let r: usize = self.find(i);
            let ghost before = buckets@;
            buckets[r].push(i);
            proof {
                assert forall|k: int| 0 <= k < i + 1 implies #[trigger] buckets@[start.rep(
                    k,
                )]@.contains(k as usize) by {
                    if k < i {
                        assert(before[start.rep(k)]@.contains(k as usize));
                        let j = choose|j: int|
                            0 <= j < before[start.rep(k)]@.len() && before[start.rep(k)]@[j]
                                == k as usize;
                        assert(buckets@[start.rep(k)]@[j] == k);
                    } else {
                        let j = before[r as int]@.len() as int;
                        assert(buckets@[start.rep(k)]@[j] == k);
                    }
                }
            }
        }
        let ghost groups = buckets@;
        let mut out: Vec<Vec<usize>> = Vec::new();
        let ghost mut roots: Seq<int> = Seq::empty();
        let mut r: usize = 0;
        while r < n
            invariant
                r <= n,
                groups.len() == n,
                buckets@.len() == n,
                forall|s: int| r <= s < n ==> #[trigger] buckets@[s] == groups[s],
                roots.len() == out@.len(),
                forall|c: int| 0 <= c < roots.len() ==> 0 <= #[trigger] roots[c] < r,
                forall|c: int|
                    0 <= c < roots.len() ==> (#[trigger] out@[c]) == groups[roots[c]]
                        && out@[c]@.len() > 0,
                forall|c: int, d: int| 0 <= c < d < roots.len() ==> roots[c] < roots[d],
                forall|s: int|
                    0 <= s < r && (#[trigger] groups[s])@.len() > 0 ==> exists|c: int|
                        0 <= c < roots.len() && #[trigger] roots[c] == s,
            decreases n - r,
        {
            if buckets[r].len() > 0 {
                let mut group: Vec<usize> = Vec::new();
                std::mem::swap(&mut group, &mut buckets[r]);
                let ghost before = roots;
                proof {
                    roots = roots.push(r as int);
                    assert forall|s: int| 0 <= s < r + 1 && (#[trigger] groups[s])@.len() > 0
                        implies exists|c: int| 0 <= c < roots.len() && #[trigger] roots[c] == s by {
                        if s < r {
                            let c = choose|c: int| 0 <= c < before.len() && #[trigger] before[c] == s;
                            assert(roots[c] == s);
                        } else {
                            assert(roots[before.len() as int] == s);
                        }
                    }
                }
                out.push(group);
            }
            r = r + 1;
        }
        proof {
            assert forall|i: int| 0 <= i < n implies #[trigger] listed(out@, i) by {
                assert(0 <= start.rep(i) < n);
                assert(groups[start.rep(i)]@.contains(i as usize));
                let j = choose|j: int|
                    0 <= j < groups[start.rep(i)]@.len() && groups[start.rep(i)]@[j] == i as usize;
                let c = choose|c: int| 0 <= c < roots.len() && #[trigger] roots[c] == start.rep(i);
                assert(out@[c]@[j] == i);
            }
            assert forall|c: int, d: int| 0 <= c < d < out@.len() implies start.rep(
                (#[trigger] out@[c])@[0] as int,
            ) < start.rep((#[trigger] out@[d])@[0] as int) by {
                assert(roots[c] < roots[d]);
                assert(out@[c] == groups[roots[c]] && out@[d] == groups[roots[d]]);
                assert(start.rep(groups[roots[c]]@[0] as int) == roots[c]);
                assert(start.rep(groups[roots[d]]@[0] as int) == roots[d]);
            }
            assert forall|c: int, j: int| 0 <= c < out@.len() && 0 <= j < out@[c]@.len() implies (
            #[trigger] out@[c]@[j]) < n && start.same(out@[c]@[j] as int, out@[c]@[0] as int) by {
                assert(start.rep(groups[roots[c]]@[j] as int) == roots[c]);
                assert(start.rep(groups[roots[c]]@[0] as int) == roots[c]);
            }
        }
        out
    }
}

} // verus!
