//! Union-find over face indices, with path compression.
//!
//! The forest is a parent array; a root is its own parent. Acyclicity is
//! witnessed by a ghost rank that strictly grows from a node to its parent and
//! stays below a ghost bound, which also gives `root_of` its termination
//! measure.

use vstd::prelude::*;

verus! {

/// `rank` orders the parent forest `p`: parents lie in range, and every
/// non-root has a smaller rank than its parent, all ranks below `bound`.
pub open spec fn ranks_ok(p: Seq<usize>, rank: Seq<nat>, bound: nat) -> bool {
    &&& rank.len() == p.len()
    &&& forall|i: int| 0 <= i < p.len() ==> #[trigger] p[i] < p.len()
    &&& forall|i: int| 0 <= i < p.len() ==> #[trigger] rank[i] < bound
    &&& forall|i: int| 0 <= i < p.len() && #[trigger] p[i] != i ==> rank[p[i] as int] > rank[i]
}

/// The root of the tree that holds `x`.
pub open spec fn root_of(p: Seq<usize>, rank: Seq<nat>, bound: nat, x: int) -> int
    decreases bound - rank[x],
    when ranks_ok(p, rank, bound) && 0 <= x < p.len()
{
    if p[x] == x {
        x
    } else {
        root_of(p, rank, bound, p[x] as int)
    }
}

/// Whether `y` lies on the path from `x` up to its root (both ends included).
pub open spec fn on_path(p: Seq<usize>, rank: Seq<nat>, bound: nat, x: int, y: int) -> bool
    decreases bound - rank[x],
    when ranks_ok(p, rank, bound) && 0 <= x < p.len()
{
    if x == y {
        true
    } else if p[x] == x {
        false
    } else {
        on_path(p, rank, bound, p[x] as int, y)
    }
}

/// Ranks do not fall along a path.
proof fn lemma_on_path_rank(p: Seq<usize>, rank: Seq<nat>, bound: nat, z: int, y: int)
    requires
        ranks_ok(p, rank, bound),
        0 <= z < p.len(),
        on_path(p, rank, bound, z, y),
    ensures
        0 <= y < p.len(),
        rank[y] >= rank[z],
    decreases bound - rank[z],
{
    if z != y {
        lemma_on_path_rank(p, rank, bound, p[z] as int, y);
    }
}

/// The path from `x` goes on through the parent of each non-root node on it.
proof fn lemma_on_path_step(p: Seq<usize>, rank: Seq<nat>, bound: nat, x: int, y: int)
    requires
        ranks_ok(p, rank, bound),
        0 <= x < p.len(),
        0 <= y < p.len(),
        on_path(p, rank, bound, x, y),
        p[y] != y,
    ensures
        on_path(p, rank, bound, x, p[y] as int),
    decreases bound - rank[x],
{
    if x != y {
        lemma_on_path_step(p, rank, bound, p[x] as int, y);
    } else {
        assert(on_path(p, rank, bound, p[x] as int, p[x] as int));
    }
}

/// The root of `x` is a root, and no lower in rank than `x`.
pub proof fn lemma_root_is_root(p: Seq<usize>, rank: Seq<nat>, bound: nat, x: int)
    requires
        ranks_ok(p, rank, bound),
        0 <= x < p.len(),
    ensures
        0 <= root_of(p, rank, bound, x) < p.len(),
        p[root_of(p, rank, bound, x)] == root_of(p, rank, bound, x),
        rank[root_of(p, rank, bound, x)] >= rank[x],
        p[x] != x ==> rank[root_of(p, rank, bound, x)] > rank[x],
        p[x] == x ==> root_of(p, rank, bound, x) == x,
    decreases bound - rank[x],
{
    if p[x] != x {
        lemma_root_is_root(p, rank, bound, p[x] as int);
    }
}

/// The root of a node does not depend on which rank witnesses acyclicity.
pub proof fn lemma_root_rank_free(
    p: Seq<usize>,
    r1: Seq<nat>,
    b1: nat,
    r2: Seq<nat>,
    b2: nat,
    x: int,
)
    requires
        ranks_ok(p, r1, b1),
        ranks_ok(p, r2, b2),
        0 <= x < p.len(),
    ensures
        root_of(p, r1, b1, x) == root_of(p, r2, b2, x),
    decreases b1 - r1[x],
{
    if p[x] != x {
        lemma_root_rank_free(p, r1, b1, r2, b2, p[x] as int);
    }
}

/// Pointing a node straight at its root keeps the forest ordered and every
/// node's root.
pub proof fn lemma_compress(p: Seq<usize>, rank: Seq<nat>, bound: nat, x: int, y: int)
    requires
        ranks_ok(p, rank, bound),
        0 <= x < p.len(),
        0 <= y < p.len(),
    ensures
        ranks_ok(p.update(x, root_of(p, rank, bound, x) as usize), rank, bound),
        root_of(p.update(x, root_of(p, rank, bound, x) as usize), rank, bound, y) == root_of(
            p,
            rank,
            bound,
            y,
        ),
    decreases bound - rank[y],
{
    let r = root_of(p, rank, bound, x);
    let q = p.update(x, r as usize);
    lemma_root_is_root(p, rank, bound, x);
    assert forall|i: int| 0 <= i < q.len() && #[trigger] q[i] != i implies rank[q[i] as int]
        > rank[i] by {
        if i == x {
            assert(p[x] != x);
        } else {
            assert(q[i] == p[i]);
        }
    }
    assert(ranks_ok(q, rank, bound));
    if y == x {
        if p[x] != x {
            assert(q[x] == r);
            assert(q[r] == r);
            assert(root_of(q, rank, bound, r) == r);
        }
    } else if p[y] != y {
        assert(q[y] == p[y]);
        lemma_compress(p, rank, bound, x, p[y] as int);
    }
}

/// Hanging root `rb` under root `ra` keeps the forest ordered (with `rank` of
/// `ra` raised as needed) and moves exactly the nodes of `rb`'s tree to `ra`.
pub proof fn lemma_link(p: Seq<usize>, rank: Seq<nat>, bound: nat, ra: int, rb: int, y: int)
    requires
        ranks_ok(p, rank, bound),
        0 <= ra < p.len(),
        0 <= rb < p.len(),
        0 <= y < p.len(),
        ra != rb,
        p[ra] == ra,
        p[rb] == rb,
    ensures
        ranks_ok(p.update(rb, ra as usize), link_rank(rank, ra, rb), link_bound(rank, bound, rb)),
        root_of(p.update(rb, ra as usize), link_rank(rank, ra, rb), link_bound(rank, bound, rb), y)
            == if root_of(p, rank, bound, y) == rb {
            ra
        } else {
            root_of(p, rank, bound, y)
        },
    decreases bound - rank[y],
{
    let q = p.update(rb, ra as usize);
    let r2 = link_rank(rank, ra, rb);
    let b2 = link_bound(rank, bound, rb);
    assert forall|i: int| 0 <= i < q.len() && #[trigger] q[i] != i implies r2[q[i] as int]
        > r2[i] by {
        if i == rb {
        } else {
            assert(q[i] == p[i]);
            assert(i != ra);
        }
    }
    assert forall|i: int| 0 <= i < q.len() implies #[trigger] r2[i] < b2 by {}
    assert(ranks_ok(q, r2, b2));
    if p[y] == y {
        if y == rb {
            assert(q[rb] == ra);
            assert(q[ra] == ra);
            assert(root_of(q, r2, b2, ra) == ra);
        } else {
            assert(q[y] == y);
        }
    } else {
        assert(q[y] == p[y]);
        lemma_link(p, rank, bound, ra, rb, p[y] as int);
    }
}

/// The rank after hanging `rb` under `ra`.
pub open spec fn link_rank(rank: Seq<nat>, ra: int, rb: int) -> Seq<nat> {
    rank.update(
        ra,
        if rank[ra] > rank[rb] {
            rank[ra]
        } else {
            rank[rb] + 1
        },
    )
}

/// The rank bound after hanging `rb` under another root.
pub open spec fn link_bound(rank: Seq<nat>, bound: nat, rb: int) -> nat {
    if bound > rank[rb] + 1 {
        bound
    } else {
        rank[rb] + 2
    }
}

/// Disjoint sets over `0..n`, as a parent forest with path compression.
pub struct UnionFind {
    parent: Vec<usize>,
    rank: Ghost<Seq<nat>>,
    bound: Ghost<nat>,
}

impl UnionFind {
    /// The forest is well ordered.
    pub closed spec fn wf(&self) -> bool {
        ranks_ok(self.parent@, self.rank@, self.bound@)
    }

    /// The number of elements.
    pub closed spec fn size(&self) -> nat {
        self.parent@.len()
    }

    /// The representative of the set that holds `x`.
    pub closed spec fn root(&self, x: int) -> int {
        root_of(self.parent@, self.rank@, self.bound@, x)
    }

    /// The parent of `x` in the forest.
    pub closed spec fn parent(&self, x: int) -> int {
        self.parent@[x] as int
    }

    /// Whether `y` lies on the path from `x` up to its representative.
    pub closed spec fn on_path(&self, x: int, y: int) -> bool {
        on_path(self.parent@, self.rank@, self.bound@, x, y)
    }

    /// Whether `x` is the representative of its set.
    pub closed spec fn is_root(&self, x: int) -> bool {
        self.parent@[x] == x
    }

    /// A root represents itself; every element's representative is a root.
    pub proof fn lemma_roots(&self, x: int)
        requires
            self.wf(),
            0 <= x < self.size(),
        ensures
            0 <= self.root(x) < self.size(),
            self.is_root(self.root(x)),
            self.is_root(x) ==> self.root(x) == x,
    {
        lemma_root_is_root(self.parent@, self.rank@, self.bound@, x);
    }

    /// `n` singleton sets `{0}, ..., {n - 1}`.
    pub fn new(n: usize) -> (uf: Self)
        ensures
            uf.wf(),
            uf.size() == n,
            forall|x: int| 0 <= x < n ==> #[trigger] uf.root(x) == x,
    {
        let mut parent: Vec<usize> = Vec::new();
        let mut i: usize = 0;
        while i < n
            invariant
                i <= n,
                parent@.len() == i,
                forall|j: int| 0 <= j < i ==> parent@[j] == j,
            decreases n - i,
        {
            parent.push(i);
            i = i + 1;
        }
        let uf = UnionFind {
            parent,
            rank: Ghost(Seq::new(n as nat, |j: int| 0nat)),
            bound: Ghost(1),
        };
        proof {
            assert(ranks_ok(uf.parent@, uf.rank@, uf.bound@));
            assert forall|x: int| 0 <= x < n implies #[trigger] uf.root(x) == x by {
                lemma_root_is_root(uf.parent@, uf.rank@, uf.bound@, x);
            }
        }
        uf
    }

    /// Finds the representative of `x`, pointing every node on the way
    /// directly at it. Every element keeps its representative.
    pub fn find(&mut self, x: usize) -> (r: usize)
        requires
            old(self).wf(),
            x < old(self).size(),
        ensures
            final(self).wf(),
            final(self).size() == old(self).size(),
            r == old(self).root(x as int),
            final(self).is_root(r as int),
            forall|y: int| 0 <= y < old(self).size() ==> #[trigger] final(self).root(y) == old(self).root(y),
            forall|y: int| 0 <= y < old(self).size() ==> (#[trigger] final(self).is_root(y) <==> old(self).is_root(y)),
            final(self).parent(x as int) == r,
            forall|y: int|
                0 <= y < old(self).size() && #[trigger] final(self).parent(y) != old(self).parent(y) ==> old(
                    self,
                ).on_path(x as int, y) && final(self).parent(y) == r,
            forall|y: int| 0 <= y < old(self).size() && #[trigger] old(self).on_path(x as int, y) ==> final(self).parent(y) == r,
    {
        let ghost p0 = self.parent@;
        let ghost rank = self.rank@;
        let ghost bound = self.bound@;
        let mut root = x;
        while self.parent[root] != root
            invariant
                self.parent@ == p0,
                self.rank@ == rank,
                self.bound@ == bound,
                ranks_ok(p0, rank, bound),
                root < p0.len(),
                root_of(p0, rank, bound, root as int) == root_of(p0, rank, bound, x as int),
            decreases bound - rank[root as int],
        {
            root = self.parent[root];
        }
        proof {
            lemma_root_is_root(p0, rank, bound, x as int);
        }
        let mut cur = x;
        while self.parent[cur] != root
            invariant
                self.rank@ == rank,
                self.bound@ == bound,
                self.parent@.len() == p0.len(),
                ranks_ok(self.parent@, rank, bound),
                cur < p0.len(),
                root < p0.len(),
                self.parent@[root as int] == root,
                root_of(self.parent@, rank, bound, cur as int) == root,
                forall|y: int|
                    0 <= y < p0.len() ==> #[trigger] root_of(self.parent@, rank, bound, y)
                        == root_of(p0, rank, bound, y),
                forall|y: int| 0 <= y < p0.len() ==> (self.parent@[y] == y <==> p0[y] == y),
                ranks_ok(p0, rank, bound),
                x < p0.len(),
                root as int == root_of(p0, rank, bound, x as int),
                on_path(p0, rank, bound, x as int, cur as int),
                cur == x || self.parent@[x as int] == root,
                forall|y: int|
                    0 <= y < p0.len() && #[trigger] self.parent@[y] != p0[y] ==> on_path(p0, rank, bound, x as int, y)
                        && self.parent@[y] == root && !on_path(p0, rank, bound, cur as int, y),
                forall|y: int|
                    0 <= y < p0.len() && #[trigger] on_path(p0, rank, bound, x as int, y) && !on_path(p0, rank, bound, cur as int, y)
                        ==> self.parent@[y] == root,
            decreases bound - rank[cur as int],
        {
            let next = self.parent[cur];
            proof {
                assert(next == p0[cur as int]);
                assert(p0[cur as int] != cur) by {
                    if p0[cur as int] == cur {
                        assert(self.parent@[cur as int] == cur);
                        lemma_root_is_root(self.parent@, rank, bound, cur as int);
                    }
                }
                lemma_on_path_step(p0, rank, bound, x as int, cur as int);
            }
            let ghost before = self.parent@;
            proof {
                lemma_root_is_root(before, rank, bound, cur as int);
                assert forall|y: int| 0 <= y < p0.len() implies #[trigger] root_of(
                    before.update(cur as int, root),
                    rank,
                    bound,
                    y,
                ) == root_of(p0, rank, bound, y) by {
                    lemma_compress(before, rank, bound, cur as int, y);
                }
                lemma_compress(before, rank, bound, cur as int, next as int);
            }
            self.parent.set(cur, root);
            proof {
                assert(self.parent@ == before.update(cur as int, root));
                assert(before[cur as int] != cur);
                // `cur` is not on the path from its parent.
                if on_path(p0, rank, bound, next as int, cur as int) {
                    lemma_on_path_rank(p0, rank, bound, next as int, cur as int);
                }
                assert forall|y: int| 0 <= y < p0.len() && #[trigger] on_path(p0, rank, bound, next as int, y) implies on_path(p0, rank, bound, cur as int, y) by {}
                assert forall|y: int|
                    0 <= y < p0.len() && #[trigger] on_path(p0, rank, bound, x as int, y) && !on_path(p0, rank, bound, next as int, y)
                    implies self.parent@[y] == root by {
                    if y != cur as int {
                        assert(!on_path(p0, rank, bound, cur as int, y));
                    }
                }
            }
            cur = next;
        }
        proof {
            assert(self.parent@[cur as int] == p0[cur as int]);
            assert forall|y: int| 0 <= y < p0.len() && #[trigger] on_path(p0, rank, bound, x as int, y) implies self.parent@[y] == root by {
                if on_path(p0, rank, bound, cur as int, y) && y != cur as int {
                    assert(p0[cur as int] != cur);
                    assert(on_path(p0, rank, bound, root as int, y));
                    assert(p0[root as int] == root);
                    assert(y == root as int);
                }
            }
        }
        root
    }

    /// Hangs the set of root `absorbed` under root `keep`: afterwards every
    /// element that `absorbed` represented is represented by `keep`, and no
    /// other element changes representative.
    pub fn link(&mut self, keep: usize, absorbed: usize)
        requires
            old(self).wf(),
            keep < old(self).size(),
            absorbed < old(self).size(),
            keep != absorbed,
            old(self).is_root(keep as int),
            old(self).is_root(absorbed as int),
        ensures
            final(self).wf(),
            final(self).size() == old(self).size(),
            forall|y: int|
                0 <= y < old(self).size() ==> #[trigger] final(self).root(y) == if old(self).root(y)
                    == absorbed {
                    keep as int
                } else {
                    old(self).root(y)
                },
            forall|y: int|
                0 <= y < old(self).size() ==> (#[trigger] final(self).is_root(y) <==> (old(
                    self,
                ).is_root(y) && y != absorbed)),
    {
        let ghost p0 = self.parent@;
        let ghost rank = self.rank@;
        let ghost bound = self.bound@;
        self.parent.set(absorbed, keep);
        self.rank = Ghost(link_rank(rank, keep as int, absorbed as int));
        self.bound = Ghost(link_bound(rank, bound, absorbed as int));
        proof {
            assert(self.parent@ == p0.update(absorbed as int, keep));
            assert forall|y: int| 0 <= y < p0.len() implies #[trigger] self.root(y) == if root_of(
                p0,
                rank,
                bound,
                y,
            ) == absorbed {
                keep as int
            } else {
                root_of(p0, rank, bound, y)
            } by {
                lemma_link(p0, rank, bound, keep as int, absorbed as int, y);
            }
            lemma_link(p0, rank, bound, keep as int, absorbed as int, 0);
        }
    }
}

} // verus!
