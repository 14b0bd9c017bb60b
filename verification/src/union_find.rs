//! Disjoint sets with union by rank and path compression.

use vstd::prelude::*;

verus! {

#[derive(Debug)]
pub struct UnionFind {
    parent: Vec<usize>,
    rank: Vec<usize>,
}

/// Whether items link to items of higher rank, up to roots that link to
/// themselves.
spec fn climbs(parent: Seq<usize>, rank: Seq<usize>) -> bool {
    &&& parent.len() == rank.len()
    &&& forall|x: int|
        0 <= x < parent.len() ==> #[trigger] parent[x] < parent.len() && (parent[x] == x
            || rank[x] < rank[parent[x] as int])
}

/// The root that item `x` leads to.
spec fn root_of(parent: Seq<usize>, rank: Seq<usize>, x: int) -> int
    decreases usize::MAX - rank[x],
    when climbs(parent, rank) && 0 <= x < parent.len()
{
    if parent[x] == x {
        x
    } else {
        root_of(parent, rank, parent[x] as int)
    }
}

/// Number of roots among the first `n` items.
spec fn roots(parent: Seq<usize>, n: int) -> nat
    decreases n,
{
    if n <= 0 {
        0
    } else {
        roots(parent, n - 1) + if parent[n - 1] == n - 1 {
            1nat
        } else {
            0nat
        }
    }
}

proof fn lemma_root<'a>(parent: Seq<usize>, rank: Seq<usize>, x: int)
    requires
        climbs(parent, rank),
        0 <= x < parent.len(),
    ensures
        0 <= root_of(parent, rank, x) < parent.len(),
        parent[root_of(parent, rank, x)] == root_of(parent, rank, x),
        root_of(parent, rank, root_of(parent, rank, x)) == root_of(parent, rank, x),
        root_of(parent, rank, x) != x ==> rank[x] < rank[root_of(parent, rank, x)],
    decreases usize::MAX - rank[x],
{
    if parent[x] != x {
        lemma_root(parent, rank, parent[x] as int);
    }
}

/// Linking a non-root straight to its root changes no root.
proof fn lemma_compress(parent: Seq<usize>, rank: Seq<usize>, x: int, y: int)
    requires
        climbs(parent, rank),
        0 <= x < parent.len(),
        0 <= y < parent.len(),
        parent[x] != x,
    ensures
        climbs(parent.update(x, root_of(parent, rank, x) as usize), rank),
        root_of(parent.update(x, root_of(parent, rank, x) as usize), rank, y) == root_of(
            parent,
            rank,
            y,
        ),
    decreases usize::MAX - rank[y],
{
    lemma_root(parent, rank, x);
    let r = root_of(parent, rank, x);
    let next = parent.update(x, r as usize);
    assert(r != x);
    assert(climbs(next, rank));
    if parent[y] == y {
        assert(next[y] == y);
    } else if y == x {
        assert(next[r] == r);
        assert(root_of(next, rank, r) == r);
    } else {
        lemma_compress(parent, rank, x, parent[y] as int);
    }
}

proof fn lemma_roots_same(a: Seq<usize>, b: Seq<usize>, n: int)
    requires
        n <= a.len(),
        n <= b.len(),
        forall|x: int| 0 <= x < n ==> ((#[trigger] a[x] == x) == (b[x] == x)),
    ensures
        roots(a, n) == roots(b, n),
    decreases n,
{
    if n > 0 {
        lemma_roots_same(a, b, n - 1);
        assert((a[n - 1] == n - 1) == (b[n - 1] == n - 1));
    }
}

/// Linking a root elsewhere leaves one root less.
proof fn lemma_roots_less(parent: Seq<usize>, x: int, y: usize, n: int)
    requires
        0 <= x < n <= parent.len(),
        parent[x] == x,
        y != x,
    ensures
        roots(parent.update(x, y), n) + 1 == roots(parent, n),
    decreases n,
{
    let next = parent.update(x, y);
    if n - 1 == x {
        assert forall|z: int| 0 <= z < n - 1 implies ((#[trigger] parent[z] == z) == (next[z]
            == z)) by {}
        lemma_roots_same(parent, next, n - 1);
    } else {
        lemma_roots_less(parent, x, y, n - 1);
    }
}

proof fn lemma_roots_all(parent: Seq<usize>, n: int)
    requires
        0 <= n <= parent.len(),
        forall|x: int| 0 <= x < n ==> #[trigger] parent[x] == x,
    ensures
        roots(parent, n) == n,
    decreases n,
{
    if n > 0 {
        lemma_roots_all(parent, n - 1);
    }
}

proof fn lemma_some_root(parent: Seq<usize>, x: int, n: int)
    requires
        0 <= x < n <= parent.len(),
        parent[x] == x,
    ensures
        roots(parent, n) >= 1,
    decreases n,
{
    if n - 1 != x {
        lemma_some_root(parent, x, n - 1);
    }
}

/// After linking root `a` to root `b`, what led to `a` leads to `b`.
proof fn lemma_link(
    parent: Seq<usize>,
    rank: Seq<usize>,
    next_rank: Seq<usize>,
    a: int,
    b: int,
    y: int,
)
    requires
        climbs(parent, rank),
        0 <= a < parent.len(),
        0 <= b < parent.len(),
        0 <= y < parent.len(),
        a != b,
        parent[a] == a,
        parent[b] == b,
        climbs(parent.update(a, b as usize), next_rank),
    ensures
        root_of(parent.update(a, b as usize), next_rank, y) == if root_of(parent, rank, y) == a {
            b
        } else {
            root_of(parent, rank, y)
        },
    decreases usize::MAX - rank[y],
{
    let next = parent.update(a, b as usize);
    if parent[y] == y {
        if y == a {
            assert(next[b] == b);
            assert(root_of(next, next_rank, b) == b);
        } else {
            assert(next[y] == y);
        }
    } else {
        assert(next[y] == parent[y]);
        lemma_link(parent, rank, next_rank, a, b, parent[y] as int);
    }
}

impl UnionFind {
    /// Number of items.
    pub closed spec fn size(self) -> nat {
        self.parent@.len()
    }

    pub closed spec fn wf(self) -> bool {
        &&& climbs(self.parent@, self.rank@)
        &&& forall|x: int|
            0 <= x < self.rank@.len() ==> #[trigger] self.rank@[x] + roots(
                self.parent@,
                self.parent@.len() as int,
            ) <= self.parent@.len()
    }

    /// The item that stands for the set that `x` is in.
    pub closed spec fn root(self, x: int) -> int {
        root_of(self.parent@, self.rank@, x)
    }

    /// The rank of item `x`: a set of higher rank takes in one of lower rank.
    pub closed spec fn rank(self, x: int) -> nat {
        self.rank@[x] as nat
    }

    /// Number of sets.
    pub closed spec fn sets(self) -> nat {
        roots(self.parent@, self.parent@.len() as int)
    }

    /// The item that stands for the sets of `x` and `y` once they are one: that
    /// of the set of higher rank, on equal rank that of `x`.
    pub open spec fn joint_root(self, x: int, y: int) -> int {
        if self.rank(self.root(x)) < self.rank(self.root(y)) {
            self.root(y)
        } else {
            self.root(x)
        }
    }

    /// How many ranks there can be above item `x`.
    pub closed spec fn height_left(self, x: int) -> int {
        usize::MAX - self.rank@[x]
    }

    /// Whether `x` and `y` are in one set.
    pub open spec fn same(self, x: int, y: int) -> bool {
        self.root(x) == self.root(y)
    }

    /// A set is stood for by one of the items.
    pub proof fn root_in_range(self, x: int)
        requires
            self.wf(),
            0 <= x < self.size(),
        ensures
            0 <= self.root(x) < self.size(),
    {
        lemma_root(self.parent@, self.rank@, x);
    }

    /// `n` items, each in a set of its own.
    pub fn new(n: usize) -> (r: Self)
        ensures
            r.wf(),
            r.size() == n,
            r.sets() == n,
            forall|x: int| 0 <= x < n ==> #[trigger] r.root(x) == x && r.rank(x) == 0,
            forall|x: int, y: int|
                0 <= x < n && 0 <= y < n ==> (#[trigger] r.same(x, y) <==> x == y),
    {
        let mut parent: Vec<usize> = Vec::new();
        while parent.len() < n
            invariant
                parent@.len() <= n,
                forall|x: int| 0 <= x < parent@.len() ==> #[trigger] parent@[x] == x,
            decreases n - parent@.len(),
        {
            let i: usize = parent.len();
            parent.push(i);
        }
        let rank: Vec<usize> = vec![0; n];
        proof {
            lemma_roots_all(parent@, n as int);
        }
        UnionFind { parent, rank }
    }

    /// The item that stands for the set that `x` is in.
    pub fn find(&mut self, x: usize) -> (r: usize)
        requires
            old(self).wf(),
            x < old(self).size(),
        ensures
            final(self).wf(),
            final(self).size() == old(self).size(),
            final(self).sets() == old(self).sets(),
            r == old(self).root(x as int),
            r < old(self).size(),
            forall|y: int|
                0 <= y < old(self).size() ==> #[trigger] final(self).root(y) == old(self).root(y),
            forall|y: int|
                0 <= y < old(self).size() ==> #[trigger] final(self).rank(y) == old(self).rank(y),
            forall|y: int, z: int|
                0 <= y < old(self).size() && 0 <= z < old(self).size() ==> #[trigger] final(self).same(y, z) == old(self).same(y, z),
            final(self).root(r as int) == r,
        decreases old(self).height_left(x as int),
    {
        let p: usize = self.parent[x];
        if p != x {
            let root: usize = self.find(p);
            let ghost parent0 = self.parent@;
            let ghost mid = *self;
            proof {
                lemma_root(old(self).parent@, old(self).rank@, x as int);
                assert(old(self).root(x as int) == old(self).root(p as int));
                lemma_root(old(self).parent@, old(self).rank@, p as int);
                assert(self.root(x as int) == root);
                assert(root != x);
                assert(parent0[x as int] != x);
                lemma_root(parent0, self.rank@, x as int);
                assert forall|y: int| 0 <= y < parent0.len() implies #[trigger] root_of(
                    parent0.update(x as int, root),
                    self.rank@,
                    y,
                ) == root_of(parent0, self.rank@, y) by {
                    lemma_compress(parent0, self.rank@, x as int, y);
                }
                lemma_compress(parent0, self.rank@, x as int, x as int);
                assert forall|z: int| 0 <= z < parent0.len() implies ((#[trigger] parent0[z] == z)
                    == (parent0.update(x as int, root)[z] == z)) by {}
                lemma_roots_same(parent0, parent0.update(x as int, root), parent0.len() as int);
            }
            self.parent[x] = root;
            proof {
                assert forall|y: int| 0 <= y < old(self).size() implies #[trigger] self.root(y)
                    == old(self).root(y) by {
                    assert(mid.root(y) == old(self).root(y));
                }
                assert forall|y: int| 0 <= y < old(self).size() implies #[trigger] self.rank(y)
                    == old(self).rank(y) by {
                    assert(mid.rank(y) == old(self).rank(y));
                }
            }
            root
        } else {
            x
        }
    }

    /// Puts the sets of `x` and `y` together.
    pub fn union(&mut self, x: usize, y: usize)
        requires
            old(self).wf(),
            x < old(self).size(),
            y < old(self).size(),
        ensures
            final(self).wf(),
            final(self).size() == old(self).size(),
            final(self).sets() == if old(self).same(x as int, y as int) {
                old(self).sets() as int
            } else {
                old(self).sets() - 1
            },
            forall|a: int|
                0 <= a < old(self).size() ==> #[trigger] final(self).root(a) == if old(self).same(
                    a,
                    x as int,
                ) || old(self).same(a, y as int) {
                    old(self).joint_root(x as int, y as int)
                } else {
                    old(self).root(a)
                },
            forall|a: int|
                0 <= a < old(self).size() ==> #[trigger] final(self).rank(a) == old(self).rank(a)
                    + if a == old(self).root(x as int) && !old(self).same(x as int, y as int)
                    && old(self).rank(old(self).root(x as int)) == old(self).rank(
                    old(self).root(y as int),
                ) {
                    1int
                } else {
                    0int
                },
            forall|a: int, b: int|
                0 <= a < old(self).size() && 0 <= b < old(self).size() ==> (#[trigger] final(self).same(a, b) <==> old(self).same(a, b) || (old(self).same(a, x as int) && old(self).same(b, y as int)) || (old(self).same(a, y as int) && old(self).same(
                    b,
                    x as int,
                ))),
    {
        let rx: usize = self.find(x);
        let ghost mid = *self;
        let ry: usize = self.find(y);
        assert(mid.root(x as int) == rx);
        assert(self.root(x as int) == rx);
        assert(self.root(y as int) == ry);
        assert forall|a: int| 0 <= a < old(self).size() implies #[trigger] self.root(a) == old(self).root(a) by {
            assert(mid.root(a) == old(self).root(a));
        }
        if rx == ry {
            return;
        }
        let ghost parent0 = self.parent@;
        let ghost rank0 = self.rank@;
        let ghost found = *self;
        assert forall|a: int| 0 <= a < old(self).size() implies #[trigger] found.rank(a) == old(self).rank(a) by {
            assert(mid.rank(a) == old(self).rank(a));
        }
        let n: Ghost<int> = Ghost(self.parent@.len() as int);
        let ghost mut gone: int = ry as int;
        let ghost mut stays: int = rx as int;
        proof {
            lemma_root(parent0, rank0, x as int);
            lemma_root(parent0, rank0, y as int);
            lemma_roots_less(parent0, rx as int, ry, n@);
            lemma_roots_less(parent0, ry as int, rx, n@);
            lemma_some_root(parent0, rx as int, n@);
        }
        if self.rank[rx] < self.rank[ry] {
            self.parent[rx] = ry;
            proof {
                gone = rx as int;
                stays = ry as int;
                assert(climbs(self.parent@, self.rank@));
                assert forall|a: int| 0 <= a < n@ implies #[trigger] self.root(a) == if root_of(
                    parent0,
                    rank0,
                    a,
                ) == rx {
                    ry as int
                } else {
                    root_of(parent0, rank0, a)
                } by {
                    lemma_link(parent0, rank0, self.rank@, rx as int, ry as int, a);
                }
            }
        } else if self.rank[rx] > self.rank[ry] {
            self.parent[ry] = rx;
            proof {
                assert(climbs(self.parent@, self.rank@));
                assert forall|a: int| 0 <= a < n@ implies #[trigger] self.root(a) == if root_of(
                    parent0,
                    rank0,
                    a,
                ) == ry {
                    rx as int
                } else {
                    root_of(parent0, rank0, a)
                } by {
                    lemma_link(parent0, rank0, self.rank@, ry as int, rx as int, a);
                }
            }
        } else {
            assert(self.rank@[rx as int] + roots(parent0, n@) <= n@);
            assert(n@ == self.parent.len());
            self.parent[ry] = rx;
            let r: usize = self.rank[rx];
            self.rank[rx] = r + 1;
            proof {
                assert(climbs(self.parent@, self.rank@));
                assert forall|a: int| 0 <= a < n@ implies #[trigger] self.root(a) == if root_of(
                    parent0,
                    rank0,
                    a,
                ) == ry {
                    rx as int
                } else {
                    root_of(parent0, rank0, a)
                } by {
                    lemma_link(parent0, rank0, self.rank@, ry as int, rx as int, a);
                }
            }
        }
        proof {
            assert(found.rank(rx as int) == old(self).rank(rx as int));
            assert(found.rank(ry as int) == old(self).rank(ry as int));
            assert(stays == old(self).joint_root(x as int, y as int));
            assert forall|a: int| 0 <= a < old(self).size() implies #[trigger] self.root(a)
                == if old(self).same(a, x as int) || old(self).same(a, y as int) {
                stays
            } else {
                old(self).root(a)
            } by {
                assert(found.root(a) == old(self).root(a));
                assert(found.root(a) == root_of(parent0, rank0, a));
            }
            assert forall|a: int| 0 <= a < old(self).size() implies #[trigger] self.rank(a)
                == old(self).rank(a) + if a == old(self).root(x as int) && !old(self).same(
                x as int,
                y as int,
            ) && old(self).rank(old(self).root(x as int)) == old(self).rank(
                old(self).root(y as int),
            ) {
                1int
            } else {
                0int
            } by {
                assert(found.rank(a) == old(self).rank(a));
            }
            assert forall|a: int, b: int|
                0 <= a < old(self).size() && 0 <= b < old(self).size() implies (#[trigger] self.same(
                a,
                b,
            ) <==> old(self).same(a, b) || (old(self).same(a, x as int) && old(self).same(
                b,
                y as int,
            )) || (old(self).same(a, y as int) && old(self).same(b, x as int))) by {
                assert(found.root(a) == old(self).root(a));
                assert(found.root(b) == old(self).root(b));
                assert(self.root(a) == if root_of(parent0, rank0, a) == gone {
                    stays
                } else {
                    root_of(parent0, rank0, a)
                });
                assert(self.root(b) == if root_of(parent0, rank0, b) == gone {
                    stays
                } else {
                    root_of(parent0, rank0, b)
                });
            }
        }
    }
}

} // verus!
