//! Grouping of ways into lines: ways that share an end belong together.

use crate::union_find::UnionFind;
use std::collections::HashMap;
use vstd::prelude::*;

verus! {

/// Whether ways `i` and `j` share an end.
pub open spec fn touch(ends: Seq<(u64, u64)>, i: int, j: int) -> bool {
    ends[i].0 == ends[j].0 || ends[i].0 == ends[j].1 || ends[i].1 == ends[j].0 || ends[i].1
        == ends[j].1
}

/// Whether every way of a chain shares an end with the next.
pub open spec fn chain(ends: Seq<(u64, u64)>, path: Seq<int>) -> bool {
    &&& path.len() > 0
    &&& forall|k: int| 0 <= k < path.len() ==> 0 <= #[trigger] path[k] < ends.len()
    &&& forall|k: int| 0 <= k < path.len() - 1 ==> touch(ends, #[trigger] path[k], path[k + 1])
}

/// Whether a chain of ways leads from way `i` to way `j`.
pub open spec fn linked(ends: Seq<(u64, u64)>, i: int, j: int) -> bool {
    exists|path: Seq<int>| #[trigger] chain(ends, path) && path[0] == i && path.last() == j
}

/// Whether groups of ways are the lines that the ways make: every way is in
/// one group, two ways are in one group exactly where a chain links them, the
/// ways of a group are in order, and so are the groups by their first ways.
pub open spec fn is_clustering(ends: Seq<(u64, u64)>, groups: Seq<Seq<usize>>) -> bool {
    &&& forall|g: int| 0 <= g < groups.len() ==> (#[trigger] groups[g]).len() > 0
    &&& forall|g: int, a: int|
        0 <= g < groups.len() && 0 <= a < groups[g].len() ==> #[trigger] groups[g][a] < ends.len()
    &&& forall|g: int, a: int, b: int|
        0 <= g < groups.len() && 0 <= a < b < groups[g].len() ==> #[trigger] groups[g][a]
            < #[trigger] groups[g][b]
    &&& forall|g: int, h: int|
        0 <= g < h < groups.len() ==> (#[trigger] groups[g])[0] < (#[trigger] groups[h])[0]
    &&& forall|i: int| 0 <= i < ends.len() ==> #[trigger] is_member(groups, i)
    &&& forall|g: int, h: int, a: int, b: int|
        0 <= g < groups.len() && 0 <= h < groups.len() && 0 <= a < groups[g].len() && 0 <= b
            < groups[h].len() ==> (g == h <==> linked(
            ends,
            #[trigger] groups[g][a] as int,
            #[trigger] groups[h][b] as int,
        ))
}

/// Whether way `i` is in one of the groups.
pub open spec fn is_member(groups: Seq<Seq<usize>>, i: int) -> bool {
    exists|g: int, a: int|
        0 <= g < groups.len() && 0 <= a < groups[g].len() && #[trigger] groups[g][a] == i
}

/// What a list of lists holds.
pub open spec fn lists(groups: Seq<Vec<usize>>) -> Seq<Seq<usize>> {
    groups.map_values(|g: Vec<usize>| g@)
}

proof fn lemma_linked_step(ends: Seq<(u64, u64)>, i: int, j: int, k: int)
    requires
        linked(ends, i, j),
        0 <= k < ends.len(),
        touch(ends, j, k),
    ensures
        linked(ends, i, k),
{
    let path = choose|path: Seq<int>| #[trigger]
        chain(ends, path) && path[0] == i && path.last() == j;
    let longer = path.push(k);
    assert forall|n: int| 0 <= n < longer.len() - 1 implies touch(
        ends,
        #[trigger] longer[n],
        longer[n + 1],
    ) by {
        if n < path.len() - 1 {
            assert(touch(ends, path[n], path[n + 1]));
        }
    }
    assert(chain(ends, longer));
}

proof fn lemma_linked_self(ends: Seq<(u64, u64)>, i: int)
    requires
        0 <= i < ends.len(),
    ensures
        linked(ends, i, i),
{
    assert(chain(ends, seq![i]));
    assert(seq![i].last() == i);
}

proof fn lemma_linked_trans(ends: Seq<(u64, u64)>, i: int, j: int, k: int)
    requires
        linked(ends, i, j),
        linked(ends, j, k),
    ensures
        linked(ends, i, k),
{
    let path = choose|path: Seq<int>| #[trigger]
        chain(ends, path) && path[0] == j && path.last() == k;
    lemma_linked_along(ends, i, path, path.len() - 1);
}

proof fn lemma_linked_along(ends: Seq<(u64, u64)>, i: int, path: Seq<int>, n: int)
    requires
        chain(ends, path),
        linked(ends, i, path[0]),
        0 <= n < path.len(),
    ensures
        linked(ends, i, path[n]),
    decreases n,
{
    if n > 0 {
        lemma_linked_along(ends, i, path, n - 1);
        assert(touch(ends, path[n - 1], path[n - 1 + 1]));
        lemma_linked_step(ends, i, path[n - 1], path[n]);
    }
}

proof fn lemma_linked_sym(ends: Seq<(u64, u64)>, i: int, j: int)
    requires
        linked(ends, i, j),
    ensures
        linked(ends, j, i),
{
    let path = choose|path: Seq<int>| #[trigger]
        chain(ends, path) && path[0] == i && path.last() == j;
    let back = path.reverse();
    assert forall|k: int| 0 <= k < back.len() - 1 implies touch(
        ends,
        #[trigger] back[k],
        back[k + 1],
    ) by {
        let n = path.len() - 2 - k;
        assert(touch(ends, path[n], path[n + 1]));
    }
    assert(chain(ends, back));
    assert(back.last() == i);
}

/// Whether the sets hold only ways that chains link.
spec fn sound(ends: Seq<(u64, u64)>, uf: UnionFind) -> bool {
    forall|i: int, j: int|
        0 <= i < ends.len() && 0 <= j < ends.len() && #[trigger] uf.same(i, j) ==> linked(ends, i, j)
}

/// Whether node `node` is an end of way `i`.
spec fn is_end(ends: Seq<(u64, u64)>, i: int, node: u64) -> bool {
    ends[i].0 == node || ends[i].1 == node
}

/// Whether the index knows a way at every end met so far, and every way that
/// ends there is in one set with it.
spec fn indexed(
    ends: Seq<(u64, u64)>,
    uf: UnionFind,
    index: Map<u64, usize>,
    i: int,
    node: u64,
) -> bool {
    index.contains_key(node) && uf.same(i, index[node] as int)
}

/// Whether the index leads to ways that have the node as an end.
spec fn index_sound(ends: Seq<(u64, u64)>, index: Map<u64, usize>) -> bool {
    forall|node: u64| #[trigger]
        index.contains_key(node) ==> index[node] < ends.len() && is_end(
            ends,
            index[node] as int,
            node,
        )
}

/// Takes one end of way `i` in.
fn join_end(
    ends: &Vec<(u64, u64)>,
    uf: &mut UnionFind,
    index: &mut HashMap<u64, usize>,
    i: usize,
    node: u64,
)
    requires
        old(uf).wf(),
        old(uf).size() == ends@.len(),
        i < ends@.len(),
        is_end(ends@, i as int, node),
        sound(ends@, *old(uf)),
        index_sound(ends@, old(index)@),
    ensures
        final(uf).wf(),
        final(uf).size() == ends@.len(),
        sound(ends@, *final(uf)),
        index_sound(ends@, final(index)@),
        indexed(ends@, *final(uf), final(index)@, i as int, node),
        forall|a: int, n: u64|
            0 <= a < ends@.len() && indexed(ends@, *old(uf), old(index)@, a, n)
                ==> #[trigger] indexed(ends@, *final(uf), final(index)@, a, n),
{
    broadcast use vstd::std_specs::hash::group_hash_axioms;

    let ghost uf0 = *uf;
    let ghost index0 = index@;
    match index.get(&node) {
        Some(w) => {
            let w: usize = *w;
            uf.union(w, i);
            proof {
                assert(touch(ends@, w as int, i as int));
                lemma_linked_self(ends@, w as int);
                lemma_linked_step(ends@, w as int, w as int, i as int);
                lemma_linked_sym(ends@, w as int, i as int);
                assert forall|a: int, b: int|
                    0 <= a < ends@.len() && 0 <= b < ends@.len() && #[trigger] uf.same(
                        a,
                        b,
                    ) implies linked(ends@, a, b) by {
                    if uf0.same(a, b) {
                    } else if uf0.same(a, w as int) && uf0.same(b, i as int) {
                        assert(uf0.same(i as int, b));
                        lemma_linked_trans(ends@, a, w as int, i as int);
                        lemma_linked_trans(ends@, a, i as int, b);
                    } else {
                        assert(uf0.same(w as int, b));
                        lemma_linked_trans(ends@, a, i as int, w as int);
                        lemma_linked_trans(ends@, a, w as int, b);
                    }
                }
                assert(uf0.same(i as int, i as int) && uf0.same(w as int, w as int));
                assert(uf.same(i as int, w as int));
                assert forall|a: int, n: u64|
                    0 <= a < ends@.len() && indexed(
                        ends@,
                        uf0,
                        index0,
                        a,
                        n,
                    ) implies #[trigger] indexed(ends@, *uf, index@, a, n) by {
                    assert(uf.same(a, index0[n] as int));
                }
            }
        },
        None => {
            index.insert(node, i);
            proof {
                assert forall|a: int, n: u64|
                    0 <= a < ends@.len() && indexed(
                        ends@,
                        uf0,
                        index0,
                        a,
                        n,
                    ) implies #[trigger] indexed(ends@, *uf, index@, a, n) by {
                    assert(n != node);
                }
            }
        },
    }
}

/// The sets of ways that chains link.
fn link_ways(ends: &Vec<(u64, u64)>) -> (r: UnionFind)
    ensures
        r.wf(),
        r.size() == ends@.len(),
        forall|i: int, j: int|
            0 <= i < ends@.len() && 0 <= j < ends@.len() ==> (#[trigger] r.same(i, j) <==> linked(
                ends@,
                i,
                j,
            )),
{
    broadcast use vstd::std_specs::hash::group_hash_axioms;

    let mut uf = UnionFind::new(ends.len());
    let mut index: HashMap<u64, usize> = HashMap::new();
    proof {
        assert forall|i: int, j: int|
            0 <= i < ends@.len() && 0 <= j < ends@.len() && #[trigger] uf.same(i, j) implies linked(
            ends@,
            i,
            j,
        ) by {
            lemma_linked_self(ends@, i);
        }
    }
    let mut i: usize = 0;
    while i < ends.len()
        invariant
            i <= ends@.len(),
            uf.wf(),
            uf.size() == ends@.len(),
            sound(ends@, uf),
            index_sound(ends@, index@),
            forall|a: int|
                0 <= a < i ==> #[trigger] indexed(ends@, uf, index@, a, ends@[a].0),
            forall|a: int|
                0 <= a < i ==> #[trigger] indexed(ends@, uf, index@, a, ends@[a].1),
        decreases ends@.len() - i,
    {
        let (first, last) = ends[i];
        join_end(ends, &mut uf, &mut index, i, first);
        join_end(ends, &mut uf, &mut index, i, last);
        i = i + 1;
    }
    proof {
        assert forall|i: int, j: int| 0 <= i < ends@.len() && 0 <= j < ends@.len() implies (
        #[trigger] uf.same(i, j) <==> linked(ends@, i, j)) by {
            if linked(ends@, i, j) {
                let path = choose|path: Seq<int>| #[trigger]
                    chain(ends@, path) && path[0] == i && path.last() == j;
                lemma_same_along(ends@, uf, index@, path, path.len() - 1);
            }
        }
    }
    uf
}

proof fn lemma_same_along(
    ends: Seq<(u64, u64)>,
    uf: UnionFind,
    index: Map<u64, usize>,
    path: Seq<int>,
    n: int,
)
    requires
        chain(ends, path),
        0 <= n < path.len(),
        forall|a: int| 0 <= a < ends.len() ==> #[trigger] indexed(ends, uf, index, a, ends[a].0),
        forall|a: int| 0 <= a < ends.len() ==> #[trigger] indexed(ends, uf, index, a, ends[a].1),
    ensures
        uf.same(path[0], path[n]),
    decreases n,
{
    if n > 0 {
        lemma_same_along(ends, uf, index, path, n - 1);
        let a = path[n - 1];
        let b = path[n];
        assert(touch(ends, path[n - 1], path[n - 1 + 1]));
        assert(indexed(ends, uf, index, a, ends[a].0));
        assert(indexed(ends, uf, index, a, ends[a].1));
        assert(indexed(ends, uf, index, b, ends[b].0));
        assert(indexed(ends, uf, index, b, ends[b].1));
    }
}

/// Groups ways into lines.
pub fn cluster(ends: &Vec<(u64, u64)>) -> (r: Vec<Vec<usize>>)
    ensures
        is_clustering(ends@, lists(r@)),
{
    broadcast use vstd::std_specs::hash::group_hash_axioms;

    let mut uf = link_ways(ends);
    let ghost sets = uf;
    let mut groups: Vec<Vec<usize>> = Vec::new();
    let mut index: HashMap<usize, usize> = HashMap::new();
    let mut i: usize = 0;
    while i < ends.len()
        invariant
            i <= ends@.len(),
            uf.wf(),
            uf.size() == ends@.len(),
            sets.wf(),
            sets.size() == ends@.len(),
            forall|a: int| 0 <= a < ends@.len() ==> #[trigger] uf.root(a) == sets.root(a),
            forall|g: int| 0 <= g < groups@.len() ==> (#[trigger] groups@[g])@.len() > 0,
            forall|g: int, a: int|
                0 <= g < groups@.len() && 0 <= a < groups@[g]@.len() ==> #[trigger] groups@[g]@[a]
                    < i,
            forall|g: int, a: int, b: int|
                0 <= g < groups@.len() && 0 <= a < b < groups@[g]@.len() ==> #[trigger] groups@[g]@[a]
                    < #[trigger] groups@[g]@[b],
            forall|g: int, h: int|
                0 <= g < h < groups@.len() ==> (#[trigger] groups@[g])@[0] < (#[trigger] groups@[h])@[0],
            forall|v: int| 0 <= v < i ==> #[trigger] is_member(lists(groups@), v),
            forall|g: int, a: int|
                0 <= g < groups@.len() && 0 <= a < groups@[g]@.len() ==> index@.contains_key(
                    sets.root(#[trigger] groups@[g]@[a] as int) as usize,
                ) && index@[sets.root(groups@[g]@[a] as int) as usize] == g,
            forall|r: usize| #[trigger]
                index@.contains_key(r) ==> index@[r] < groups@.len() && sets.root(
                    groups@[index@[r] as int]@[0] as int,
                ) == r,
        decreases ends@.len() - i,
    {
        let ghost groups0 = groups@;
        let ghost index0 = index@;
        let root: usize = uf.find(i);
        match index.get(&root) {
            Some(g) => {
                let g: usize = *g;
                groups[g].push(i);
                proof {
                    assert(groups@[g as int]@ == groups0[g as int]@.push(i));
                    assert forall|h: int| 0 <= h < groups@.len() && h != g implies #[trigger] groups@[h]
                        == groups0[h] by {}
                    assert forall|v: int| 0 <= v < i + 1 implies #[trigger] is_member(
                        lists(groups@),
                        v,
                    ) by {
                        if v < i {
                            assert(is_member(lists(groups0), v));
                            let (h, a) = choose|h: int, a: int|
                                0 <= h < lists(groups0).len() && 0 <= a < lists(groups0)[h].len()
                                    && #[trigger] lists(groups0)[h][a] == v;
                            assert(lists(groups@)[h][a] == v);
                        } else {
                            assert(lists(groups@)[g as int][groups0[g as int]@.len() as int] == v);
                        }
                    }
                }
            },
            None => {
                let mut fresh: Vec<usize> = Vec::new();
                fresh.push(i);
                index.insert(root, groups.len());
                groups.push(fresh);
                proof {
                    let g = groups0.len() as int;
                    assert(groups@[g]@ =~= seq![i]);
                    assert forall|h: int| 0 <= h < groups0.len() implies #[trigger] groups@[h]
                        == groups0[h] by {}
                    assert forall|v: int| 0 <= v < i + 1 implies #[trigger] is_member(
                        lists(groups@),
                        v,
                    ) by {
                        if v < i {
                            assert(is_member(lists(groups0), v));
                            let (h, a) = choose|h: int, a: int|
                                0 <= h < lists(groups0).len() && 0 <= a < lists(groups0)[h].len()
                                    && #[trigger] lists(groups0)[h][a] == v;
                            assert(lists(groups@)[h][a] == v);
                        } else {
                            assert(lists(groups@)[g][0] == v);
                        }
                    }
                    assert forall|h: int, a: int|
                        0 <= h < groups@.len() && 0 <= a < groups@[h]@.len() implies index@.contains_key(
                        sets.root(#[trigger] groups@[h]@[a] as int) as usize,
                    ) && index@[sets.root(groups@[h]@[a] as int) as usize] == h by {
                        if h < g {
                            assert(groups0[h]@[a] == groups@[h]@[a]);
                            assert(index0.contains_key(
                                sets.root(groups0[h]@[a] as int) as usize,
                            ));
                        }
                    }
                }
            },
        }
        i = i + 1;
    }
    proof {
        let all = lists(groups@);
        assert forall|g: int, h: int, a: int, b: int|
            0 <= g < all.len() && 0 <= h < all.len() && 0 <= a < all[g].len() && 0 <= b
                < all[h].len() implies (g == h <==> linked(
            ends@,
            #[trigger] all[g][a] as int,
            #[trigger] all[h][b] as int,
        )) by {
            let x = groups@[g]@[a] as int;
            let y = groups@[h]@[b] as int;
            assert(index@[sets.root(x) as usize] == g);
            assert(index@[sets.root(y) as usize] == h);
            if g == h {
                assert(sets.root(groups@[g]@[0] as int) == sets.root(x) as usize);
                assert(sets.root(groups@[h]@[0] as int) == sets.root(y) as usize);
            }
            sets.root_in_range(x);
            sets.root_in_range(y);
            assert(sets.same(x, y) <==> linked(ends@, x, y));
        }
    }
    groups
}

} // verus!
