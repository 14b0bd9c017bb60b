//! Valley trailheads: the lowest cell of each island of terrain.

use crate::dem::{lemma_flat_onto, lemma_flat_unique, Dem};
use crate::geom::CellIdx;
use crate::scalar::Single;
use vstd::prelude::*;

verus! {

/// Row step to the `k`-th of a cell's four sides: north, south, west, east.
pub open spec fn side_row(k: int) -> int {
    if k == 0 {
        -1
    } else if k == 1 {
        1
    } else {
        0
    }
}

/// Column step to the `k`-th of a cell's four sides.
pub open spec fn side_col(k: int) -> int {
    if k == 2 {
        -1
    } else if k == 3 {
        1
    } else {
        0
    }
}

/// The step to the `k`-th of a cell's four sides.
fn side(k: usize) -> (r: (i32, i32))
    requires
        k < 4,
    ensures
        r.0 == side_row(k as int),
        r.1 == side_col(k as int),
        -1 <= r.0 <= 1,
        -1 <= r.1 <= 1,
{
    if k == 0 {
        (-1, 0)
    } else if k == 1 {
        (1, 0)
    } else if k == 2 {
        (0, -1)
    } else {
        (0, 1)
    }
}

/// Whether position `u` holds a cell with data.
pub open spec fn land(dem: &Dem, u: int) -> bool {
    0 <= u < dem.data@.len() && dem.data@[u].finite()
}

/// A flood over cells with data: what it has marked, what it still has to
/// visit, and what it has visited, in order.
pub struct Walk {
    pub marked: Seq<bool>,
    pub stack: Seq<int>,
    pub seen: Seq<int>,
}

/// Marks the neighbors of `u` on its first `n` sides, where they hold data and
/// are not marked yet, and puts them on the stack.
pub open spec fn spread(dem: &Dem, w: Walk, u: int, n: int) -> Walk
    decreases n,
{
    if n <= 0 {
        w
    } else {
        let before = spread(dem, w, u, n - 1);
        match dem.moved(u, side_row(n - 1), side_col(n - 1)) {
            Some(v) => if land(dem, v) && !before.marked[v] {
                Walk {
                    marked: before.marked.update(v, true),
                    stack: before.stack.push(v),
                    seen: before.seen,
                }
            } else {
                before
            },
            None => before,
        }
    }
}

/// Visits the cell on top of the stack.
pub open spec fn visit(dem: &Dem, w: Walk) -> Walk {
    let u = w.stack.last();
    spread(
        dem,
        Walk { marked: w.marked, stack: w.stack.drop_last(), seen: w.seen.push(u) },
        u,
        4,
    )
}

/// Visits cells until none are left, `fuel` of them at most.
pub open spec fn walk(dem: &Dem, w: Walk, fuel: nat) -> Walk
    decreases fuel,
{
    if fuel == 0 || w.stack.len() == 0 {
        w
    } else {
        walk(dem, visit(dem, w), (fuel - 1) as nat)
    }
}

/// The flood from cell `i`, given what earlier floods have marked.
pub open spec fn walk_from(dem: &Dem, marked: Seq<bool>, i: int) -> Walk {
    walk(
        dem,
        Walk { marked: marked.update(i, true), stack: seq![i], seen: Seq::empty() },
        dem.data@.len(),
    )
}

/// The first of the lowest cells of a list; `first` if none is below infinity.
pub open spec fn lowest_of(dem: &Dem, cells: Seq<int>, first: int) -> (Single, int)
    decreases cells.len(),
{
    if cells.len() == 0 {
        (Single { bits: 0x7f80_0000 }, first)
    } else {
        let before = lowest_of(dem, cells.drop_last(), first);
        let z = dem.data@[cells.last()];
        if z.below(before.0) {
            (z, cells.last())
        } else {
            before
        }
    }
}

/// What the first `i` cells have given: the cells marked, and the trailheads.
pub open spec fn heads_upto(dem: &Dem, min_cells: int, i: int) -> (Seq<bool>, Seq<CellIdx>)
    decreases i,
{
    if i <= 0 {
        (Seq::new(dem.data@.len(), |j: int| false), Seq::empty())
    } else {
        let (marked, heads) = heads_upto(dem, min_cells, i - 1);
        if land(dem, i - 1) && !marked[i - 1] {
            let w = walk_from(dem, marked, i - 1);
            let lowest = dem.cell_of(lowest_of(dem, w.seen, i - 1).1);
            (w.marked, if w.seen.len() >= min_cells { heads.push(lowest) } else { heads })
        } else {
            (marked, heads)
        }
    }
}

/// The trailheads: floods start from the first cell, in row-major order, that no
/// earlier flood has reached; each that visits at least `min_cells` cells gives
/// the first of the lowest cells that it visits.
pub open spec fn trailheads_of(dem: &Dem, min_cells: int) -> Seq<CellIdx> {
    heads_upto(dem, min_cells, dem.data@.len() as int).1
}

/// What holds of a flood that is under way.
pub open spec fn walk_wf(dem: &Dem, w: Walk) -> bool {
    &&& w.marked.len() == dem.data@.len()
    &&& forall|k: int|
        0 <= k < w.stack.len() ==> land(dem, #[trigger] w.stack[k]) && w.marked[w.stack[k]]
    &&& forall|k: int|
        0 <= k < w.seen.len() ==> land(dem, #[trigger] w.seen[k]) && w.marked[w.seen[k]]
    &&& (w.seen + w.stack).no_duplicates()
}

proof fn lemma_distinct_len(s: Seq<int>, n: int)
    requires
        0 <= n,
        s.no_duplicates(),
        forall|k: int| 0 <= k < s.len() ==> 0 <= #[trigger] s[k] < n,
    ensures
        s.len() <= n,
{
    s.unique_seq_to_set();
    let all = vstd::set_lib::set_int_range(0, n);
    vstd::set_lib::lemma_int_range(0, n);
    assert(s.to_set().subset_of(all));
    vstd::set_lib::lemma_len_subset(s.to_set(), all);
}

proof fn lemma_spread_wf(dem: &Dem, w: Walk, u: int, n: int)
    requires
        dem.wf(),
        walk_wf(dem, w),
        0 <= n <= 4,
    ensures
        walk_wf(dem, spread(dem, w, u, n)),
        spread(dem, w, u, n).seen == w.seen,
    decreases n,
{
    if n > 0 {
        lemma_spread_wf(dem, w, u, n - 1);
        let before = spread(dem, w, u, n - 1);
        match dem.moved(u, side_row(n - 1), side_col(n - 1)) {
            Some(v) => {
                if land(dem, v) && !before.marked[v] {
                    let after = spread(dem, w, u, n);
                    assert(after.seen + after.stack =~= (before.seen + before.stack).push(v));
                    assert forall|k: int| 0 <= k < (before.seen + before.stack).len() implies (
                    before.seen + before.stack)[k] != v by {
                        if k < before.seen.len() {
                            assert(before.marked[before.seen[k]]);
                        } else {
                            assert(before.marked[before.stack[k - before.seen.len()]]);
                        }
                    }
                }
            },
            None => {},
        }
    }
}

/// A flood with the top of its stack moved to the cells visited.
spec fn popped(w: Walk) -> Walk {
    Walk { marked: w.marked, stack: w.stack.drop_last(), seen: w.seen.push(w.stack.last()) }
}

proof fn lemma_popped_wf(dem: &Dem, w: Walk)
    requires
        walk_wf(dem, w),
        w.stack.len() > 0,
    ensures
        walk_wf(dem, popped(w)),
{
    let start = popped(w);
    assert forall|a: int, b: int|
        0 <= a < b < (start.seen + start.stack).len() implies (start.seen + start.stack)[a] != (
    start.seen + start.stack)[b] by {
        let old_all = w.seen + w.stack;
        let n = w.seen.len() as int;
        let last = old_all.len() - 1;
        let ia = if a < n {
            a
        } else if a == n {
            last
        } else {
            a - 1
        };
        let ib = if b < n {
            b
        } else if b == n {
            last
        } else {
            b - 1
        };
        assert((start.seen + start.stack)[a] == old_all[ia]);
        assert((start.seen + start.stack)[b] == old_all[ib]);
    }
}

proof fn lemma_visit_wf(dem: &Dem, w: Walk)
    requires
        dem.wf(),
        walk_wf(dem, w),
        w.stack.len() > 0,
    ensures
        walk_wf(dem, visit(dem, w)),
        visit(dem, w).seen == w.seen.push(w.stack.last()),
{
    lemma_popped_wf(dem, w);
    lemma_spread_wf(dem, popped(w), w.stack.last(), 4);
}

/// A flood in progress and a finished one agree on fuel that is left over.
proof fn lemma_walk_end(dem: &Dem, w: Walk, fuel: nat)
    requires
        w.stack.len() == 0,
    ensures
        walk(dem, w, fuel) == w,
{
}

/// One trailhead per island of at least `min_cells` cells: its lowest one.
/// Islands are connected by the four sides of their cells. This way a DEM of
/// several regions gets one trailhead per island.
pub fn pick_trailheads(dem: &Dem, min_cells: u32) -> (r: Vec<CellIdx>)
    requires
        dem.wf(),
    ensures
        r@ == trailheads_of(dem, min_cells as int),
{
    let n: usize = dem.data.len();
    let mut marked: Vec<bool> = vec![false; n];
    let mut heads: Vec<CellIdx> = Vec::new();
    let mut i: usize = 0;
    assert(marked@ =~= heads_upto(dem, min_cells as int, 0).0);
    while i < n
        invariant
            dem.wf(),
            n == dem.data@.len(),
            i <= n,
            marked@.len() == n,
            heads_upto(dem, min_cells as int, i as int) == (marked@, heads@),
        decreases n - i,
    {
        if !dem.data[i].is_finite() || marked[i] {
            i = i + 1;
            continue;
        }
        let ghost marked0 = marked@;
        let ghost start = Walk {
            marked: marked0.update(i as int, true),
            stack: seq![i as int],
            seen: Seq::empty(),
        };
        let mut stack: Vec<usize> = Vec::new();
        let ghost mut seen: Seq<int> = Seq::empty();
        let mut size: usize = 0;
        let mut lowest: (Single, usize) = (Single::infinity(), i);
        stack.push(i);
        marked.set(i, true);
        let ghost mut now = start;
        proof {
            assert(stack@.map_values(|u: usize| u as int) =~= start.stack);
            assert(walk_wf(dem, start));
        }
        while stack.len() > 0
            invariant
                dem.wf(),
                n == dem.data@.len(),
                i < n,
                marked@.len() == n,
                now.marked == marked@,
                now.stack == stack@.map_values(|u: usize| u as int),
                size == now.seen.len(),
                walk_wf(dem, now),
                walk_from(dem, marked0, i as int) == walk(dem, now, (n - size) as nat),
                size <= n,
                lowest_of(dem, now.seen, i as int) == (lowest.0, lowest.1 as int),
                lowest.1 < n,
            decreases n - size,
        {
            proof {
                lemma_visit_wf(dem, now);
                let w = visit(dem, now);
                lemma_distinct_len(w.seen + w.stack, n as int);
                assert((w.seen + w.stack).len() >= size + 1);
            }
            let ghost before = now;
            let u: usize = match stack.pop() {
                Some(u) => u,
                None => 0,
            };
            assert(u == before.stack.last());
            assert(land(dem, before.stack[before.stack.len() - 1]));
            let z = dem.data[u];
            size = size + 1;
            if z.lt(&lowest.0) {
                lowest = (z, u);
            }
            proof {
                assert(now.seen.push(u as int).drop_last() =~= now.seen);
                now = Walk {
                    marked: now.marked,
                    stack: now.stack.drop_last(),
                    seen: now.seen.push(u as int),
                };
                assert(now.stack =~= stack@.map_values(|u: usize| u as int));
            }
            let ghost popped = now;
            let mut k: usize = 0;
            while k < 4
                invariant
                    dem.wf(),
                    n == dem.data@.len(),
                    u < n,
                    k <= 4,
                    marked@.len() == n,
                    now == spread(dem, popped, u as int, k as int),
                    now.marked == marked@,
                    now.stack == stack@.map_values(|u: usize| u as int),
                decreases 4 - k,
            {
                let (dr, dc) = side(k);
                if let Some(v) = dem.move_by(u, dr, dc) {
                    if dem.data[v].is_finite() && !marked[v] {
                        marked.set(v, true);
                        stack.push(v);
                    }
                }
                proof {
                    now = spread(dem, popped, u as int, k + 1);
                    assert(now.stack =~= stack@.map_values(|u: usize| u as int));
                }
                k = k + 1;
            }
            assert(now == visit(dem, before));
        }
        proof {
            lemma_walk_end(dem, now, (n - size) as nat);
        }
        if size >= min_cells as usize {
            heads.push(dem.cell_at(lowest.1));
        }
        i = i + 1;
    }
    heads
}

/// Whether positions `u` and `v` share a side.
pub open spec fn adjacent(dem: &Dem, u: int, v: int) -> bool {
    exists|k: int| 0 <= k < 4 && #[trigger] dem.moved(u, side_row(k), side_col(k)) == Some(v)
}

/// A way over cells with data, from each cell to one beside it.
pub open spec fn is_way(dem: &Dem, way: Seq<int>) -> bool {
    &&& way.len() > 0
    &&& forall|j: int| 0 <= j < way.len() ==> land(dem, #[trigger] way[j])
    &&& forall|j: int|
        1 <= j < way.len() ==> adjacent(dem, way[j - 1], #[trigger] way[j])
}

/// Whether a way leads from `u` to `v`.
pub open spec fn leads(dem: &Dem, way: Seq<int>, u: int, v: int) -> bool {
    is_way(dem, way) && way[0] == u && way.last() == v
}

/// Whether `u` and `v` are cells of one island.
pub open spec fn connected(dem: &Dem, u: int, v: int) -> bool {
    exists|way: Seq<int>| #[trigger] leads(dem, way, u, v)
}

/// The island of a cell.
pub open spec fn island(dem: &Dem, u: int) -> Set<int> {
    Set::new(|v: int| connected(dem, u, v))
}

proof fn lemma_adjacent_symmetric(dem: &Dem, u: int, v: int)
    requires
        dem.wf(),
        0 <= u < dem.data@.len(),
        adjacent(dem, u, v),
    ensures
        adjacent(dem, v, u),
{
    let k = choose|k: int|
        0 <= k < 4 && #[trigger] dem.moved(u, side_row(k), side_col(k)) == Some(v);
    let cols = dem.cols as int;
    lemma_flat_onto(dem.rows as int, cols, u);
    let row = u / cols + side_row(k);
    let col = u % cols + side_col(k);
    lemma_flat_unique(cols, row, col);
    let back = if k == 0 {
        1int
    } else if k == 1 {
        0int
    } else if k == 2 {
        3int
    } else {
        2int
    };
    assert(dem.moved(v, side_row(back), side_col(back)) == Some(u));
}

proof fn lemma_connected_self(dem: &Dem, u: int)
    requires
        land(dem, u),
    ensures
        connected(dem, u, u),
{
    assert(leads(dem, seq![u], u, u));
}

proof fn lemma_connected_further(dem: &Dem, a: int, u: int, v: int)
    requires
        connected(dem, a, u),
        adjacent(dem, u, v),
        land(dem, v),
    ensures
        connected(dem, a, v),
{
    let way = choose|way: Seq<int>| #[trigger] leads(dem, way, a, u);
    let longer = way.push(v);
    assert forall|j: int| 1 <= j < longer.len() implies adjacent(
        dem,
        longer[j - 1],
        #[trigger] longer[j],
    ) by {
        if j < way.len() {
            assert(adjacent(dem, way[j - 1], way[j]));
        }
    }
    assert(leads(dem, longer, a, v));
}

proof fn lemma_connected_symmetric(dem: &Dem, u: int, v: int)
    requires
        dem.wf(),
        connected(dem, u, v),
    ensures
        connected(dem, v, u),
{
    let way = choose|way: Seq<int>| #[trigger] leads(dem, way, u, v);
    let back = Seq::new(way.len(), |j: int| way[way.len() - 1 - j]);
    assert forall|j: int| 1 <= j < back.len() implies adjacent(
        dem,
        back[j - 1],
        #[trigger] back[j],
    ) by {
        let i = way.len() - j;
        assert(back[j] == way[i - 1]);
        assert(back[j - 1] == way[i]);
        assert(adjacent(dem, way[i - 1], way[i]));
        lemma_adjacent_symmetric(dem, way[i - 1], way[i]);
    }
    assert(leads(dem, back, v, u));
}

proof fn lemma_connected_transitive(dem: &Dem, a: int, u: int, v: int)
    requires
        connected(dem, a, u),
        connected(dem, u, v),
    ensures
        connected(dem, a, v),
{
    let first = choose|way: Seq<int>| #[trigger] leads(dem, way, a, u);
    let second = choose|way: Seq<int>| #[trigger] leads(dem, way, u, v);
    let whole = first + second.skip(1);
    assert forall|j: int| 0 <= j < whole.len() implies land(dem, #[trigger] whole[j]) by {
        if j >= first.len() {
            assert(whole[j] == second[j - first.len() + 1]);
        }
    }
    assert forall|j: int| 1 <= j < whole.len() implies adjacent(
        dem,
        whole[j - 1],
        #[trigger] whole[j],
    ) by {
        if j < first.len() {
            assert(adjacent(dem, first[j - 1], first[j]));
        } else {
            let i = j - first.len() + 1;
            assert(whole[j] == second[i]);
            assert(whole[j - 1] == second[i - 1]);
            assert(adjacent(dem, second[i - 1], second[i]));
        }
    }
    assert(whole.last() == v) by {
        if second.len() == 1 {
            assert(whole =~= first);
        } else {
            assert(whole.last() == second[second.len() - 1]);
        }
    }
    assert(leads(dem, whole, a, v));
}

/// Whether islands are marked as a whole or not at all.
spec fn closed(dem: &Dem, marked: Seq<bool>) -> bool {
    &&& marked.len() == dem.data@.len()
    &&& forall|u: int| 0 <= u < marked.len() && #[trigger] marked[u] ==> land(dem, u)
    &&& forall|u: int, v: int|
        0 <= u < marked.len() && marked[u] && land(dem, v) && #[trigger] adjacent(dem, u, v)
            ==> marked[v]
}

proof fn lemma_closed_way(dem: &Dem, marked: Seq<bool>, way: Seq<int>, j: int)
    requires
        closed(dem, marked),
        is_way(dem, way),
        marked[way[0]],
        0 <= j < way.len(),
    ensures
        marked[way[j]],
    decreases j,
{
    if j > 0 {
        lemma_closed_way(dem, marked, way, j - 1);
        assert(land(dem, way[j - 1]) && land(dem, way[j]));
        assert(adjacent(dem, way[j - 1], way[j]));
    }
}

proof fn lemma_closed_connected(dem: &Dem, marked: Seq<bool>, u: int, v: int)
    requires
        closed(dem, marked),
        connected(dem, u, v),
        marked[u],
    ensures
        marked[v],
{
    let way = choose|way: Seq<int>| #[trigger] leads(dem, way, u, v);
    lemma_closed_way(dem, marked, way, way.len() - 1);
}

/// What holds of a flood from `i` on top of `marked`, apart from what holds of
/// every flood. The sides of `open`, the cell under visit, are marked up to its
/// `n`-th.
spec fn flood_inv(dem: &Dem, marked: Seq<bool>, i: int, w: Walk, open: int, n: int) -> bool {
    &&& w.seen.contains(i) || w.stack.contains(i)
    &&& forall|v: int|
        0 <= v < w.marked.len() ==> (#[trigger] w.marked[v] <==> marked[v] || w.seen.contains(v)
            || w.stack.contains(v))
    &&& forall|k: int|
        0 <= k < w.seen.len() ==> !marked[#[trigger] w.seen[k]] && connected(dem, i, w.seen[k])
    &&& forall|k: int|
        0 <= k < w.stack.len() ==> !marked[#[trigger] w.stack[k]] && connected(
            dem,
            i,
            w.stack[k],
        )
    &&& forall|k: int, d: int, v: int|
        0 <= k < w.seen.len() && 0 <= d < 4 && (w.seen[k] == open ==> d < n) && land(dem, v)
            && #[trigger] dem.moved(w.seen[k], side_row(d), side_col(d)) == Some(v)
            ==> #[trigger] w.marked[v]
}

proof fn lemma_spread_inv(dem: &Dem, marked: Seq<bool>, i: int, w: Walk, u: int, n: int)
    requires
        dem.wf(),
        closed(dem, marked),
        walk_wf(dem, w),
        land(dem, u),
        w.seen.contains(u),
        flood_inv(dem, marked, i, w, u, 0),
        0 <= n <= 4,
    ensures
        flood_inv(dem, marked, i, spread(dem, w, u, n), u, n),
    decreases n,
{
    if n > 0 {
        lemma_spread_inv(dem, marked, i, w, u, n - 1);
        lemma_spread_wf(dem, w, u, n - 1);
        let before = spread(dem, w, u, n - 1);
        let after = spread(dem, w, u, n);
        match dem.moved(u, side_row(n - 1), side_col(n - 1)) {
            Some(v) => {
                if land(dem, v) && !before.marked[v] {
                    assert(adjacent(dem, u, v));
                    let ku = choose|ku: int| 0 <= ku < w.seen.len() && w.seen[ku] == u;
                    assert(before.seen[ku] == u);
                    lemma_connected_further(dem, i, u, v);
                    assert(after.stack[before.stack.len() as int] == v);
                    assert forall|x: int| before.stack.contains(x) implies after.stack.contains(
                        x,
                    ) by {
                        let kx = choose|kx: int|
                            0 <= kx < before.stack.len() && before.stack[kx] == x;
                        assert(after.stack[kx] == x);
                    }
                    assert forall|x: int| 0 <= x < after.marked.len() implies (
                    #[trigger] after.marked[x] <==> marked[x] || after.seen.contains(x)
                        || after.stack.contains(x)) by {
                        assert(before.marked[x] == before.marked[x]);
                        if after.stack.contains(x) && x != v {
                            let kx = choose|kx: int|
                                0 <= kx < after.stack.len() && after.stack[kx] == x;
                            assert(before.stack[kx] == x);
                        }
                    }
                    assert forall|k: int, d: int, x: int|
                        0 <= k < after.seen.len() && 0 <= d < 4 && (after.seen[k] == u ==> d < n)
                            && land(dem, x) && #[trigger] dem.moved(
                            after.seen[k],
                            side_row(d),
                            side_col(d),
                        ) == Some(x) implies #[trigger] after.marked[x] by {
                        if after.seen[k] == u && d == n - 1 {
                            assert(x == v);
                        } else {
                            assert(before.marked[x]);
                        }
                    }
                }
            },
            None => {},
        }
    }
}

proof fn lemma_visit_inv(dem: &Dem, marked: Seq<bool>, i: int, w: Walk)
    requires
        dem.wf(),
        closed(dem, marked),
        walk_wf(dem, w),
        w.stack.len() > 0,
        flood_inv(dem, marked, i, w, -1, 0),
    ensures
        flood_inv(dem, marked, i, visit(dem, w), -1, 0),
{
    let u = w.stack.last();
    let start = Walk { marked: w.marked, stack: w.stack.drop_last(), seen: w.seen.push(u) };
    assert(land(dem, w.stack[w.stack.len() - 1]));
    lemma_visit_wf(dem, w);
    assert(start.seen[w.seen.len() as int] == u);
    assert forall|x: int| w.seen.contains(x) implies start.seen.contains(x) by {
        let k = choose|k: int| 0 <= k < w.seen.len() && w.seen[k] == x;
        assert(start.seen[k] == x);
    }
    assert forall|x: int| w.stack.contains(x) implies start.seen.contains(x)
        || start.stack.contains(x) by {
        let k = choose|k: int| 0 <= k < w.stack.len() && w.stack[k] == x;
        if k < w.stack.len() - 1 {
            assert(start.stack[k] == x);
        }
    }
    assert forall|x: int| start.stack.contains(x) implies w.stack.contains(x) by {
        let k = choose|k: int| 0 <= k < start.stack.len() && start.stack[k] == x;
        assert(w.stack[k] == x);
    }
    assert forall|x: int| start.seen.contains(x) implies w.seen.contains(x) || w.stack.contains(
        x,
    ) by {
        let k = choose|k: int| 0 <= k < start.seen.len() && start.seen[k] == x;
        if k < w.seen.len() {
            assert(w.seen[k] == x);
        } else {
            assert(w.stack[w.stack.len() - 1] == x);
        }
    }
    assert forall|k: int| 0 <= k < start.seen.len() implies !marked[#[trigger] start.seen[k]]
        && connected(dem, i, start.seen[k]) by {
        if k == w.seen.len() {
            assert(start.seen[k] == w.stack[w.stack.len() - 1]);
        } else {
            assert(start.seen[k] == w.seen[k]);
        }
    }
    assert forall|k: int, d: int, v: int|
        0 <= k < start.seen.len() && 0 <= d < 4 && (start.seen[k] == u ==> d < 0) && land(dem, v)
            && #[trigger] dem.moved(start.seen[k], side_row(d), side_col(d)) == Some(
            v,
        ) implies #[trigger] start.marked[v] by {
        assert(start.seen[k] == w.seen[k]);
        assert(land(dem, w.seen[k]));
    }
    assert(flood_inv(dem, marked, i, start, u, 0));
    lemma_popped_wf(dem, w);
    lemma_spread_inv(dem, marked, i, start, u, 4);
    let end = visit(dem, w);
    assert forall|k: int, d: int, v: int|
        0 <= k < end.seen.len() && 0 <= d < 4 && (end.seen[k] == -1 ==> d < 0) && land(dem, v)
            && #[trigger] dem.moved(end.seen[k], side_row(d), side_col(d)) == Some(
            v,
        ) implies #[trigger] end.marked[v] by {
        assert(end.seen[k] == u ==> d < 4);
    }
}

proof fn lemma_walk_inv(dem: &Dem, marked: Seq<bool>, i: int, w: Walk, fuel: nat)
    requires
        dem.wf(),
        closed(dem, marked),
        walk_wf(dem, w),
        flood_inv(dem, marked, i, w, -1, 0),
        w.seen.len() + fuel >= dem.data@.len(),
    ensures
        walk_wf(dem, walk(dem, w, fuel)),
        flood_inv(dem, marked, i, walk(dem, w, fuel), -1, 0),
        walk(dem, w, fuel).stack.len() == 0,
    decreases fuel,
{
    if w.stack.len() > 0 {
        let all = w.seen + w.stack;
        assert forall|k: int| 0 <= k < all.len() implies 0 <= #[trigger] all[k]
            < dem.data@.len() by {
            if k < w.seen.len() {
                assert(land(dem, w.seen[k]));
            } else {
                assert(land(dem, w.stack[k - w.seen.len()]));
            }
        }
        lemma_distinct_len(all, dem.data@.len() as int);
        lemma_visit_wf(dem, w);
        lemma_visit_inv(dem, marked, i, w);
        lemma_walk_inv(dem, marked, i, visit(dem, w), (fuel - 1) as nat);
    }
}

/// A flood visits an island.
proof fn lemma_walk_is_island(dem: &Dem, marked: Seq<bool>, i: int)
    requires
        dem.wf(),
        closed(dem, marked),
        land(dem, i),
        !marked[i],
    ensures
        closed(dem, walk_from(dem, marked, i).marked),
        walk_from(dem, marked, i).seen.len() > 0,
        walk_from(dem, marked, i).seen.no_duplicates(),
        forall|v: int| #[trigger]
            walk_from(dem, marked, i).seen.contains(v) <==> connected(dem, i, v),
        forall|v: int| #[trigger]
            walk_from(dem, marked, i).seen.contains(v) ==> land(dem, v) && !marked[v],
        forall|v: int|
            0 <= v < marked.len() ==> (#[trigger] walk_from(dem, marked, i).marked[v] <==> marked[v]
                || walk_from(dem, marked, i).seen.contains(v)),
{
    let start = Walk { marked: marked.update(i, true), stack: seq![i], seen: Seq::empty() };
    assert(start.stack[0] == i);
    lemma_connected_self(dem, i);
    assert forall|v: int| 0 <= v < start.marked.len() implies (#[trigger] start.marked[v]
        <==> marked[v] || start.seen.contains(v) || start.stack.contains(v)) by {
        if start.stack.contains(v) {
            assert(v == i);
        }
    }
    assert(flood_inv(dem, marked, i, start, -1, 0));
    assert(walk_wf(dem, start));
    lemma_walk_inv(dem, marked, i, start, dem.data@.len());
    let w = walk_from(dem, marked, i);
    assert(w.seen + w.stack =~= w.seen);
    assert(w.seen.contains(i));
    assert forall|v: int| #[trigger] w.seen.contains(v) implies land(dem, v) && !marked[v]
        && connected(dem, i, v) by {
        let k = choose|k: int| 0 <= k < w.seen.len() && w.seen[k] == v;
        assert(land(dem, w.seen[k]));
    }
    assert forall|u: int, v: int|
        0 <= u < w.marked.len() && w.marked[u] && land(dem, v) && #[trigger] adjacent(
            dem,
            u,
            v,
        ) implies w.marked[v] by {
        if !marked[u] {
            let k = choose|k: int| 0 <= k < w.seen.len() && w.seen[k] == u;
            let d = choose|d: int|
                0 <= d < 4 && #[trigger] dem.moved(u, side_row(d), side_col(d)) == Some(v);
            assert(dem.moved(w.seen[k], side_row(d), side_col(d)) == Some(v));
        } else {
            assert(marked[v]);
        }
    }
    assert forall|u: int| 0 <= u < w.marked.len() && #[trigger] w.marked[u] implies land(
        dem,
        u,
    ) by {
        if marked[u] {
        } else {
            assert(w.seen.contains(u));
        }
    }
    assert(closed(dem, w.marked));
    assert forall|v: int| connected(dem, i, v) implies #[trigger] w.seen.contains(v) by {
        assert(w.marked[i]);
        lemma_closed_connected(dem, w.marked, i, v);
        let way = choose|way: Seq<int>| #[trigger] leads(dem, way, i, v);
        assert(land(dem, way[way.len() - 1]));
        if marked[v] {
            lemma_connected_symmetric(dem, i, v);
            lemma_closed_connected(dem, marked, v, i);
        }
    }
}

proof fn lemma_lowest(dem: &Dem, cells: Seq<int>, first: int)
    requires
        forall|k: int| 0 <= k < cells.len() ==> land(dem, #[trigger] cells[k]),
    ensures
        forall|k: int|
            0 <= k < cells.len() ==> !dem.data@[#[trigger] cells[k]].below(
                lowest_of(dem, cells, first).0,
            ),
        !lowest_of(dem, cells, first).0.nan(),
        cells.len() > 0 ==> cells.contains(lowest_of(dem, cells, first).1)
            && dem.data@[lowest_of(dem, cells, first).1] == lowest_of(dem, cells, first).0,
    decreases cells.len(),
{
    if cells.len() > 0 {
        let less = cells.drop_last();
        lemma_lowest(dem, less, first);
        let last = cells.len() - 1;
        let found = lowest_of(dem, cells, first);
        assert(land(dem, cells[last]));
        assert forall|k: int| 0 <= k < cells.len() implies !dem.data@[#[trigger] cells[k]].below(
            found.0,
        ) by {
            if k < last {
                assert(cells[k] == less[k]);
            }
        }
        if dem.data@[cells.last()].below(lowest_of(dem, less, first).0) {
            assert(cells[last] == found.1);
        } else {
            assert(less.len() > 0);
            let k = choose|k: int| 0 <= k < less.len() && less[k] == found.1;
            assert(cells[k] == found.1);
        }
    }
}

/// Whether position `p` is the lowest cell of an island of at least `min_cells`
/// cells.
pub open spec fn heads_island(dem: &Dem, p: int, min_cells: int) -> bool {
    &&& land(dem, p)
    &&& island(dem, p).finite()
    &&& island(dem, p).len() >= min_cells
    &&& forall|v: int| #[trigger] connected(dem, p, v) ==> !dem.data@[v].below(dem.data@[p])
}

/// What holds after the first `i` cells.
spec fn heads_inv(dem: &Dem, min_cells: int, i: int) -> bool {
    let (marked, heads) = heads_upto(dem, min_cells, i);
    &&& closed(dem, marked)
    &&& forall|u: int| 0 <= u < i && land(dem, u) ==> #[trigger] marked[u]
    &&& forall|k: int|
        0 <= k < heads.len() ==> dem.has_cell(#[trigger] heads[k]) && heads_island(
            dem,
            dem.pos(heads[k]),
            min_cells,
        ) && marked[dem.pos(heads[k])]
    &&& forall|j: int, k: int|
        0 <= j < k < heads.len() ==> !connected(
            dem,
            dem.pos(#[trigger] heads[j]),
            dem.pos(#[trigger] heads[k]),
        )
    &&& forall|u: int|
        0 <= u < marked.len() && #[trigger] marked[u] && island(dem, u).len() >= min_cells
            ==> has_head(dem, heads, u)
}

/// Whether one of the trailheads is on the island of `u`.
pub open spec fn has_head(dem: &Dem, heads: Seq<CellIdx>, u: int) -> bool {
    exists|k: int| 0 <= k < heads.len() && connected(dem, u, dem.pos(#[trigger] heads[k]))
}

proof fn lemma_same_island(dem: &Dem, u: int, v: int)
    requires
        dem.wf(),
        connected(dem, u, v),
    ensures
        island(dem, u) == island(dem, v),
{
    lemma_connected_symmetric(dem, u, v);
    assert forall|x: int| island(dem, u).contains(x) == island(dem, v).contains(x) by {
        if connected(dem, u, x) {
            lemma_connected_transitive(dem, v, u, x);
        }
        if connected(dem, v, x) {
            lemma_connected_transitive(dem, u, v, x);
        }
    }
    assert(island(dem, u) =~= island(dem, v));
}

proof fn lemma_heads(dem: &Dem, min_cells: int, i: int)
    requires
        dem.wf(),
        0 <= i <= dem.data@.len(),
    ensures
        heads_inv(dem, min_cells, i),
    decreases i,
{
    if i > 0 {
        lemma_heads(dem, min_cells, i - 1);
        let u0 = i - 1;
        let (marked, heads) = heads_upto(dem, min_cells, u0);
        let (marked1, heads1) = heads_upto(dem, min_cells, i);
        if land(dem, u0) && !marked[u0] {
            lemma_walk_is_island(dem, marked, u0);
            let w = walk_from(dem, marked, u0);
            assert forall|k: int| 0 <= k < w.seen.len() implies land(dem, #[trigger] w.seen[k]) by {
                assert(w.seen.contains(w.seen[k]));
            }
            lemma_lowest(dem, w.seen, u0);
            let p = lowest_of(dem, w.seen, u0).1;
            assert(w.seen.contains(p));
            let cols = dem.cols as int;
            lemma_flat_onto(dem.rows as int, cols, p);
            let cell = dem.cell_of(p);
            assert(dem.has_cell(cell) && dem.pos(cell) == p);
            // The flood's cells are the island of the cell it found.
            w.seen.unique_seq_to_set();
            assert(w.seen.to_set() =~= island(dem, u0));
            lemma_same_island(dem, u0, p);
            assert(island(dem, p).len() == w.seen.len());
            assert forall|v: int| #[trigger] connected(dem, p, v) implies !dem.data@[v].below(
                dem.data@[p],
            ) by {
                assert(island(dem, p).contains(v));
                assert(w.seen.contains(v));
                let k = choose|k: int| 0 <= k < w.seen.len() && w.seen[k] == v;
                assert(!dem.data@[w.seen[k]].below(lowest_of(dem, w.seen, u0).0));
            }
            assert forall|x: int| 0 <= x < i && land(dem, x) implies #[trigger] marked1[x] by {
                if x == u0 {
                    lemma_connected_self(dem, u0);
                    assert(w.seen.contains(u0));
                } else {
                    assert(marked[x]);
                }
            }
            assert forall|k: int| 0 <= k < heads1.len() implies dem.has_cell(#[trigger] heads1[k])
                && heads_island(dem, dem.pos(heads1[k]), min_cells)
                && marked1[dem.pos(heads1[k])] by {
                if k < heads.len() {
                    assert(heads1[k] == heads[k]);
                    assert(marked[dem.pos(heads[k])]);
                } else {
                    assert(heads1[k] == cell);
                    assert(marked1[p]);
                }
            }
            assert forall|j: int, k: int| 0 <= j < k < heads1.len() implies !connected(
                dem,
                dem.pos(#[trigger] heads1[j]),
                dem.pos(#[trigger] heads1[k]),
            ) by {
                assert(heads1[j] == heads[j]);
                if k < heads.len() {
                    assert(heads1[k] == heads[k]);
                } else {
                    if connected(dem, dem.pos(heads[j]), p) {
                        lemma_closed_connected(dem, marked, dem.pos(heads[j]), p);
                    }
                }
            }
            assert forall|x: int|
                0 <= x < marked1.len() && #[trigger] marked1[x] && island(dem, x).len()
                    >= min_cells implies has_head(dem, heads1, x) by {
                if marked[x] {
                    assert(has_head(dem, heads, x));
                    let k = choose|k: int|
                        0 <= k < heads.len() && connected(dem, x, dem.pos(#[trigger] heads[k]));
                    assert(heads1[k] == heads[k]);
                } else {
                    assert(w.seen.contains(x));
                    lemma_same_island(dem, u0, x);
                    assert(heads1[heads.len() as int] == cell);
                    assert(island(dem, u0).contains(p));
                    assert(island(dem, x).contains(p));
                }
            }
        } else {
            assert forall|x: int| 0 <= x < i && land(dem, x) implies #[trigger] marked1[x] by {
                assert(marked[x]);
            }
        }
    }
}

/// There is one trailhead per island of at least `min_cells` cells, and it is
/// one of the island's lowest cells.
pub proof fn one_trailhead_per_island(dem: &Dem, min_cells: int)
    requires
        dem.wf(),
    ensures
        forall|k: int|
            0 <= k < trailheads_of(dem, min_cells).len() ==> {
                let cell = #[trigger] trailheads_of(dem, min_cells)[k];
                dem.has_cell(cell) && heads_island(dem, dem.pos(cell), min_cells)
            },
        forall|u: int| #[trigger]
            land(dem, u) && island(dem, u).len() >= min_cells ==> has_head(
                dem,
                trailheads_of(dem, min_cells),
                u,
            ),
        forall|j: int, k: int|
            0 <= j < k < trailheads_of(dem, min_cells).len() ==> !connected(
                dem,
                dem.pos(#[trigger] trailheads_of(dem, min_cells)[j]),
                dem.pos(#[trigger] trailheads_of(dem, min_cells)[k]),
            ),
{
    let n = dem.data@.len() as int;
    lemma_heads(dem, min_cells, n);
    assert forall|u: int| #[trigger]
        land(dem, u) && island(dem, u).len() >= min_cells implies has_head(
        dem,
        trailheads_of(dem, min_cells),
        u,
    ) by {
        assert(heads_upto(dem, min_cells, n).0[u]);
    }
}

} // verus!
