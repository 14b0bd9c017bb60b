//! Hiking-cost estimation.
//!
//! Tobler's hiking function (1993) on the DEM grid, as labels that move from
//! the trailheads through the cells, lowest cost first.
//!
//! Tobler:  walk_speed_kmh = 6 * exp(-3.5 * |dh/dx + 0.05|)
//!
//! The +0.05 offset means the fastest walking is on a 5% downhill grade, and
//! both steep up and steep down slow you down. Speed is converted to
//! seconds-per-meter for edge-weight purposes.

use crate::dem::{lemma_flat_in_range, Dem};
use crate::exact::{
    differences_stay_within, digits_bound_the_value, negation_is_exact, picks_are_exact,
    powers_of_two, products_grow, quotients_grow, rounding_keeps_order, rounding_keeps_sides,
    rounding_stays_between, rounds, size_is_exact, stands_for, truncates, two_to_the_31st, value,
    values_are_in_order, whole_numbers_are_exact, zero_is_nothing,
};
use crate::frontier::{
    attained, better, current, earned, is_run, nodes, offer_settled, propagate, queue_seeded, queued, route, settled, step, wins,
    Network, Rules, Standing,
};
use crate::geom::CellIdx;
use crate::heap::{Entry, MaxHeap};
use crate::math::{
    exp, minus, monotone, over, plus, single, steady, times, to_int, to_u64, Math,
};
use crate::scalar::{Single, MILLI, ONE, THOUSAND};
use vstd::arithmetic::power2::{lemma2_to64, lemma2_to64_rest};
use vstd::multiset::Multiset;
use vstd::prelude::*;

verus! {

#[derive(Debug, Clone, Copy, PartialEq, Eq, Structural)]
pub enum SacClass {
    /// T1: Hiking. Wide, well-marked trail.
    T1,
    /// T2: Mountain hiking.
    T2,
    /// T3: Demanding mountain hiking.
    T3,
    /// T4: Alpine hiking. Off-trail / scrambling.
    T4,
    /// T5+: Demanding alpine. Filtered out by default for paraglider approaches.
    T5,
}

/// 1.2.
pub const MOUNTAIN_FACTOR: u32 = 0x3f99_999a;

/// 1.5.
pub const DEMANDING_FACTOR: u32 = 0x3fc0_0000;

/// 2.
pub const ALPINE_FACTOR: u32 = 0x4000_0000;

/// 3.
pub const DEMANDING_ALPINE_FACTOR: u32 = 0x4040_0000;

impl SacClass {
    /// The factor on walking time.
    pub open spec fn spec_cost_multiplier(&self) -> Single {
        match self {
            SacClass::T1 => Single { bits: ONE },
            SacClass::T2 => Single { bits: MOUNTAIN_FACTOR },
            SacClass::T3 => Single { bits: DEMANDING_FACTOR },
            SacClass::T4 => Single { bits: ALPINE_FACTOR },
            SacClass::T5 => Single { bits: DEMANDING_ALPINE_FACTOR },
        }
    }

    #[verifier::when_used_as_spec(spec_cost_multiplier)]
    pub fn cost_multiplier(&self) -> (r: Single)
        ensures
            r == self.cost_multiplier(),
    {
        match self {
            SacClass::T1 => Single { bits: ONE },
            SacClass::T2 => Single { bits: MOUNTAIN_FACTOR },
            SacClass::T3 => Single { bits: DEMANDING_FACTOR },
            SacClass::T4 => Single { bits: ALPINE_FACTOR },
            SacClass::T5 => Single { bits: DEMANDING_ALPINE_FACTOR },
        }
    }
}

#[derive(Debug, Clone, Copy)]
pub struct HikeParams {
    /// SAC class to assume where no trail metadata is available.
    pub default_sac: SacClass,
    /// Stop expanding cells whose cumulative cost exceeds this many seconds.
    pub max_cost_seconds: Single,
}

/// 21600: six hours in seconds.
pub const SIX_HOURS: u32 = 0x46a8_c000;

impl Default for HikeParams {
    fn default() -> (r: Self)
        ensures
            r.default_sac == SacClass::T2,
            r.max_cost_seconds.bits == SIX_HOURS,
    {
        HikeParams { default_sac: SacClass::T2, max_cost_seconds: Single { bits: SIX_HOURS } }
    }
}

#[derive(Debug)]
pub struct HikeField {
    /// Per-cell cumulative hiking cost in seconds, NaN = unreached.
    pub seconds: Vec<Single>,
}

/// 6.
pub const TOBLER_PEAK: u32 = 0x40c0_0000;

/// 3.5.
pub const TOBLER_DECAY: u32 = 0x4060_0000;

/// 0.05, the grade of the fastest descent; also the slowest speed in km/h.
pub const TWENTIETH: u32 = 0x3d4c_cccd;

/// 3600.
pub const SECONDS_PER_HOUR: u32 = 0x4561_0000;

/// Tobler's hiking function: kilometers per hour.
pub open spec fn spec_tobler_speed_kmh<M: Math>(m: &M, slope_pct: Single) -> Single {
    times(
        m,
        Single { bits: TOBLER_PEAK },
        exp(
            m,
            times(
                m,
                Single { bits: TOBLER_DECAY }.neg(),
                plus(m, slope_pct, Single { bits: TWENTIETH }).abs(),
            ),
        ),
    )
}

/// Tobler's hiking function: kilometers per hour.
#[verifier::when_used_as_spec(spec_tobler_speed_kmh)]
pub fn tobler_speed_kmh<M: Math>(m: &M, slope_pct: Single) -> (r: Single)
    requires
        steady(m),
    ensures
        r == tobler_speed_kmh(m, slope_pct),
{
    times(
        m,
        Single { bits: TOBLER_PEAK },
        exp(
            m,
            times(
                m,
                (Single { bits: TOBLER_DECAY }).neg(),
                plus(m, slope_pct, Single { bits: TWENTIETH }).abs(),
            ),
        ),
    )
}

/// Seconds that the way from `a` to `b` takes, using Tobler over the DEM;
/// `None` where a terrain altitude is missing.
pub open spec fn edge_cost<M: Math>(
    m: &M,
    dem: &Dem,
    a: CellIdx,
    b: CellIdx,
    mult: Single,
) -> Option<Single> {
    if dem.known(a.row as int, a.col as int) && dem.known(b.row as int, b.col as int) {
        let dist = dem.distance_m(m, a, b);
        let slope = over(
            m,
            minus(m, dem.at(b.row as int, b.col as int), dem.at(a.row as int, a.col as int)),
            dist,
        );
        let speed_kmh = tobler_speed_kmh(m, slope).max(Single { bits: TWENTIETH });
        let speed_ms = over(
            m,
            times(m, speed_kmh, Single { bits: THOUSAND }),
            Single { bits: SECONDS_PER_HOUR },
        );
        Some(times(m, over(m, dist, speed_ms), mult))
    } else {
        None
    }
}

/// Edge cost from `a` to `b` in seconds, using Tobler over the DEM.
fn edge_seconds<M: Math>(m: &M, dem: &Dem, a: CellIdx, b: CellIdx, mult: Single) -> (r: Option<
    Single,
>)
    requires
        steady(m),
        dem.wf(),
    ensures
        r == edge_cost(m, dem, a, b, mult),
{
    let za = match dem.get(a.row, a.col) {
        Some(z) => z,
        None => return None,
    };
    let zb = match dem.get(b.row, b.col) {
        Some(z) => z,
        None => return None,
    };
    let dist = dem.distance_m(m, a, b);
    let slope = over(m, minus(m, zb, za), dist);
    let speed_kmh = tobler_speed_kmh(m, slope).max(Single { bits: TWENTIETH });
    let speed_ms = over(
        m,
        times(m, speed_kmh, Single { bits: THOUSAND }),
        Single { bits: SECONDS_PER_HOUR },
    );
    Some(times(m, over(m, dist, speed_ms), mult))
}

/// Row step of the eight neighbors, row by row.
pub open spec fn ring_row(k: int) -> int {
    if k < 3 {
        -1
    } else if k < 5 {
        0
    } else {
        1
    }
}

/// Column step of the eight neighbors, row by row.
pub open spec fn ring_col(k: int) -> int {
    if k == 0 || k == 3 || k == 5 {
        -1
    } else if k == 1 || k == 6 {
        0
    } else {
        1
    }
}

fn ring(k: usize) -> (r: (i32, i32))
    requires
        k < 8,
    ensures
        r.0 == ring_row(k as int),
        r.1 == ring_col(k as int),
{
    let dr: i32 = if k < 3 {
        -1
    } else if k < 5 {
        0
    } else {
        1
    };
    let dc: i32 = if k == 0 || k == 3 || k == 5 {
        -1
    } else if k == 1 || k == 6 {
        0
    } else {
        1
    };
    (dr, dc)
}

/// Cost in seconds of a cost queued under a key: milliseconds, negated so that
/// the lowest cost comes first.
pub open spec fn spec_queued_cost<M: Math>(m: &M, key: i128) -> Single {
    over(m, single(m, if key > i128::MIN { (-key) as i128 } else { 0 }), Single { bits: THOUSAND })
}

/// Cost in seconds of a cost queued under a key.
#[verifier::when_used_as_spec(spec_queued_cost)]
pub fn queued_cost<M: Math>(m: &M, key: i128) -> (r: Single)
    requires
        steady(m),
    ensures
        r == queued_cost(m, key),
{
    let ms: i128 = if key > i128::MIN {
        -key
    } else {
        0
    };
    over(m, single(m, ms), Single { bits: THOUSAND })
}

/// What walking on from position `u` at a queued cost to its neighbor `k` leads
/// to: the neighbor and its cost. `None` past the longest hike, off the raster
/// and where a terrain altitude is missing.
pub open spec fn walk_on<M: Math>(
    m: &M,
    dem: &Dem,
    p: &HikeParams,
    u: int,
    k: int,
    key: i128,
) -> Option<(int, Single)> {
    let cur = queued_cost(m, key);
    if p.max_cost_seconds.below(cur) {
        None
    } else {
        match dem.moved(u, ring_row(k), ring_col(k)) {
            Some(v) => match edge_cost(
                m,
                dem,
                dem.cell_of(u),
                dem.cell_of(v),
                p.default_sac.cost_multiplier(),
            ) {
                Some(edge) => if p.max_cost_seconds.below(plus(m, cur, edge)) {
                    None
                } else {
                    Some((v, plus(m, cur, edge)))
                },
                None => None,
            },
            None => None,
        }
    }
}

/// How hiking costs move over the terrain. A cost is queued in whole
/// milliseconds; an entry is out of date when its cell has since been reached
/// more than a millisecond faster; a cost improves on another when it is more
/// than a millisecond lower.
pub open spec fn hike_rules<M: Math>(m: &M, dem: &Dem, p: &HikeParams) -> Rules {
    Rules {
        size: dem.data@.len(),
        degree: |u: int| 8nat,
        rises: false,
        key_of: |cost: Single|
            (-(to_u64(to_int(m, times(m, cost, Single { bits: THOUSAND }))) as i128)) as i128,
        stale: |cost: Single, key: i128|
            cost.finite() && plus(m, cost, Single { bits: MILLI }).below(queued_cost(m, key)),
        offer: |u: int, k: int, key: i128| walk_on(m, dem, p, u, k, key),
        open: |cost: Single| true,
        improves: |new: Single, prev: Single| plus(m, new, Single { bits: MILLI }).below(prev),
    }
}

struct Hike<'a, M: Math> {
    m: &'a M,
    dem: &'a Dem,
    p: &'a HikeParams,
}

impl<'a, M: Math> Network for Hike<'a, M> {
    closed spec fn rules(&self) -> Rules {
        hike_rules(self.m, self.dem, self.p)
    }

    closed spec fn valid(&self) -> bool {
        &&& steady(self.m)
        &&& self.dem.wf()
    }

    proof fn offer_in_range(&self, u: int, k: int, key: i128) {
        if let Some(v) = self.dem.moved(u, ring_row(k), ring_col(k)) {
            lemma_flat_in_range(
                self.dem.rows as int,
                self.dem.cols as int,
                u / self.dem.cols as int + ring_row(k),
                u % self.dem.cols as int + ring_col(k),
            );
        }
    }

    fn degree(&self, u: usize) -> (r: usize) {
        8
    }

    fn rises(&self) -> (r: bool) {
        false
    }

    fn key_of(&self, label: Single) -> (r: i128) {
        -(to_u64(to_int(self.m, times(self.m, label, Single { bits: THOUSAND }))) as i128)
    }

    fn is_stale(&self, label: Single, key: i128) -> (r: bool) {
        label.is_finite() && plus(self.m, label, Single { bits: MILLI }).lt(&queued_cost(self.m, key))
    }

    fn offer(&self, u: usize, k: usize, key: i128) -> (r: Option<(usize, Single)>) {
        let cur = queued_cost(self.m, key);
        if self.p.max_cost_seconds.lt(&cur) {
            return None;
        }
        let (dr, dc) = ring(k);
        let v: usize = match self.dem.move_by(u, dr, dc) {
            Some(v) => v,
            None => return None,
        };
        let mult = self.p.default_sac.cost_multiplier();
        match edge_seconds(self.m, self.dem, self.dem.cell_at(u), self.dem.cell_at(v), mult) {
            Some(edge) => {
                let new = plus(self.m, cur, edge);
                if self.p.max_cost_seconds.lt(&new) {
                    None
                } else {
                    Some((v, new))
                }
            },
            None => None,
        }
    }

    fn is_open(&self, label: Single) -> (r: bool) {
        true
    }

    fn improves(&self, new: Single, prev: Single) -> (r: bool) {
        plus(self.m, new, Single { bits: MILLI }).lt(&prev)
    }
}

/// Whether a seed starts in a cell of the raster.
pub open spec fn seed_in_bounds(dem: &Dem, seed: (CellIdx, Single)) -> bool {
    dem.has_cell(seed.0) && dem.rows <= i32::MAX && dem.cols <= i32::MAX
}

/// The seeded cells with their initial costs.
pub open spec fn seed_labels(dem: &Dem, seeds: Seq<(CellIdx, Single)>) -> Set<(int, Single)> {
    Set::new(
        |l: (int, Single)|
            exists|i: int|
                0 <= i < seeds.len() && #[trigger] seed_in_bounds(dem, seeds[i]) && l == (
                    dem.pos(seeds[i].0),
                    seeds[i].1,
                ),
    )
}

/// Whether a cell that starts with the seed `s` costs no more than the seed.
pub open spec fn seed_met(dem: &Dem, costs: Seq<Single>, s: (CellIdx, Single)) -> bool {
    costs[dem.pos(s.0)].finite() && costs[dem.pos(s.0)].at_most(s.1)
}

/// Whether the later one of two seeds puts the earlier one out: it is on the same
/// cell, and NaN or negative infinity.
pub open spec fn puts_out(dem: &Dem, later: (CellIdx, Single), s: (CellIdx, Single)) -> bool {
    seed_in_bounds(dem, later) && dem.pos(later.0) == dem.pos(s.0) && (later.1.nan()
        || later.1.bits == 0xff80_0000)
}

/// Whether seed `i` counts among the first `n` seeds: it is in the raster and
/// finite, and none of them puts it out.
pub open spec fn seed_counts(dem: &Dem, seeds: Seq<(CellIdx, Single)>, i: int, n: int) -> bool {
    seed_in_bounds(dem, seeds[i]) && seeds[i].1.finite() && forall|j: int|
        i < j < n ==> !#[trigger] puts_out(dem, seeds[j], seeds[i])
}

/// Whether position `u` starts with the cost `x` of a seed that does not count.
pub open spec fn stray_seed(
    dem: &Dem,
    seeds: Seq<(CellIdx, Single)>,
    u: int,
    x: Single,
) -> bool {
    exists|i: int|
        0 <= i < seeds.len() && #[trigger] seed_in_bounds(dem, seeds[i]) && u == dem.pos(seeds[i].0)
            && x == seeds[i].1 && !seed_counts(dem, seeds, i, seeds.len() as int)
}

/// Whether the cost at position `v` is what a walk leads to from a neighbor,
/// begun at a cost no lower than the one that the field has at the neighbor, or
/// at the cost of a seed that does not count.
pub open spec fn walked_to<M: Math>(
    m: &M,
    dem: &Dem,
    seeds: Seq<(CellIdx, Single)>,
    p: &HikeParams,
    costs: Seq<Single>,
    v: int,
) -> bool {
    exists|u: int, k: int, x: Single|
        0 <= u < costs.len() && 0 <= k < 8 && #[trigger] walk_on(
            m,
            dem,
            p,
            u,
            k,
            (hike_rules(m, dem, p).key_of)(x),
        ) == Some((v, costs[v])) && (x.finite() && costs[u].finite() && costs[u].at_most(x)
            || stray_seed(dem, seeds, u, x))
}

/// Where a field starts: every seed in turn sets the cost of its cell, unless the
/// cell already has a finite cost that is no higher.
pub open spec fn seeded<M: Math>(
    m: &M,
    dem: &Dem,
    seeds: Seq<(CellIdx, Single)>,
    p: &HikeParams,
) -> Standing
    decreases seeds.len(),
{
    if seeds.len() == 0 {
        Standing {
            labels: Seq::new(dem.data@.len(), |u: int| Single { bits: 0x7fc0_0000 }),
            queue: Multiset::empty(),
            reached: Seq::empty(),
        }
    } else {
        let before = seeded(m, dem, seeds.drop_last(), p);
        let (cell, init) = seeds.last();
        let u = dem.pos(cell);
        if !seed_in_bounds(dem, seeds.last()) || before.labels[u].finite()
            && before.labels[u].at_most(init) {
            before
        } else {
            Standing {
                labels: before.labels.update(u, init),
                queue: before.queue.insert(
                    Entry { key: (hike_rules(m, dem, p).key_of)(init), item: u as usize },
                ),
                reached: before.reached,
            }
        }
    }
}

/// Whether this is a walk over the terrain from the seeds to its end: cell by
/// cell, the lowest queued cost first. Cells queued at the same millisecond may
/// come in any order.
pub open spec fn is_hike_run<M: Math>(
    m: &M,
    dem: &Dem,
    seeds: Seq<(CellIdx, Single)>,
    p: &HikeParams,
    run: Seq<Standing>,
) -> bool {
    is_run(hike_rules(m, dem, p), run) && run[0] == seeded(m, dem, seeds, p)
}

/// Whether these are the hiking costs from the seeds: every one is earned by a
/// walk, cell by cell, from a seed; every one is that of a seed or comes from a
/// cost no lower than the one that the field has at a neighbor; from every one
/// walking on to each neighbor leads to nothing better; no seeded cell costs more
/// than a seed that counts; cells that were not reached hold NaN; and a walk from
/// the seeds to its end leads to these costs.
pub open spec fn is_hike_field<M: Math>(
    m: &M,
    dem: &Dem,
    seeds: Seq<(CellIdx, Single)>,
    p: &HikeParams,
    costs: Seq<Single>,
) -> bool {
    &&& costs.len() == dem.data@.len()
    &&& forall|u: int|
        0 <= u < costs.len() && (#[trigger] costs[u]).finite() ==> earned(
            hike_rules(m, dem, p),
            seed_labels(dem, seeds),
            u,
            costs[u],
        ) && settled(hike_rules(m, dem, p), costs, u) && (seed_labels(dem, seeds).contains(
            (u, costs[u]),
        ) || walked_to(m, dem, seeds, p, costs, u))
    &&& forall|i: int|
        0 <= i < seeds.len() && seed_counts(dem, seeds, i, seeds.len() as int)
            ==> #[trigger] seed_met(dem, costs, seeds[i])
    &&& forall|u: int|
        0 <= u < costs.len() && !(#[trigger] costs[u]).finite() ==> costs[u].bits == 0x7fc0_0000
            || seed_labels(dem, seeds).contains((u, costs[u]))
    &&& exists|run: Seq<Standing>| #[trigger]
        is_hike_run(m, dem, seeds, p, run) && run.last().labels == costs
}

/// Compute a hiking-time field from one or more seeded cells using Tobler's
/// function. Each seed has its own initial cost in seconds: 0 for a
/// ground-level trailhead, the lift travel time for a cable car upper station,
/// etc. The lowest cost wins where multiple seeds compete.
pub fn hike_field<M: Math>(
    m: &M,
    dem: &Dem,
    seeds: &[(CellIdx, Single)],
    p: &HikeParams,
) -> (r: HikeField)
    requires
        steady(m),
        dem.wf(),
    ensures
        is_hike_field(m, dem, seeds@, p, r.seconds@),
{
    let n: usize = dem.data.len();
    let mut cost: Vec<Single> = vec![Single::missing(); n];
    let net = Hike { m, dem, p };
    let ghost rules = hike_rules(m, dem, p);
    let ghost sources = seed_labels(dem, seeds@);
    let mut queue: MaxHeap<usize> = MaxHeap::new();
    proof {
        broadcast use vstd::multiset::group_multiset_axioms;

        assert(queue_seeded(rules, sources, queue@));
        assert(seeds@.take(0) =~= Seq::empty());
        assert(cost@ =~= seeded(m, dem, seeds@.take(0), p).labels);
        assert(queue@ =~= seeded(m, dem, seeds@.take(0), p).queue);
    }
    let mut i: usize = 0;
    while i < seeds.len()
        invariant
            steady(m),
            dem.wf(),
            net.m == m,
            net.dem == dem,
            net.p == p,
            rules == hike_rules(m, dem, p),
            sources == seed_labels(dem, seeds@),
            n == dem.data@.len(),
            cost@.len() == n,
            i <= seeds@.len(),
            queue.wf(),
            queue_seeded(rules, sources, queue@),
            seeded(m, dem, seeds@.take(i as int), p) == (Standing {
                labels: cost@,
                queue: queue@,
                reached: Seq::empty(),
            }),
            forall|u: int|
                0 <= u < n && (#[trigger] cost@[u]).finite() ==> earned(
                    rules,
                    sources,
                    u,
                    cost@[u],
                ) && queued(rules, cost@, queue@, u),
            forall|j: int|
                0 <= j < i && seed_counts(dem, seeds@, j, i as int) ==> #[trigger] seed_met(
                    dem,
                    cost@,
                    seeds@[j],
                ),
            forall|u: int|
                0 <= u < n && (#[trigger] cost@[u]).finite() ==> sources.contains((u, cost@[u])),
            forall|u: int|
                0 <= u < n && !(#[trigger] cost@[u]).finite() ==> cost@[u].bits == 0x7fc0_0000
                    || sources.contains((u, cost@[u])),
        decreases seeds@.len() - i,
    {
        let (t, init) = seeds[i];
        assert(seeds@.take(i + 1).drop_last() =~= seeds@.take(i as int));
        assert(seeds@.take(i + 1).last() == (t, init));
        if t.row <= 0x7fff_ffff && t.col <= 0x7fff_ffff && dem.in_bounds(
            t.row as i32,
            t.col as i32,
        ) {
            assert(seed_in_bounds(dem, seeds@[i as int]));
            proof {
                lemma_flat_in_range(dem.rows as int, dem.cols as int, t.row as int, t.col as int);
            }
            let c: usize = dem.idx(t.row, t.col);
            let ghost before = cost@;
            if !(cost[c].is_finite() && cost[c].le(&init)) {
                let ghost cost0 = cost@;
                let ghost queue0 = queue@;
                cost[c] = init;
                queue.push(net.key_of(init), c);
                proof {
                    broadcast use vstd::multiset::group_multiset_axioms;

                    let e = Entry { key: (rules.key_of)(init), item: c };
                    let path = seq![(c as int, init)];
                    assert(sources.contains((c as int, init)));
                    assert(route(rules, sources, path));
                    assert(path.last() == (c as int, init));
                    assert(earned(rules, sources, c as int, init));
                    assert forall|e2: Entry<usize>| #[trigger] queue@.contains(e2) implies e2.item
                        < rules.size && exists|x: Single|
                        #[trigger] sources.contains((e2.item as int, x)) && (rules.key_of)(x)
                            == e2.key by {
                        if e2 != e {
                            assert(queue0.contains(e2));
                        }
                    }
                    assert forall|u: int| 0 <= u < n && (#[trigger] cost@[u]).finite() implies earned(
                        rules,
                        sources,
                        u,
                        cost@[u],
                    ) && queued(rules, cost@, queue@, u) by {
                        if u != c {
                            assert(cost@[u] == cost0[u]);
                            assert(queued(rules, cost0, queue0, u));
                        }
                    }
                }
            }
            proof {
                assert forall|j: int|
                    0 <= j < i + 1 && seed_counts(dem, seeds@, j, i + 1) implies #[trigger] seed_met(
                    dem,
                    cost@,
                    seeds@[j],
                ) by {
                    if j < i {
                        assert(seed_counts(dem, seeds@, j, i as int));
                        assert(seed_met(dem, before, seeds@[j]));
                        assert(!puts_out(dem, seeds@[i as int], seeds@[j]));
                        lemma_flat_in_range(
                            dem.rows as int,
                            dem.cols as int,
                            seeds@[j].0.row as int,
                            seeds@[j].0.col as int,
                        );
                    }
                }
            }
        } else {
            proof {
                assert forall|j: int|
                    0 <= j < i + 1 && seed_counts(dem, seeds@, j, i + 1) implies #[trigger] seed_met(
                    dem,
                    cost@,
                    seeds@[j],
                ) by {
                    if j < i {
                        assert(seed_counts(dem, seeds@, j, i as int));
                    }
                }
            }
        }
        i = i + 1;
    }
    let ghost cost0 = cost@;
    let ghost queue0 = queue@;
    let reached = propagate(&net, &mut cost, &mut queue, Ghost(sources));
    proof {
        let run = choose|run: Seq<Standing>| #[trigger]
            is_run(rules, run) && run[0].labels == cost0 && run[0].queue == queue0
                && run.last().labels == cost@ && run.last().reached == nodes(reached@);
        assert(seeds@.take(i as int) =~= seeds@);
        assert(run[0].reached =~= Seq::empty());
        assert(is_hike_run(m, dem, seeds@, p, run));
        assert forall|j: int|
            0 <= j < seeds@.len() && seed_counts(
                dem,
                seeds@,
                j,
                seeds@.len() as int,
            ) implies #[trigger] seed_met(dem, cost@, seeds@[j]) by {
            assert(seed_met(dem, cost0, seeds@[j]));
            lemma_flat_in_range(
                dem.rows as int,
                dem.cols as int,
                seeds@[j].0.row as int,
                seeds@[j].0.col as int,
            );
            assert(cost@[dem.pos(seeds@[j].0)].finite());
        }
        assert forall|v: int| 0 <= v < n && (#[trigger] cost@[v]).finite() implies (
        sources.contains((v, cost@[v])) || walked_to(m, dem, seeds@, p, cost@, v)) by {
            assert(attained(rules, sources, cost0, cost@, v));
            if cost@[v] == cost0[v] {
                assert(cost0[v].finite());
            } else {
                let (u, k, x) = choose|u: int, k: int, x: Single|
                    0 <= u < rules.size && 0 <= k < (rules.degree)(u) && #[trigger] (rules.offer)(
                        u,
                        k,
                        (rules.key_of)(x),
                    ) == Some((v, cost@[v])) && current(rules, sources, cost@, u, x);
                assert(walk_on(m, dem, p, u, k, (hike_rules(m, dem, p).key_of)(x)) == Some(
                    (v, cost@[v]),
                ));
                if sources.contains((u, x)) {
                    let j = choose|j: int|
                        0 <= j < seeds@.len() && #[trigger] seed_in_bounds(dem, seeds@[j]) && (
                        u,
                        x,
                        ) == (dem.pos(seeds@[j].0), seeds@[j].1);
                    if seed_counts(dem, seeds@, j, seeds@.len() as int) {
                        assert(seed_met(dem, cost@, seeds@[j]));
                    } else {
                        assert(stray_seed(dem, seeds@, u, x));
                    }
                }
            }
        }
    }
    HikeField { seconds: cost }
}

/// No cell that is not seeded costs more than the longest hike.
pub proof fn hikes_stay_within_limit<M: Math>(
    m: &M,
    dem: &Dem,
    seeds: Seq<(CellIdx, Single)>,
    p: &HikeParams,
    costs: Seq<Single>,
    u: int,
)
    requires
        is_hike_field(m, dem, seeds, p, costs),
        0 <= u < costs.len(),
        costs[u].finite(),
        forall|i: int|
            0 <= i < seeds.len() ==> dem.pos((#[trigger] seeds[i]).0) != u,
    ensures
        !p.max_cost_seconds.below(costs[u]),
{
    let rules = hike_rules(m, dem, p);
    let sources = seed_labels(dem, seeds);
    let path = choose|path: Seq<(int, Single)>| #[trigger]
        route(rules, sources, path) && path.last() == (u, costs[u]);
    assert(path.len() >= 2);
    let i = path.len() - 2;
    assert(step(rules, path[i], path[i + 1]));
}

/// No walk from a cell to its neighbor is more than a millisecond faster than
/// the cost of the neighbor, wherever the cell's own cost is known to the
/// millisecond.
pub proof fn hikes_are_fastest<M: Math>(
    m: &M,
    dem: &Dem,
    seeds: Seq<(CellIdx, Single)>,
    p: &HikeParams,
    costs: Seq<Single>,
    u: int,
    k: int,
)
    requires
        monotone(m),
        is_hike_field(m, dem, seeds, p, costs),
        0 <= u < costs.len(),
        0 <= k < 8,
        costs[u].finite(),
        !(hike_rules(m, dem, p).stale)(costs[u], (hike_rules(m, dem, p).key_of)(costs[u])),
    ensures
        match walk_on(m, dem, p, u, k, (hike_rules(m, dem, p).key_of)(costs[u])) {
            Some((v, cost)) => cost.finite() ==> costs[v].finite() && !plus(
                m,
                cost,
                Single { bits: MILLI },
            ).below(costs[v]),
            None => true,
        },
{
    let rules = hike_rules(m, dem, p);
    assert(offer_settled(rules, costs, u, k));
    if let Some((v, cost)) = walk_on(m, dem, p, u, k, (rules.key_of)(costs[u])) {
        if cost.finite() {
            let x = choose|x: Single|
                (x == costs[v] || x.finite() && costs[v].finite() && better(
                    rules.rises,
                    costs[v],
                    x,
                )) && !#[trigger] wins(rules, cost, x);
            assert(cost.at_most(plus(m, cost, Single { bits: MILLI })));
        }
    }
}

/// Whether walking on from a lower cost is possible wherever it is from a higher
/// one, and costs no more: what rounding to milliseconds and adding the seconds
/// of the same way keep.
pub open spec fn keeps_lead<M: Math>(m: &M, dem: &Dem, p: &HikeParams) -> bool {
    let key_of = hike_rules(m, dem, p).key_of;
    forall|u: int, k: int, x: Single, y: Single|
        #![trigger walk_on(m, dem, p, u, k, key_of(x)), walk_on(m, dem, p, u, k, key_of(y))]
        x.finite() && y.finite() && x.at_most(y) ==> match walk_on(m, dem, p, u, k, key_of(y)) {
            Some((_, slow)) => slow.finite() ==> match walk_on(m, dem, p, u, k, key_of(x)) {
                Some((_, fast)) => fast.finite() && fast.at_most(slow),
                None => false,
            },
            None => true,
        }
}

/// The cost of every reached cell comes from a seed or a neighbor: the walk on
/// from the cost that the field has there leads to the cell, at no higher cost.
pub proof fn costs_come_from_neighbors<M: Math>(
    m: &M,
    dem: &Dem,
    seeds: Seq<(CellIdx, Single)>,
    p: &HikeParams,
    costs: Seq<Single>,
    v: int,
) -> (from: (int, int))
    requires
        keeps_lead(m, dem, p),
        forall|i: int| 0 <= i < seeds.len() ==> (#[trigger] seeds[i]).1.finite(),
        is_hike_field(m, dem, seeds, p, costs),
        0 <= v < costs.len(),
        costs[v].finite(),
    ensures
        seed_labels(dem, seeds).contains((v, costs[v])) || 0 <= from.0 < costs.len() && 0 <= from.1
            < 8 && costs[from.0].finite() && match walk_on(
            m,
            dem,
            p,
            from.0,
            from.1,
            (hike_rules(m, dem, p).key_of)(costs[from.0]),
        ) {
            Some((w, cost)) => w == v && cost.finite() && cost.at_most(costs[v]),
            None => false,
        },
{
    let key_of = hike_rules(m, dem, p).key_of;
    if seed_labels(dem, seeds).contains((v, costs[v])) {
        (0, 0)
    } else {
        assert(walked_to(m, dem, seeds, p, costs, v));
        let (u, k, x) = choose|u: int, k: int, x: Single|
            0 <= u < costs.len() && 0 <= k < 8 && #[trigger] walk_on(m, dem, p, u, k, key_of(x))
                == Some((v, costs[v])) && (x.finite() && costs[u].finite() && costs[u].at_most(x)
                || stray_seed(dem, seeds, u, x));
        if stray_seed(dem, seeds, u, x) {
            let i = choose|i: int|
                0 <= i < seeds.len() && #[trigger] seed_in_bounds(dem, seeds[i]) && u == dem.pos(
                    seeds[i].0,
                ) && x == seeds[i].1 && !seed_counts(dem, seeds, i, seeds.len() as int);
            assert forall|j: int| i < j < seeds.len() implies !#[trigger] puts_out(
                dem,
                seeds[j],
                seeds[i],
            ) by {
                assert(seeds[j].1.finite());
            }
        }
        assert(walk_on(m, dem, p, u, k, key_of(costs[u])) is Some);
        (u, k)
    }
}

/// One step of a walk that rests for at least a millisecond: it takes that much
/// longer than the way to some neighbor does.
pub open spec fn unhurried_step<M: Math>(
    m: &M,
    dem: &Dem,
    p: &HikeParams,
    from: (int, Single),
    to: (int, Single),
) -> bool {
    &&& to.1.finite()
    &&& exists|k: int|
        0 <= k < 8 && match #[trigger] walk_on(
            m,
            dem,
            p,
            from.0,
            k,
            (hike_rules(m, dem, p).key_of)(from.1),
        ) {
            Some((v, cost)) => v == to.0 && cost.finite() && plus(
                m,
                cost,
                Single { bits: MILLI },
            ).at_most(to.1),
            None => false,
        }
}

/// A walk from a seed, cell by cell, that rests for at least a millisecond in
/// each.
pub open spec fn unhurried_walk<M: Math>(
    m: &M,
    dem: &Dem,
    seeds: Seq<(CellIdx, Single)>,
    p: &HikeParams,
    path: Seq<(int, Single)>,
) -> bool {
    &&& path.len() > 0
    &&& seed_labels(dem, seeds).contains(path[0])
    &&& forall|i: int|
        1 <= i < path.len() ==> unhurried_step(m, dem, p, path[i - 1], #[trigger] path[i])
}

/// An unhurried step from a cell where the field costs no more leads to one where
/// it costs no more.
#[verifier::spinoff_prover]
proof fn lemma_unhurried_step<M: Math>(
    m: &M,
    dem: &Dem,
    seeds: Seq<(CellIdx, Single)>,
    p: &HikeParams,
    costs: Seq<Single>,
    from: (int, Single),
    to: (int, Single),
)
    requires
        dem.wf(),
        monotone(m),
        keeps_lead(m, dem, p),
        is_hike_field(m, dem, seeds, p, costs),
        0 <= from.0 < costs.len(),
        from.1.finite(),
        costs[from.0].finite(),
        costs[from.0].at_most(from.1),
        !(hike_rules(m, dem, p).stale)(
            costs[from.0],
            (hike_rules(m, dem, p).key_of)(costs[from.0]),
        ),
        unhurried_step(m, dem, p, from, to),
    ensures
        0 <= to.0 < costs.len(),
        to.1.finite(),
        costs[to.0].finite(),
        costs[to.0].at_most(to.1),
{
    let key_of = hike_rules(m, dem, p).key_of;
    let u = from.0;
    let rest = Single { bits: MILLI };
    let k = choose|k: int|
        0 <= k < 8 && match #[trigger] walk_on(m, dem, p, u, k, key_of(from.1)) {
            Some((v, cost)) => v == to.0 && cost.finite() && plus(m, cost, rest).at_most(to.1),
            None => false,
        };
    let slow = (walk_on(m, dem, p, u, k, key_of(from.1))->0).1;
    assert(walk_on(m, dem, p, u, k, key_of(costs[u])) is Some);
    let fast = (walk_on(m, dem, p, u, k, key_of(costs[u]))->0).1;
    assert(fast.at_most(slow));
    lemma_flat_in_range(
        dem.rows as int,
        dem.cols as int,
        u / dem.cols as int + ring_row(k),
        u % dem.cols as int + ring_col(k),
    );
    hikes_are_fastest(m, dem, seeds, p, costs, u, k);
    assert(plus(m, fast, rest).at_most(plus(m, slow, rest)));
}

#[verifier::spinoff_prover]
proof fn lemma_unhurried<M: Math>(
    m: &M,
    dem: &Dem,
    seeds: Seq<(CellIdx, Single)>,
    p: &HikeParams,
    costs: Seq<Single>,
    path: Seq<(int, Single)>,
    i: int,
)
    requires
        dem.wf(),
        monotone(m),
        keeps_lead(m, dem, p),
        is_hike_field(m, dem, seeds, p, costs),
        forall|j: int| 0 <= j < seeds.len() ==> (#[trigger] seeds[j]).1.finite(),
        forall|u: int|
            0 <= u < costs.len() && (#[trigger] costs[u]).finite() ==> !(hike_rules(m, dem, p).stale)(
                costs[u],
                (hike_rules(m, dem, p).key_of)(costs[u]),
            ),
        unhurried_walk(m, dem, seeds, p, path),
        0 <= i < path.len(),
    ensures
        0 <= path[i].0 < costs.len(),
        path[i].1.finite(),
        costs[path[i].0].finite(),
        costs[path[i].0].at_most(path[i].1),
    decreases i,
{
    if i == 0 {
        let j = choose|j: int|
            0 <= j < seeds.len() && #[trigger] seed_in_bounds(dem, seeds[j]) && path[0] == (
                dem.pos(seeds[j].0),
                seeds[j].1,
            );
        assert(seed_counts(dem, seeds, j, seeds.len() as int));
        assert(seed_met(dem, costs, seeds[j]));
        lemma_flat_in_range(
            dem.rows as int,
            dem.cols as int,
            seeds[j].0.row as int,
            seeds[j].0.col as int,
        );
    } else {
        lemma_unhurried(m, dem, seeds, p, costs, path, i - 1);
        assert(unhurried_step(m, dem, p, path[i - 1], path[i]));
        lemma_unhurried_step(m, dem, seeds, p, costs, path[i - 1], path[i]);
    }
}

/// No walk from a seed, whichever way it takes, is faster than the cost of the
/// cell where it ends, once it rests for a millisecond per cell, where the costs
/// are known to the millisecond; and where such a walk leads, the field does too.
pub proof fn no_hike_is_faster<M: Math>(
    m: &M,
    dem: &Dem,
    seeds: Seq<(CellIdx, Single)>,
    p: &HikeParams,
    costs: Seq<Single>,
    path: Seq<(int, Single)>,
)
    requires
        dem.wf(),
        monotone(m),
        keeps_lead(m, dem, p),
        is_hike_field(m, dem, seeds, p, costs),
        forall|j: int| 0 <= j < seeds.len() ==> (#[trigger] seeds[j]).1.finite(),
        forall|u: int|
            0 <= u < costs.len() && (#[trigger] costs[u]).finite() ==> !(hike_rules(m, dem, p).stale)(
                costs[u],
                (hike_rules(m, dem, p).key_of)(costs[u]),
            ),
        unhurried_walk(m, dem, seeds, p, path),
    ensures
        costs[path.last().0].finite(),
        costs[path.last().0].at_most(path.last().1),
{
    lemma_unhurried(m, dem, seeds, p, costs, path, path.len() - 1);
}

/// Whether the exponential function grows, is 1 at 0 and is never negative.
pub open spec fn exp_grows<M: Math>(m: &M) -> bool {
    &&& forall|x: Single, y: Single|
        x.at_most(y) ==> (#[trigger] exp(m, x)).at_most(#[trigger] exp(m, y))
    &&& forall|x: Single| x.at_most(x) && x.rank() == 0 ==> (#[trigger] exp(m, x)).bits == 0x3f80_0000
    &&& forall|x: Single| x.at_most(x) ==> (Single { bits: 0 }).at_most(#[trigger] exp(m, x))
}

/// The grade in which walking is fastest: a descent of 5%, to the nearest number.
pub open spec fn fastest_grade() -> real {
    -value(Single { bits: 0x3d4c_cccd })
}

/// How far a grade is from the one in which walking is fastest.
pub open spec fn off_fastest(grade: Single) -> real {
    let off = value(grade) - fastest_grade();
    if off < 0real {
        -off
    } else {
        off
    }
}

/// Whether a grade is one that terrain can have: at most a million to one.
pub open spec fn is_grade(grade: Single) -> bool {
    grade.finite() && -1_000_000real <= value(grade) <= 1_000_000real
}

proof fn lemma_hike_numbers()
    ensures
        value(Single { bits: 0x4980_0000 }) == 1_048_576real,
        (Single { bits: 0x4980_0000 }).finite(),
        value(Single { bits: 0x4a80_0000 }) == 4_194_304real,
        (Single { bits: 0x4a80_0000 }).finite(),
        value(Single { bits: 0x40c0_0000 }) == 6real,
        (Single { bits: 0x40c0_0000 }).finite(),
        value(Single { bits: 0x4060_0000 }) * 2real == 7real,
        (Single { bits: 0x4060_0000 }).finite(),
        value(Single { bits: 0x3f80_0000 }) == 1real,
        (Single { bits: 0x3f80_0000 }).finite(),
        value(Single { bits: 0x447a_0000 }) == 1000real,
        (Single { bits: 0x447a_0000 }).finite(),
        value(Single { bits: 0x4561_0000 }) == 3600real,
        (Single { bits: 0x4561_0000 }).finite(),
        0real < value(Single { bits: 0x3d4c_cccd }) < 1real,
        4_999_999real <= 100_000_000real * value(Single { bits: 0x3d4c_cccd }) <= 5_000_001real,
        (Single { bits: 0x3d4c_cccd }).finite(),
{
    lemma2_to64();
    digits_bound_the_value(
        Single { bits: 0x4980_0000 },
        147,
        0x80_0000,
        8,
        1_048_576real,
        1_048_576real,
    );
    digits_bound_the_value(
        Single { bits: 0x4a80_0000 },
        149,
        0x80_0000,
        2,
        4_194_304real,
        4_194_304real,
    );
    digits_bound_the_value(Single { bits: 0x40c0_0000 }, 129, 0xc0_0000, 0x20_0000, 6real, 6real);
    digits_bound_the_value(
        Single { bits: 0x4060_0000 },
        128,
        0xe0_0000,
        0x40_0000,
        7real / 2real,
        7real / 2real,
    );
    digits_bound_the_value(Single { bits: 0x3f80_0000 }, 127, 0x80_0000, 0x80_0000, 1real, 1real);
    digits_bound_the_value(Single { bits: 0x447a_0000 }, 136, 0xfa_0000, 0x4000, 1000real, 1000real);
    digits_bound_the_value(Single { bits: 0x4561_0000 }, 138, 0xe1_0000, 0x1000, 3600real, 3600real);
    digits_bound_the_value(
        Single { bits: 0x3d4c_cccd },
        122,
        0xcc_cccd,
        0x1000_0000,
        4_999_999real / 100_000_000real,
        5_000_001real / 100_000_000real,
    );
}

/// The exponent of Tobler's function: how it follows from the grade.
proof fn lemma_exponent<M: Math>(m: &M, rnd: spec_fn(real) -> int, grade: Single) -> (r: (
    Single,
    Single,
))
    requires
        rounds(m, rnd),
        is_grade(grade),
    ensures
        r.0.finite(),
        0real <= value(r.0) <= 4_194_304real,
        r.0.rank() == rnd(off_fastest(grade)),
        stands_for(r.1, rnd(-(7real * value(r.0) / 2real))),
        tobler_speed_kmh(m, grade) == times(m, Single { bits: 0x40c0_0000 }, exp(m, r.1)),
{
    lemma_hike_numbers();
    let c = Single { bits: 0x3d4c_cccd };
    let sum = plus(m, grade, c);
    let v = value(grade) + value(c);
    let hi = Single { bits: 0x4a80_0000 };
    let lo = hi.neg();
    negation_is_exact(hi);
    rounding_stays_between(m, rnd, sum, v, lo, hi);
    size_is_exact(sum);
    assert(rnd(-v) == -rnd(v));
    zero_is_nothing();
    rounding_keeps_sides(m, rnd, sum, v, Single { bits: 0 });
    let size = sum.abs();
    let decay = Single { bits: 0x4060_0000 };
    negation_is_exact(decay);
    let product = times(m, decay.neg(), size);
    assert(value(decay.neg()) * value(size) == -(7real * value(size) / 2real)) by (nonlinear_arith)
        requires
            value(decay.neg()) == -value(decay),
            value(decay) * 2real == 7real,
    ;
    (size, product)
}

/// Nobody walks faster than 6 km/h, and on a descent of 5% everybody walks that
/// fast.
pub proof fn no_grade_is_walked_faster<M: Math>(m: &M, rnd: spec_fn(real) -> int, grade: Single)
    requires
        rounds(m, rnd),
        exp_grows(m),
        is_grade(grade),
    ensures
        tobler_speed_kmh(m, grade).finite(),
        0real <= value(tobler_speed_kmh(m, grade)) <= 6real,
        off_fastest(grade) == 0real ==> value(tobler_speed_kmh(m, grade)) == 6real,
        4_999_999real <= -100_000_000real * fastest_grade() <= 5_000_001real,
{
    lemma_hike_numbers();
    zero_is_nothing();
    let (size, product) = lemma_exponent(m, rnd, grade);
    let zero = Single { bits: 0 };
    let one = Single { bits: 0x3f80_0000 };
    let six = Single { bits: 0x40c0_0000 };
    rounding_keeps_sides(m, rnd, product, -(7real * value(size) / 2real), zero);
    let e = exp(m, product);
    assert(exp(m, zero).bits == 0x3f80_0000);
    assert(product.at_most(zero));
    assert(zero.at_most(e) && e.at_most(one));
    values_are_in_order(zero, e);
    values_are_in_order(e, one);
    let speed = times(m, six, e);
    assert(0real <= value(six) * value(e) <= 6real) by (nonlinear_arith)
        requires
            value(six) == 6real,
            0real <= value(e) <= 1real,
    ;
    rounding_stays_between(m, rnd, speed, value(six) * value(e), zero, six);
    if off_fastest(grade) == 0real {
        rounding_keeps_sides(m, rnd, size, 0real, zero);
        rounding_keeps_sides(m, rnd, product, 0real, zero);
        assert(e == one);
        rounding_keeps_sides(m, rnd, speed, 6real, six);
    }
}

/// The further a grade is from a descent of 5%, up or down, the slower it is
/// walked: both steep up and steep down slow you down, and alike.
pub proof fn steep_grades_slow_you_down<M: Math>(
    m: &M,
    rnd: spec_fn(real) -> int,
    gentle: Single,
    steep: Single,
)
    requires
        rounds(m, rnd),
        exp_grows(m),
        is_grade(gentle),
        is_grade(steep),
        off_fastest(gentle) <= off_fastest(steep),
    ensures
        tobler_speed_kmh(m, steep).at_most(tobler_speed_kmh(m, gentle)),
{
    lemma_hike_numbers();
    zero_is_nothing();
    let (x, a) = lemma_exponent(m, rnd, gentle);
    let (y, b) = lemma_exponent(m, rnd, steep);
    assert(x.rank() <= y.rank());
    values_are_in_order(x, y);
    rounding_keeps_order(
        m,
        rnd,
        b,
        -(7real * value(y) / 2real),
        a,
        -(7real * value(x) / 2real),
    );
    let zero = Single { bits: 0 };
    let one = Single { bits: 0x3f80_0000 };
    rounding_keeps_sides(m, rnd, a, -(7real * value(x) / 2real), zero);
    rounding_keeps_sides(m, rnd, b, -(7real * value(y) / 2real), zero);
    let (e, f) = (exp(m, a), exp(m, b));
    assert(exp(m, zero).bits == 0x3f80_0000);
    assert(zero.at_most(e) && e.at_most(one) && zero.at_most(f) && f.at_most(e));
    values_are_in_order(f, e);
    let six = Single { bits: 0x40c0_0000 };
    assert(value(six) * value(f) <= value(six) * value(e)) by (nonlinear_arith)
        requires
            value(six) == 6real,
            value(f) <= value(e),
    ;
    rounding_keeps_order(
        m,
        rnd,
        times(m, six, f),
        value(six) * value(f),
        times(m, six, e),
        value(six) * value(e),
    );
}

/// Whether the way from `a` to `b` is one that terrain can have: known at both
/// ends, no higher than mountains are, and between a meter and a thousand
/// kilometers long.
pub open spec fn is_way<M: Math>(m: &M, dem: &Dem, a: CellIdx, b: CellIdx) -> bool {
    let (from, to) = (
        dem.at(a.row as int, a.col as int),
        dem.at(b.row as int, b.col as int),
    );
    &&& dem.known(a.row as int, a.col as int)
    &&& dem.known(b.row as int, b.col as int)
    &&& -65_000real <= value(from) <= 65_000real
    &&& -65_000real <= value(to) <= 65_000real
    &&& dem.distance_m(m, a, b).finite()
    &&& 1real <= value(dem.distance_m(m, a, b)) <= 1_000_000real
}

/// How much higher the way from `a` to `b` ends than it starts.
pub open spec fn climb(dem: &Dem, a: CellIdx, b: CellIdx) -> real {
    value(dem.at(b.row as int, b.col as int)) - value(dem.at(a.row as int, a.col as int))
}

/// Grade of a way.
spec fn grade_of<M: Math>(m: &M, dem: &Dem, a: CellIdx, b: CellIdx) -> Single {
    over(
        m,
        minus(m, dem.at(b.row as int, b.col as int), dem.at(a.row as int, a.col as int)),
        dem.distance_m(m, a, b),
    )
}

/// Speed on a way in m/s.
spec fn speed_of<M: Math>(m: &M, grade: Single) -> Single {
    over(
        m,
        times(
            m,
            tobler_speed_kmh(m, grade).max(Single { bits: 0x3d4c_cccd }),
            Single { bits: 0x447a_0000 },
        ),
        Single { bits: 0x4561_0000 },
    )
}

proof fn lemma_grade<M: Math>(
    m: &M,
    rnd: spec_fn(real) -> int,
    dem: &Dem,
    a: CellIdx,
    b: CellIdx,
) -> (dz: Single)
    requires
        rounds(m, rnd),
        is_way(m, dem, a, b),
    ensures
        is_grade(grade_of(m, dem, a, b)),
        dz.finite() && stands_for(dz, rnd(climb(dem, a, b))),
        -131_072real <= value(dz) <= 131_072real,
        0real <= climb(dem, a, b) ==> 0real <= value(dz),
        climb(dem, a, b) <= 0real ==> value(dz) <= 0real,
        stands_for(
            grade_of(m, dem, a, b),
            rnd(value(dz) / value(dem.distance_m(m, a, b))),
        ),
        0real <= value(dz) ==> 0real <= value(grade_of(m, dem, a, b)),
        value(dz) <= 0real ==> value(grade_of(m, dem, a, b)) <= 0real,
{
    powers_of_two();
    zero_is_nothing();
    let zero = Single { bits: 0 };
    let (from, to) = (
        dem.at(a.row as int, a.col as int),
        dem.at(b.row as int, b.col as int),
    );
    let dz = minus(m, to, from);
    let bound = Single { bits: 0x4800_0000 };
    differences_stay_within(m, rnd, to, from, bound);
    rounding_keeps_sides(m, rnd, dz, climb(dem, a, b), zero);
    values_are_in_order(zero, dz);
    values_are_in_order(dz, zero);
    let d = dem.distance_m(m, a, b);
    let (v, l) = (value(dz), value(d));
    let q = v / l;
    assert(-131_072real <= q <= 131_072real && (0real <= v ==> 0real <= q) && (v <= 0real ==> q
        <= 0real)) by (nonlinear_arith)
        requires
            q == v / l,
            1real <= l,
            -131_072real <= v <= 131_072real,
    ;
    negation_is_exact(bound);
    let g = grade_of(m, dem, a, b);
    rounding_stays_between(m, rnd, g, q, bound.neg(), bound);
    rounding_keeps_sides(m, rnd, g, q, zero);
    values_are_in_order(zero, g);
    values_are_in_order(g, zero);
    dz
}

proof fn lemma_speed<M: Math>(m: &M, rnd: spec_fn(real) -> int, grade: Single)
    requires
        rounds(m, rnd),
        exp_grows(m),
        is_grade(grade),
    ensures
        speed_of(m, grade).finite(),
        1real / 200real <= value(speed_of(m, grade)) <= 2real,
{
    lemma_hike_numbers();
    powers_of_two();
    zero_is_nothing();
    no_grade_is_walked_faster(m, rnd, grade);
    let slow = Single { bits: 0x3d4c_cccd };
    let kmh = tobler_speed_kmh(m, grade).max(slow);
    picks_are_exact(tobler_speed_kmh(m, grade), slow);
    let mh = times(m, kmh, Single { bits: 0x447a_0000 });
    lemma_speed_numbers();
    assert(value(kmh) * 1000real == 1000real * value(kmh));
    rounding_stays_between(
        m,
        rnd,
        mh,
        value(kmh) * 1000real,
        Single { bits: 0x41c8_0000 },
        Single { bits: 0x45bb_8000 },
    );
    rounding_stays_between(
        m,
        rnd,
        speed_of(m, grade),
        value(mh) / 3600real,
        Single { bits: 0x3bcc_cccd },
        Single { bits: 0x4000_0000 },
    );
}

proof fn lemma_speed_numbers()
    ensures
        (Single { bits: 0x41c8_0000 }).finite() && value(Single { bits: 0x41c8_0000 }) == 25real,
        (Single { bits: 0x45bb_8000 }).finite() && value(Single { bits: 0x45bb_8000 }) == 6000real,
        (Single { bits: 0x3bcc_cccd }).finite() && 1real / 200real <= value(
            Single { bits: 0x3bcc_cccd },
        ) <= 25real / 3600real,
{
    lemma2_to64();
    digits_bound_the_value(Single { bits: 0x41c8_0000 }, 131, 0xc8_0000, 0x8_0000, 25real, 25real);
    digits_bound_the_value(Single { bits: 0x45bb_8000 }, 139, 0xbb_8000, 0x800, 6000real, 6000real);
    digits_bound_the_value(
        Single { bits: 0x3bcc_cccd },
        119,
        0xcc_cccd,
        0x8000_0000,
        1real / 200real,
        25real / 3600real,
    );
}

proof fn lemma_speed_falls<M: Math>(
    m: &M,
    rnd: spec_fn(real) -> int,
    gentle: Single,
    steep: Single,
)
    requires
        rounds(m, rnd),
        exp_grows(m),
        is_grade(gentle),
        is_grade(steep),
        off_fastest(gentle) <= off_fastest(steep),
    ensures
        value(speed_of(m, steep)) <= value(speed_of(m, gentle)),
{
    lemma_hike_numbers();
    lemma_speed_numbers();
    zero_is_nothing();
    lemma_speed(m, rnd, gentle);
    lemma_speed(m, rnd, steep);
    no_grade_is_walked_faster(m, rnd, gentle);
    no_grade_is_walked_faster(m, rnd, steep);
    steep_grades_slow_you_down(m, rnd, gentle, steep);
    let slow = Single { bits: 0x3d4c_cccd };
    let (a, b) = (tobler_speed_kmh(m, steep), tobler_speed_kmh(m, gentle));
    values_are_in_order(a, b);
    picks_are_exact(a, slow);
    picks_are_exact(b, slow);
    let k = Single { bits: 0x447a_0000 };
    let (x, y) = (times(m, a.max(slow), k), times(m, b.max(slow), k));
    products_grow(m, rnd, a.max(slow), b.max(slow), k);
    let top = Single { bits: 0x45bb_8000 };
    let zero = Single { bits: 0 };
    assert(value(a.max(slow)) * 1000real == 1000real * value(a.max(slow)));
    assert(value(b.max(slow)) * 1000real == 1000real * value(b.max(slow)));
    rounding_stays_between(m, rnd, x, value(a.max(slow)) * value(k), zero, top);
    rounding_stays_between(m, rnd, y, value(b.max(slow)) * value(k), zero, top);
    values_are_in_order(x, y);
    let hour = Single { bits: 0x4561_0000 };
    quotients_grow(m, rnd, x, y, hour, hour);
    values_are_in_order(speed_of(m, steep), speed_of(m, gentle));
}

/// Of two ways that are equally long, one that is further from a descent of 5%
/// takes no less time. So climbing more takes no less, on ways that climb; and no
/// way down takes longer than it takes up.
pub proof fn climbing_more_takes_longer<M: Math>(
    m: &M,
    rnd: spec_fn(real) -> int,
    dem: &Dem,
    a: CellIdx,
    b: CellIdx,
    c: CellIdx,
    d: CellIdx,
    mult: Single,
)
    requires
        rounds(m, rnd),
        exp_grows(m),
        is_way(m, dem, a, b),
        is_way(m, dem, c, d),
        value(dem.distance_m(m, a, b)) == value(dem.distance_m(m, c, d)),
        0real <= climb(dem, c, d),
        -climb(dem, c, d) <= climb(dem, a, b) <= climb(dem, c, d),
        mult.finite() && 0real <= value(mult) <= 1000real,
    ensures
        edge_cost(m, dem, a, b, mult) is Some,
        edge_cost(m, dem, c, d, mult) is Some,
        (edge_cost(m, dem, a, b, mult)->0).at_most(edge_cost(m, dem, c, d, mult)->0),
{
    lemma_hike_numbers();
    zero_is_nothing();
    let p = lemma_grade(m, rnd, dem, a, b);
    let q = lemma_grade(m, rnd, dem, c, d);
    let (g, h) = (grade_of(m, dem, a, b), grade_of(m, dem, c, d));
    let (s, t) = (dem.distance_m(m, a, b), dem.distance_m(m, c, d));
    assert(rnd(-climb(dem, c, d)) == -rnd(climb(dem, c, d)));
    negation_is_exact(q);
    assert(p.rank() <= q.rank() && q.neg().rank() <= p.rank());
    values_are_in_order(p, q);
    values_are_in_order(q.neg(), p);
    let (v, w, l) = (value(p), value(q), value(s));
    assert(-(w / l) <= v / l <= w / l) by (nonlinear_arith)
        requires
            l >= 1real,
            -w <= v <= w,
    ;
    assert(rnd(-(w / l)) == -rnd(w / l));
    negation_is_exact(h);
    assert(g.rank() <= h.rank() && h.neg().rank() <= g.rank());
    values_are_in_order(g, h);
    values_are_in_order(h.neg(), g);
    assert(off_fastest(g) <= off_fastest(h));
    lemma_speed_falls(m, rnd, g, h);
    lemma_speed(m, rnd, g);
    lemma_speed(m, rnd, h);
    lemma_costs_grow(m, rnd, s, t, speed_of(m, g), speed_of(m, h), mult, mult);
}

/// What a way costs grows with its length and its factor, and falls with the
/// speed.
proof fn lemma_costs_grow<M: Math>(
    m: &M,
    rnd: spec_fn(real) -> int,
    near: Single,
    far: Single,
    fast: Single,
    slow: Single,
    easy: Single,
    hard: Single,
)
    requires
        rounds(m, rnd),
        near.finite() && far.finite() && fast.finite() && slow.finite(),
        easy.finite() && hard.finite(),
        1real <= value(near) <= value(far) <= 1_000_000real,
        1real / 200real <= value(slow) <= value(fast),
        0real <= value(easy) <= value(hard) <= 1000real,
    ensures
        times(m, over(m, near, fast), easy).at_most(times(m, over(m, far, slow), hard)),
{
    zero_is_nothing();
    two_to_the_31st();
    let (x, y) = (over(m, near, fast), over(m, far, slow));
    quotients_grow(m, rnd, near, far, fast, slow);
    let top = Single { bits: 0x4f00_0000 };
    let zero = Single { bits: 0 };
    let (a, b, c, d) = (value(near), value(fast), value(far), value(slow));
    assert(0real <= a / b <= 2_147_483_648real && 0real <= c / d <= 2_147_483_648real)
        by (nonlinear_arith)
        requires
            1real <= a <= 1_000_000real,
            1real <= c <= 1_000_000real,
            1real / 200real <= b,
            1real / 200real <= d,
    ;
    rounding_stays_between(m, rnd, x, a / b, zero, top);
    rounding_stays_between(m, rnd, y, c / d, zero, top);
    values_are_in_order(x, y);
    let (p, q) = (value(x), value(y));
    let (e, h) = (value(easy), value(hard));
    assert(p * e <= q * h) by (nonlinear_arith)
        requires
            0real <= p <= q,
            0real <= e <= h,
    ;
    rounding_keeps_order(m, rnd, times(m, x, easy), p * e, times(m, y, hard), q * h);
}

/// A way takes no less time on a harder path.
pub proof fn harder_paths_take_longer<M: Math>(
    m: &M,
    rnd: spec_fn(real) -> int,
    dem: &Dem,
    a: CellIdx,
    b: CellIdx,
    easy: SacClass,
    hard: SacClass,
)
    requires
        rounds(m, rnd),
        exp_grows(m),
        is_way(m, dem, a, b),
        level_of(easy) <= level_of(hard),
    ensures
        (edge_cost(m, dem, a, b, easy.cost_multiplier())->0).at_most(
            edge_cost(m, dem, a, b, hard.cost_multiplier())->0,
        ),
        value(easy.cost_multiplier()) == value(hard.cost_multiplier()) ==> easy == hard,
        1real <= value(easy.cost_multiplier()) <= 3real,
{
    lemma_hike_numbers();
    lemma_grade(m, rnd, dem, a, b);
    let g = grade_of(m, dem, a, b);
    lemma_speed(m, rnd, g);
    lemma_factors();
    let d = dem.distance_m(m, a, b);
    lemma_costs_grow(
        m,
        rnd,
        d,
        d,
        speed_of(m, g),
        speed_of(m, g),
        easy.cost_multiplier(),
        hard.cost_multiplier(),
    );
}

/// How hard a path is, from 1 to 5.
pub open spec fn level_of(class: SacClass) -> int {
    match class {
        SacClass::T1 => 1,
        SacClass::T2 => 2,
        SacClass::T3 => 3,
        SacClass::T4 => 4,
        SacClass::T5 => 5,
    }
}

proof fn lemma_factors()
    ensures
        forall|c: SacClass| (#[trigger] c.cost_multiplier()).finite(),
        value(SacClass::T1.cost_multiplier()) == 1real,
        119_999real / 100_000real <= value(SacClass::T2.cost_multiplier()) <= 120_001real
            / 100_000real,
        value(SacClass::T3.cost_multiplier()) == 3real / 2real,
        value(SacClass::T4.cost_multiplier()) == 2real,
        value(SacClass::T5.cost_multiplier()) == 3real,
{
    lemma2_to64();
    powers_of_two();
    digits_bound_the_value(
        Single { bits: 0x3f99_999a },
        127,
        0x99_999a,
        0x80_0000,
        119_999real / 100_000real,
        120_001real / 100_000real,
    );
    digits_bound_the_value(
        Single { bits: 0x3fc0_0000 },
        127,
        0xc0_0000,
        0x80_0000,
        3real / 2real,
        3real / 2real,
    );
    digits_bound_the_value(Single { bits: 0x4040_0000 }, 128, 0xc0_0000, 0x40_0000, 3real, 3real);
}

/// A way takes as long as its length takes at the walking speed, times the factor
/// of the path: `kmh` is the speed, `ms` 3.6 times less, `level` the seconds that
/// the length takes at it and `seconds` the product, wherever these are numbers.
pub proof fn ways_take_their_length_by_the_speed<M: Math>(
    m: &M,
    rnd: spec_fn(real) -> int,
    dem: &Dem,
    a: CellIdx,
    b: CellIdx,
    mult: Single,
    height: Single,
    grade: Single,
    mh: Single,
    ms: Single,
    level: Single,
    seconds: Single,
)
    requires
        rounds(m, rnd),
        exp_grows(m),
        is_way(m, dem, a, b),
        height.finite() && value(height) == climb(dem, a, b),
        mult.finite() && grade.finite() && mh.finite() && ms.finite() && level.finite()
            && seconds.finite(),
        value(grade) * value(dem.distance_m(m, a, b)) == climb(dem, a, b),
        value(grade) != 0real,
        value(tobler_speed_kmh(m, grade)) >= 1real / 10real,
        value(mh) == 1000real * value(tobler_speed_kmh(m, grade)),
        value(ms) * 36real == 10real * value(tobler_speed_kmh(m, grade)),
        value(level) * value(ms) == value(dem.distance_m(m, a, b)),
        value(seconds) == value(level) * value(mult),
    ensures
        edge_cost(m, dem, a, b, mult) is Some,
        value(edge_cost(m, dem, a, b, mult)->0) == value(seconds),
{
    lemma_hike_numbers();
    zero_is_nothing();
    lemma_grade(m, rnd, dem, a, b);
    let dz = minus(m, dem.at(b.row as int, b.col as int), dem.at(a.row as int, a.col as int));
    rounding_keeps_sides(m, rnd, dz, value(height), height);
    let g = grade_of(m, dem, a, b);
    let d = dem.distance_m(m, a, b);
    lemma_exact_grade(m, rnd, dem, a, b, grade, dz);
    assert(g == grade);
    no_grade_is_walked_faster(m, rnd, g);
    let slow = Single { bits: 0x3d4c_cccd };
    let kmh = tobler_speed_kmh(m, g);
    values_are_in_order(kmh, slow);
    assert(kmh.max(slow) == kmh);
    let x = times(m, kmh, Single { bits: 0x447a_0000 });
    assert(value(kmh) * 1000real == value(mh));
    rounding_keeps_sides(m, rnd, x, value(mh), mh);
    let y = speed_of(m, g);
    assert(value(x) / 3600real == value(ms));
    rounding_keeps_sides(m, rnd, y, value(ms), ms);
    let z = over(m, d, y);
    let (l, v, t) = (value(d), value(y), value(level));
    assert(l / v == t) by (nonlinear_arith)
        requires
            t * v == l,
            v > 0real,
    ;
    rounding_keeps_sides(m, rnd, z, t, level);
    let w = times(m, z, mult);
    rounding_keeps_sides(m, rnd, w, value(seconds), seconds);
}

proof fn lemma_exact_grade<M: Math>(
    m: &M,
    rnd: spec_fn(real) -> int,
    dem: &Dem,
    a: CellIdx,
    b: CellIdx,
    grade: Single,
    dz: Single,
)
    requires
        rounds(m, rnd),
        is_way(m, dem, a, b),
        grade.finite(),
        dz == minus(m, dem.at(b.row as int, b.col as int), dem.at(a.row as int, a.col as int)),
        dz.finite(),
        value(dz) == climb(dem, a, b),
        value(grade) * value(dem.distance_m(m, a, b)) == climb(dem, a, b),
        value(grade) != 0real,
    ensures
        grade_of(m, dem, a, b) == grade,
{
    zero_is_nothing();
    let g = grade_of(m, dem, a, b);
    let (v, l, q) = (value(dz), value(dem.distance_m(m, a, b)), value(grade));
    assert(v / l == q) by (nonlinear_arith)
        requires
            q * l == v,
            l >= 1real,
    ;
    rounding_keeps_sides(m, rnd, g, q, grade);
    values_are_in_order(g, grade);
    values_are_in_order(grade, Single { bits: 0 });
}

/// A thousand and a thousandth as bit patterns.
pub proof fn milliseconds_and_millimeters()
    ensures
        (Single { bits: 0x447a_0000 }).finite(),
        value(Single { bits: 0x447a_0000 }) == 1000real,
        (Single { bits: 0x3a83_126f }).finite(),
        9real / 10_000real <= value(Single { bits: 0x3a83_126f }) <= 1001real / 1_000_000real,
{
    lemma2_to64();
    lemma2_to64_rest();
    digits_bound_the_value(Single { bits: 0x447a_0000 }, 136, 0xfa_0000, 0x4000, 1000real, 1000real);
    digits_bound_the_value(
        Single { bits: 0x3a83_126f },
        117,
        0x83_126f,
        0x2_0000_0000,
        9real / 10_000real,
        1001real / 1_000_000real,
    );
}

/// A cost is queued as its whole milliseconds, negated, and read back within a
/// millisecond.
pub proof fn milliseconds_read_back<M: Math>(
    m: &M,
    rnd: spec_fn(real) -> int,
    cost: Single,
    whole: int,
    c: Single,
) -> (ms: int)
    requires
        rounds(m, rnd),
        truncates(m),
        cost.finite() && c.finite(),
        0real <= value(cost) <= 16_000real,
        whole as real <= 1000real * value(cost) < (whole as real) + 1real,
    ensures
        ms == to_int(m, times(m, cost, Single { bits: 0x447a_0000 })),
        whole <= ms <= whole + 1,
        1000real * value(c) <= 1000real * value(cost) - 1real ==> c.at_most(
            queued_cost(m, (-ms) as i128),
        ),
        1000real * value(cost) + 1real <= 1000real * value(c) ==> queued_cost(
            m,
            (-ms) as i128,
        ).at_most(c),
{
    milliseconds_and_millimeters();
    let k = Single { bits: 0x447a_0000 };
    let lo = whole_numbers_are_exact(m, rnd, whole);
    let hi = whole_numbers_are_exact(m, rnd, whole + 1);
    let x = times(m, cost, k);
    assert(value(cost) * value(k) == 1000real * value(cost));
    rounding_stays_between(m, rnd, x, value(cost) * value(k), lo, hi);
    let i = to_int(m, x);
    assert(whole <= i <= whole + 1);
    let n = single(m, i);
    let q = queued_cost(m, (-i) as i128);
    assert(q == over(m, n, k));
    rounding_keeps_sides(m, rnd, q, value(n) / value(k), c);
    i as int
}

/// Costs are queued within a millisecond of what they are.
pub proof fn queued_costs_are_close<M: Math>(
    m: &M,
    rnd: spec_fn(real) -> int,
    dem: &Dem,
    p: &HikeParams,
    cost: Single,
    whole: int,
    c: Single,
)
    requires
        rounds(m, rnd),
        truncates(m),
        cost.finite() && c.finite(),
        0real <= value(cost) <= 16_000real,
        whole as real <= 1000real * value(cost) < (whole as real) + 1real,
    ensures
        1000real * value(c) <= 1000real * value(cost) - 1real ==> c.at_most(
            queued_cost(m, (hike_rules(m, dem, p).key_of)(cost)),
        ),
        1000real * value(cost) + 1real <= 1000real * value(c) ==> queued_cost(
            m,
            (hike_rules(m, dem, p).key_of)(cost),
        ).at_most(c),
{
    let ms = milliseconds_read_back(m, rnd, cost, whole, c);
    assert((hike_rules(m, dem, p).key_of)(cost) == -ms);
}

/// An entry is out of date once its cell is reached faster than it by more than a
/// millisecond and a rounding, and not while that is nine tenths of one at most.
pub proof fn hike_entries_go_out_of_date<M: Math>(
    m: &M,
    rnd: spec_fn(real) -> int,
    dem: &Dem,
    p: &HikeParams,
    cost: Single,
    key: i128,
    least: Single,
)
    requires
        rounds(m, rnd),
        cost.finite() && least.finite() && queued_cost(m, key).finite(),
    ensures
        1_000_000real * value(least) >= 1_000_000real * value(cost) + 1001real && value(least)
            < value(queued_cost(m, key)) ==> (hike_rules(m, dem, p).stale)(cost, key),
        10_000real * value(least) <= 10_000real * value(cost) + 9real && value(queued_cost(m, key))
            <= value(least) ==> !(hike_rules(m, dem, p).stale)(cost, key),
{
    milliseconds_and_millimeters();
    let c = Single { bits: 0x3a83_126f };
    let q = queued_cost(m, key);
    let sum = plus(m, cost, c);
    rounding_keeps_sides(m, rnd, sum, value(cost) + value(c), least);
    values_are_in_order(least, q);
    values_are_in_order(q, least);
}

/// A cost replaces another if it is lower by more than a millisecond and a
/// rounding, and not if it is lower by nine tenths of one at most.
pub proof fn hike_tolerances_are_small<M: Math>(
    m: &M,
    rnd: spec_fn(real) -> int,
    dem: &Dem,
    p: &HikeParams,
    new: Single,
    prev: Single,
    least: Single,
)
    requires
        rounds(m, rnd),
        new.finite() && prev.finite() && least.finite(),
    ensures
        1_000_000real * value(least) >= 1_000_000real * value(new) + 1001real && value(least)
            < value(prev) ==> (hike_rules(m, dem, p).improves)(new, prev),
        10_000real * value(least) <= 10_000real * value(new) + 9real && value(prev) <= value(least)
            ==> !(hike_rules(m, dem, p).improves)(new, prev),
{
    milliseconds_and_millimeters();
    let c = Single { bits: 0x3a83_126f };
    let sum = plus(m, new, c);
    rounding_keeps_sides(m, rnd, sum, value(new) + value(c), least);
    values_are_in_order(least, prev);
    values_are_in_order(prev, least);
}

/// Nobody walks on past the longest hike, and no step leads past it.
pub proof fn hikes_end_at_the_limit<M: Math>(
    m: &M,
    rnd: spec_fn(real) -> int,
    dem: &Dem,
    p: &HikeParams,
    u: int,
    k: int,
    key: i128,
)
    requires
        rounds(m, rnd),
        p.max_cost_seconds.finite(),
        queued_cost(m, key).finite(),
    ensures
        value(p.max_cost_seconds) < value(queued_cost(m, key)) ==> walk_on(m, dem, p, u, k, key)
            is None,
        walk_on(m, dem, p, u, k, key) matches Some((v, cost)) ==> {
            &&& cost.finite() ==> value(cost) <= value(p.max_cost_seconds)
            &&& dem.moved(u, ring_row(k), ring_col(k)) == Some(v)
            &&& exists|edge: Single|
                #[trigger] edge_cost(
                    m,
                    dem,
                    dem.cell_of(u),
                    dem.cell_of(v),
                    p.default_sac.cost_multiplier(),
                ) == Some(edge) && cost == plus(m, queued_cost(m, key), edge)
        },
{
    let cur = queued_cost(m, key);
    values_are_in_order(p.max_cost_seconds, cur);
    if let Some((v, cost)) = walk_on(m, dem, p, u, k, key) {
        if cost.finite() {
            values_are_in_order(p.max_cost_seconds, cost);
        }
        let edge = edge_cost(
            m,
            dem,
            dem.cell_of(u),
            dem.cell_of(v),
            p.default_sac.cost_multiplier(),
        )->0;
        assert(cost == plus(m, cur, edge));
    }
}

} // verus!
