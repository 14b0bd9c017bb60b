//! Single-source glide-reachability flood.
//!
//! Given a launch (cell, altitude) and a glider model (still-air glide ratio,
//! safety buffer above terrain), compute for every reachable ground cell the
//! maximum altitude MSL we can be at when overflying it. Cells where that
//! altitude would fall below `terrain + safety_buffer_m` are unreachable.
//!
//! To glide from one cell to the next at horizontal distance `d` costs
//! `d / glide_ratio` meters of altitude. Altitudes move through the grid as
//! labels through a network, highest altitude first.

use crate::dem::{lemma_flat_in_range, Dem};
use crate::exact::{
    digits_bound_the_value, negation_is_exact, powers_of_two, products_grow, quotients_grow,
    roots_keep_sides, rounding_keeps_order, rounding_keeps_sides, rounding_stays_between, rounds,
    stands_for, truncates, sums_stay_within, two_to_the_31st, value, values_are_in_order,
    whole_numbers_are_exact, zero_is_nothing,
};
use crate::exact_wide::{
    converts, holds, rounds_d, wide_whole_arithmetic_is_exact, wide_whole_numbers_are_exact,
};
use crate::frontier::{
    attained, better, current, earned, is_run, nodes, offer_settled, propagate, queue_seeded,
    queued, route, settled, step, wins, Network, Rules, Standing,
};
use crate::geom::{turns_in_degrees, CellIdx, HALF, HALF_TURN};
use crate::heap::{Entry, MaxHeap};
use crate::launch::Launch;
use crate::hike::milliseconds_and_millimeters;
use crate::math::{
    atan2, cos, double, minus, monotone, over, plus, radians, single, sqrt, steady, times, times_d,
    to_i32, to_int, widen, Math,
};
use crate::scalar::{Double, Single, CENTI, MILLI, ONE, SQRT_2, TEN, TENTH, THOUSAND};
use crate::wind::Wind;
use vstd::arithmetic::power2::lemma2_to64;
use vstd::multiset::Multiset;
use vstd::prelude::*;

verus! {

#[derive(Debug, Clone, Copy)]
pub struct GlideParams {
    /// Still-air glide ratio (e.g., 8.0 for an EN-A/B at trim).
    pub glide_ratio: Single,
    /// Minimum AGL clearance to call a cell reachable, ENROUTE (meters).
    pub safety_buffer_m: Single,
    /// AGL we already have once airborne. Steep slopes drop away fast at
    /// takeoff so this is what lets the first dozen meters of glide actually
    /// build clearance before the enroute buffer applies.
    pub takeoff_initial_agl_m: Single,
    /// Best-glide airspeed (m/s). Typical paraglider trim ~10 m/s. Sink rate
    /// is derived as `airspeed / glide_ratio` so that still-air ground glide
    /// ratio equals `glide_ratio`.
    pub airspeed_ms: Single,
    /// Wind affecting the glide path. None = still air.
    pub wind: Option<Wind>,
}

/// 8.
pub const DEFAULT_GLIDE_RATIO: u32 = 0x4100_0000;

/// 15.
pub const DEFAULT_SAFETY_BUFFER: u32 = 0x4170_0000;

/// 3.6, the factor from m/s to km/h.
pub const KMH_PER_MS: u32 = 0x4066_6666;

impl Default for GlideParams {
    fn default() -> (r: Self)
        ensures
            r.glide_ratio.bits == DEFAULT_GLIDE_RATIO,
            r.safety_buffer_m.bits == DEFAULT_SAFETY_BUFFER,
            r.takeoff_initial_agl_m.bits == TEN,
            r.airspeed_ms.bits == TEN,
            r.wind is None,
    {
        GlideParams {
            glide_ratio: Single { bits: DEFAULT_GLIDE_RATIO },
            safety_buffer_m: Single { bits: DEFAULT_SAFETY_BUFFER },
            takeoff_initial_agl_m: Single { bits: TEN },
            airspeed_ms: Single { bits: TEN },
            wind: None,
        }
    }
}

#[derive(Debug)]
pub struct FloodResult {
    /// Max MSL altitude reachable per cell (NaN = unreached). Same shape as DEM.
    pub max_alt_msl: Vec<Single>,
    /// Distance of the furthest reached cell (cell-grid Euclidean).
    pub max_distance_m: Single,
    /// Cell at the maximum-distance position from launch (None if nothing reached).
    pub farthest_cell: Option<CellIdx>,
    /// Number of reached cells (excluding launch).
    pub reachable_cells: u32,
    /// Total reachable area in m^2.
    pub area_m2: Double,
}

/// Lightweight result without the per-cell altitude grid.
#[derive(Debug)]
pub struct FloodSummary {
    pub max_distance_m: Single,
    pub farthest_cell: Option<CellIdx>,
    pub reachable_cells: u32,
    pub area_m2: Double,
}

/// Row step of the eight directions.
pub open spec fn dir_row(k: int) -> int {
    if k == 0 || k == 4 || k == 5 {
        -1
    } else if k == 2 || k == 3 {
        0
    } else {
        1
    }
}

/// Column step of the eight directions.
pub open spec fn dir_col(k: int) -> int {
    if k == 2 || k == 4 || k == 6 {
        -1
    } else if k == 0 || k == 1 {
        0
    } else {
        1
    }
}

/// Length of a step in the eight directions, in cells.
pub open spec fn dir_len(k: int) -> Single {
    if k < 4 {
        Single { bits: ONE }
    } else {
        Single { bits: SQRT_2 }
    }
}

fn direction(k: usize) -> (r: (i32, i32, Single))
    requires
        k < 8,
    ensures
        r.0 == dir_row(k as int),
        r.1 == dir_col(k as int),
        r.2 == dir_len(k as int),
{
    let dr: i32 = if k == 0 || k == 4 || k == 5 {
        -1
    } else if k == 2 || k == 3 {
        0
    } else {
        1
    };
    let dc: i32 = if k == 2 || k == 4 || k == 6 {
        -1
    } else if k == 0 || k == 1 {
        0
    } else {
        1
    };
    let len = if k < 4 {
        Single { bits: ONE }
    } else {
        Single { bits: SQRT_2 }
    };
    (dr, dc, len)
}

/// Sink rate in m/s: airspeed by still-air glide ratio.
pub open spec fn sink_ms<M: Math>(m: &M, p: &GlideParams) -> Single {
    over(m, p.airspeed_ms, p.glide_ratio.max(Single { bits: TENTH })).max(Single { bits: CENTI })
}

/// Direction that the wind blows to, in radians, and its speed in m/s.
pub open spec fn wind_vector<M: Math>(m: &M, p: &GlideParams) -> (Single, Single) {
    match p.wind {
        Some(w) => if (Single { bits: 0 }).below(w.speed_kmh) {
            (
                radians(m, plus(m, w.from_deg, Single { bits: HALF_TURN })),
                over(m, w.speed_kmh, Single { bits: KMH_PER_MS }),
            )
        } else {
            (Single { bits: 0 }, Single { bits: 0 })
        },
        None => (Single { bits: 0 }, Single { bits: 0 }),
    }
}

/// Ground glide ratio in direction `k`: ground speed by sink rate, where
/// tailwind adds to the ground speed. NaN where the headwind leaves less than
/// half a meter per second.
pub open spec fn effective_ratio<M: Math>(m: &M, p: &GlideParams, k: int) -> Single {
    let (wind_to, wind_speed) = wind_vector(m, p);
    let heading = atan2(
        m,
        single(m, dir_col(k) as i128),
        single(m, dir_row(k) as i128).neg(),
    );
    let tailwind = if (Single { bits: 0 }).below(wind_speed) {
        times(m, wind_speed, cos(m, minus(m, heading, wind_to)))
    } else {
        Single { bits: 0 }
    };
    let ground_speed = plus(m, p.airspeed_ms, tailwind);
    if ground_speed.below(Single { bits: HALF }) {
        Single { bits: 0x7fc0_0000 }
    } else {
        over(m, ground_speed, sink_ms(m, p))
    }
}

/// The ground glide ratio of each direction.
fn effective_ratios<M: Math>(m: &M, p: &GlideParams) -> (r: Vec<Single>)
    requires
        steady(m),
    ensures
        r@.len() == 8,
        forall|k: int| 0 <= k < 8 ==> #[trigger] r@[k] == effective_ratio(m, p, k),
{
    let sink = over(m, p.airspeed_ms, p.glide_ratio.max(Single { bits: TENTH })).max(
        Single { bits: CENTI },
    );
    let zero = Single::zero();
    let (wind_to, wind_speed) = match p.wind {
        Some(w) => if zero.lt(&w.speed_kmh) {
            (
                radians(m, plus(m, w.from_deg, Single { bits: HALF_TURN })),
                over(m, w.speed_kmh, Single { bits: KMH_PER_MS }),
            )
        } else {
            (zero, zero)
        },
        None => (zero, zero),
    };
    let mut ratios: Vec<Single> = Vec::new();
    let mut k: usize = 0;
    while k < 8
        invariant
            steady(m),
            k <= 8,
            zero.bits == 0,
            sink == sink_ms(m, p),
            (wind_to, wind_speed) == wind_vector(m, p),
            ratios@.len() == k,
            forall|j: int| 0 <= j < k ==> #[trigger] ratios@[j] == effective_ratio(m, p, j),
        decreases 8 - k,
    {
        let (dr, dc, _) = direction(k);
        let heading = atan2(m, single(m, dc as i128), single(m, dr as i128).neg());
        let tailwind = if zero.lt(&wind_speed) {
            times(m, wind_speed, cos(m, minus(m, heading, wind_to)))
        } else {
            zero
        };
        let ground_speed = plus(m, p.airspeed_ms, tailwind);
        let ratio = if ground_speed.lt(&Single { bits: HALF }) {
            Single::missing()
        } else {
            over(m, ground_speed, sink)
        };
        ratios.push(ratio);
        k = k + 1;
    }
    ratios
}

/// Altitude in meters of an altitude queued in millimeters.
pub open spec fn queued_alt<M: Math>(m: &M, alt_mm: i128) -> Single {
    over(m, single(m, alt_mm), Single { bits: THOUSAND })
}

/// What gliding on in direction `k` from position `u` at a queued altitude
/// leads to: the next cell and the altitude there. `None` where the headwind is
/// too strong, off the raster, over missing terrain, and where the altitude
/// falls below the safety buffer.
pub open spec fn glide_on<M: Math>(
    m: &M,
    dem: &Dem,
    p: &GlideParams,
    u: int,
    k: int,
    alt_mm: i128,
) -> Option<(int, Single)> {
    let ratio = effective_ratio(m, p, k);
    match dem.moved(u, dir_row(k), dir_col(k)) {
        Some(v) => {
            let terrain = dem.data@[v];
            let lost = over(m, times(m, dem.cell_size_m, dir_len(k)), ratio);
            let alt = minus(m, queued_alt(m, alt_mm), lost);
            if !ratio.finite() || !terrain.finite() || minus(m, alt, terrain).below(
                p.safety_buffer_m,
            ) {
                None
            } else {
                Some((v, alt))
            }
        },
        None => None,
    }
}

/// How altitudes move over the terrain. An altitude is queued in whole
/// millimeters; an entry is out of date when its cell has since been reached
/// more than a millimeter higher; an altitude improves on another when it is
/// more than a centimeter higher.
pub open spec fn glide_rules<M: Math>(m: &M, dem: &Dem, p: &GlideParams) -> Rules {
    Rules {
        size: dem.data@.len(),
        degree: |u: int| 8nat,
        rises: true,
        key_of: |alt: Single|
            to_i32(to_int(m, times(m, alt, Single { bits: THOUSAND }))) as i128,
        stale: |alt: Single, alt_mm: i128|
            plus(m, queued_alt(m, alt_mm), Single { bits: MILLI }).below(alt),
        offer: |u: int, k: int, alt_mm: i128| glide_on(m, dem, p, u, k, alt_mm),
        open: |alt: Single| true,
        improves: |new: Single, prev: Single|
            plus(m, prev, Single { bits: CENTI }).below(new),
    }
}

struct Glide<'a, M: Math> {
    m: &'a M,
    dem: &'a Dem,
    p: &'a GlideParams,
    ratios: Vec<Single>,
}

impl<'a, M: Math> Network for Glide<'a, M> {
    closed spec fn rules(&self) -> Rules {
        glide_rules(self.m, self.dem, self.p)
    }

    closed spec fn valid(&self) -> bool {
        &&& steady(self.m)
        &&& self.dem.wf()
        &&& self.ratios@.len() == 8
        &&& forall|k: int|
            0 <= k < 8 ==> #[trigger] self.ratios@[k] == effective_ratio(self.m, self.p, k)
    }

    proof fn offer_in_range(&self, u: int, k: int, key: i128) {
        if let Some(v) = self.dem.moved(u, dir_row(k), dir_col(k)) {
            lemma_flat_in_range(
                self.dem.rows as int,
                self.dem.cols as int,
                u / self.dem.cols as int + dir_row(k),
                u % self.dem.cols as int + dir_col(k),
            );
        }
    }

    fn degree(&self, u: usize) -> (r: usize) {
        8
    }

    fn rises(&self) -> (r: bool) {
        true
    }

    fn key_of(&self, label: Single) -> (r: i128) {
        to_i32(to_int(self.m, times(self.m, label, Single { bits: THOUSAND }))) as i128
    }

    fn is_stale(&self, label: Single, key: i128) -> (r: bool) {
        let cur = over(self.m, single(self.m, key), Single { bits: THOUSAND });
        plus(self.m, cur, Single { bits: MILLI }).lt(&label)
    }

    fn offer(&self, u: usize, k: usize, key: i128) -> (r: Option<(usize, Single)>) {
        let ratio = self.ratios[k];
        if !ratio.is_finite() {
            return None;
        }
        let (dr, dc, len) = direction(k);
        match self.dem.move_by(u, dr, dc) {
            Some(v) => {
                let terrain = self.dem.data[v];
                if !terrain.is_finite() {
                    return None;
                }
                let cur = over(self.m, single(self.m, key), Single { bits: THOUSAND });
                let lost = over(self.m, times(self.m, self.dem.cell_size_m, len), ratio);
                let alt = minus(self.m, cur, lost);
                if minus(self.m, alt, terrain).lt(&self.p.safety_buffer_m) {
                    return None;
                }
                Some((v, alt))
            },
            None => None,
        }
    }

    fn is_open(&self, label: Single) -> (r: bool) {
        true
    }

    fn improves(&self, new: Single, prev: Single) -> (r: bool) {
        plus(self.m, prev, Single { bits: CENTI }).lt(&new)
    }
}

/// Altitude just after takeoff.
pub open spec fn takeoff_alt<M: Math>(m: &M, launch: &Launch, p: &GlideParams) -> Single {
    plus(m, launch.altitude_m, p.takeoff_initial_agl_m)
}

/// The launch cell with the altitude just after takeoff.
pub open spec fn takeoff<M: Math>(
    m: &M,
    dem: &Dem,
    launch: &Launch,
    p: &GlideParams,
) -> Set<(int, Single)> {
    set![(dem.pos(launch.cell), takeoff_alt(m, launch, p))]
}

/// Whether the altitude at position `v` is what a glide leads to from a neighbor,
/// begun no higher than what the flood has at the neighbor, or with a takeoff
/// that is not finite.
pub open spec fn glided_to<M: Math>(
    m: &M,
    dem: &Dem,
    launch: &Launch,
    p: &GlideParams,
    alts: Seq<Single>,
    v: int,
) -> bool {
    exists|u: int, k: int, x: Single|
        0 <= u < alts.len() && 0 <= k < 8 && #[trigger] glide_on(
            m,
            dem,
            p,
            u,
            k,
            (glide_rules(m, dem, p).key_of)(x),
        ) == Some((v, alts[v])) && if u == dem.pos(launch.cell) && x == takeoff_alt(m, launch, p)
            && !x.finite() {
            true
        } else {
            x.finite() && alts[u].finite() && x.at_most(alts[u])
        }
}

/// The altitudes at the start: none but that just after takeoff.
pub open spec fn start_alts<M: Math>(
    m: &M,
    dem: &Dem,
    launch: &Launch,
    p: &GlideParams,
) -> Seq<Single> {
    Seq::new(dem.data@.len(), |u: int| Single { bits: 0x7fc0_0000 }).update(
        dem.pos(launch.cell),
        takeoff_alt(m, launch, p),
    )
}

/// Whether this is a flood from takeoff to its end: cell by cell, the highest
/// queued altitude first. Cells queued at the same millimeter may come in any
/// order.
pub open spec fn is_flood_run<M: Math>(
    m: &M,
    dem: &Dem,
    launch: &Launch,
    p: &GlideParams,
    run: Seq<Standing>,
) -> bool {
    let start = takeoff_alt(m, launch, p);
    &&& is_run(glide_rules(m, dem, p), run)
    &&& run[0].labels == start_alts(m, dem, launch, p)
    &&& run[0].queue == Multiset::empty().insert(
        Entry {
            key: (glide_rules(m, dem, p).key_of)(start),
            item: dem.pos(launch.cell) as usize,
        },
    )
}

/// Whether these are altitudes of a flood from `launch`: every one is earned by
/// a glide, cell by cell, from the launch; that of the launch is no lower than
/// the takeoff; every other one comes from an altitude no higher than the one
/// that the flood has at a neighbor; from every one the glide on to each neighbor
/// leads to nothing better than what the flood has there; cells that were not
/// reached hold NaN; and a flood from takeoff to its end leads to them.
pub open spec fn is_flood<M: Math>(
    m: &M,
    dem: &Dem,
    launch: &Launch,
    p: &GlideParams,
    alts: Seq<Single>,
) -> bool {
    &&& alts.len() == dem.data@.len()
    &&& takeoff_alt(m, launch, p).finite() ==> alts[dem.pos(launch.cell)].finite() && takeoff_alt(
        m,
        launch,
        p,
    ).at_most(alts[dem.pos(launch.cell)])
    &&& forall|u: int|
        0 <= u < alts.len() && (#[trigger] alts[u]).finite() ==> earned(
            glide_rules(m, dem, p),
            takeoff(m, dem, launch, p),
            u,
            alts[u],
        ) && settled(glide_rules(m, dem, p), alts, u) && (u == dem.pos(launch.cell) && alts[u]
            == takeoff_alt(m, launch, p) || glided_to(m, dem, launch, p, alts, u))
    &&& forall|u: int|
        0 <= u < alts.len() && !(#[trigger] alts[u]).finite() ==> alts[u].bits == 0x7fc0_0000 || (u
            == dem.pos(launch.cell) && alts[u] == takeoff_alt(m, launch, p))
    &&& exists|run: Seq<Standing>| #[trigger]
        is_flood_run(m, dem, launch, p, run) && run.last().labels == alts
}

/// Whether the flood reached position `u` from elsewhere.
pub open spec fn reached<M: Math>(
    m: &M,
    dem: &Dem,
    launch: &Launch,
    p: &GlideParams,
    alts: Seq<Single>,
    u: int,
) -> bool {
    alts[u].finite() && !(u == dem.pos(launch.cell) && takeoff_alt(m, launch, p).finite())
}

/// Number of the first `n` positions that the flood reached.
pub open spec fn count_reached<M: Math>(
    m: &M,
    dem: &Dem,
    launch: &Launch,
    p: &GlideParams,
    alts: Seq<Single>,
    n: int,
) -> nat
    decreases n,
{
    if n <= 0 {
        0
    } else {
        count_reached(m, dem, launch, p, alts, n - 1) + if reached(
            m,
            dem,
            launch,
            p,
            alts,
            n - 1,
        ) {
            1nat
        } else {
            0nat
        }
    }
}

/// Distance of position `u` from the launch, in meters.
pub open spec fn distance_from<M: Math>(m: &M, dem: &Dem, launch: &Launch, u: int) -> Single {
    let cell = dem.cell_of(u);
    let dr = single(m, (cell.row - launch.cell.row) as i128);
    let dc = single(m, (cell.col - launch.cell.col) as i128);
    times(m, sqrt(m, plus(m, times(m, dr, dr), times(m, dc, dc))), dem.cell_size_m)
}

/// The greatest distance of some cells, reached in this order, and the cell: the
/// first one that is farther than all before it.
pub open spec fn farthest_of<M: Math>(m: &M, dem: &Dem, launch: &Launch, order: Seq<int>) -> (
    Single,
    Option<CellIdx>,
)
    decreases order.len(),
{
    if order.len() == 0 {
        (Single { bits: 0 }, None)
    } else {
        let before = farthest_of(m, dem, launch, order.drop_last());
        let d = distance_from(m, dem, launch, order.last());
        if before.0.below(d) {
            (d, Some(dem.cell_of(order.last())))
        } else {
            before
        }
    }
}

/// Whether a summary describes the flood with these altitudes, which reached its
/// cells in this order. The farthest cell is the first of the reached cells at
/// the greatest distance.
pub open spec fn is_summary<M: Math>(
    m: &M,
    dem: &Dem,
    launch: &Launch,
    p: &GlideParams,
    alts: Seq<Single>,
    order: Seq<int>,
    s: FloodSummary,
) -> bool {
    &&& s.reachable_cells == count_reached(m, dem, launch, p, alts, dem.data@.len() as int)
    &&& s.area_m2 == times_d(m, double(m, s.reachable_cells as i128), dem.area_m2(m))
    &&& (s.max_distance_m, s.farthest_cell) == farthest_of(m, dem, launch, order)
    &&& forall|u: int|
        0 <= u < dem.data@.len() && #[trigger] reached(m, dem, launch, p, alts, u)
            ==> !s.max_distance_m.below(distance_from(m, dem, launch, u))
    &&& match s.farthest_cell {
        Some(c) => {
            &&& dem.has_cell(c)
            &&& reached(m, dem, launch, p, alts, dem.pos(c))
            &&& s.max_distance_m == distance_from(m, dem, launch, dem.pos(c))
            &&& (Single { bits: 0 }).below(s.max_distance_m)
        },
        None => s.max_distance_m.bits == 0,
    }
}

impl FloodResult {
    /// The result without the altitudes.
    pub open spec fn summary(self) -> FloodSummary {
        FloodSummary {
            max_distance_m: self.max_distance_m,
            farthest_cell: self.farthest_cell,
            reachable_cells: self.reachable_cells,
            area_m2: self.area_m2,
        }
    }
}

/// Runs the flood from `launch`.
pub fn flood<M: Math>(m: &M, dem: &Dem, launch: &Launch, p: &GlideParams) -> (r: FloodResult)
    requires
        steady(m),
        dem.wf(),
        dem.has_cell(launch.cell),
    ensures
        is_flood(m, dem, launch, p, r.max_alt_msl@),
        exists|run: Seq<Standing>| #[trigger]
            is_flood_run(m, dem, launch, p, run) && run.last().labels == r.max_alt_msl@
                && is_summary(
                m,
                dem,
                launch,
                p,
                r.max_alt_msl@,
                run.last().reached,
                r.summary(),
            ),
{
    let n: usize = dem.data.len();
    let mut alts: Vec<Single> = vec![Single::missing(); n];
    let start = plus(m, launch.altitude_m, p.takeoff_initial_agl_m);
    proof {
        lemma_flat_in_range(
            dem.rows as int,
            dem.cols as int,
            launch.cell.row as int,
            launch.cell.col as int,
        );
    }
    let li: usize = dem.idx(launch.cell.row, launch.cell.col);
    alts[li] = start;

    let net = Glide { m, dem, p, ratios: effective_ratios(m, p) };
    let ghost rules = glide_rules(m, dem, p);
    let ghost sources = takeoff(m, dem, launch, p);
    let mut queue: MaxHeap<usize> = MaxHeap::new();
    queue.push(net.key_of(start), li);
    proof {
        broadcast use vstd::multiset::group_multiset_axioms;

        let e = Entry { key: (rules.key_of)(start), item: li };
        assert(queue@.contains(e));
        let path = seq![(li as int, start)];
        assert(route(rules, sources, path));
        assert(path.last() == (li as int, start));
        assert(earned(rules, sources, li as int, start));
        assert forall|e2: Entry<usize>| #[trigger] queue@.contains(e2) implies e2 == e by {}
        assert(sources.contains((li as int, start)));
        assert(queue_seeded(rules, sources, queue@));
        assert forall|u: int| 0 <= u < n && (#[trigger] alts@[u]).finite() implies earned(
            rules,
            sources,
            u,
            alts@[u],
        ) && queued(rules, alts@, queue@, u) by {
            assert(u == li);
        }
    }
    let ghost alts0 = alts@;
    let ghost queue0 = queue@;
    let order = propagate(&net, &mut alts, &mut queue, Ghost(sources));
    let ghost run = choose|run: Seq<Standing>| #[trigger]
        is_run(rules, run) && run[0].labels == alts0 && run[0].queue == queue0
            && run.last().labels == alts@ && run.last().reached == nodes(order@);
    assert(alts0 =~= start_alts(m, dem, launch, p));
    assert(is_flood_run(m, dem, launch, p, run));
    assert forall|v: int| 0 <= v < n implies (reached(m, dem, launch, p, alts@, v)
        <==> nodes(order@).contains(v)) by {
        assert(alts@[v].finite() || !alts@[v].finite());
    }
    proof {
        if start.finite() {
            assert(alts0[li as int].finite());
            assert(alts@[li as int].finite());
        }
        assert forall|v: int| 0 <= v < n && (#[trigger] alts@[v]).finite() implies (v == li
            && alts@[v] == start || glided_to(m, dem, launch, p, alts@, v)) by {
            assert(attained(rules, sources, alts0, alts@, v));
            if alts@[v] != alts0[v] {
                let (u, k, x) = choose|u: int, k: int, x: Single|
                    0 <= u < rules.size && 0 <= k < (rules.degree)(u) && #[trigger] (rules.offer)(
                        u,
                        k,
                        (rules.key_of)(x),
                    ) == Some((v, alts@[v])) && current(rules, sources, alts@, u, x);
                assert(glide_on(m, dem, p, u, k, (glide_rules(m, dem, p).key_of)(x)) == Some(
                    (v, alts@[v]),
                ));
            }
        }
    }

    let mut reachable: u32 = 0;
    let mut u: usize = 0;
    while u < n
        invariant
            n == dem.data@.len(),
            n <= u32::MAX,
            alts@.len() == n,
            u <= n,
            li == dem.pos(launch.cell),
            start == takeoff_alt(m, launch, p),
            reachable == count_reached(m, dem, launch, p, alts@, u as int),
            reachable <= u,
        decreases n - u,
    {
        if alts[u].is_finite() && !(u == li && start.is_finite()) {
            assert(reached(m, dem, launch, p, alts@, u as int));
            reachable = reachable + 1;
        }
        u = u + 1;
    }

    let mut max_dist = Single::zero();
    let mut farthest: Option<CellIdx> = None;
    let mut i: usize = 0;
    let ghost places = nodes(order@);
    assert(places.take(0) =~= Seq::<int>::empty());
    while i < order.len()
        invariant
            steady(m),
            dem.wf(),
            n == dem.data@.len(),
            i <= order@.len(),
            places == nodes(order@),
            forall|j: int| 0 <= j < places.len() ==> 0 <= #[trigger] places[j] < n,
            forall|j: int|
                0 <= j < places.len() ==> reached(m, dem, launch, p, alts@, #[trigger] places[j]),
            (max_dist, farthest) == farthest_of(m, dem, launch, places.take(i as int)),
            forall|j: int|
                0 <= j < i ==> !max_dist.below(distance_from(m, dem, launch, #[trigger] places[j])),
            match farthest {
                Some(c) => {
                    &&& dem.has_cell(c)
                    &&& reached(m, dem, launch, p, alts@, dem.pos(c))
                    &&& max_dist == distance_from(m, dem, launch, dem.pos(c))
                    &&& (Single { bits: 0 }).below(max_dist)
                },
                None => max_dist.bits == 0,
            },
        decreases order@.len() - i,
    {
        let at: usize = order[i];
        assert(places[i as int] == at);
        assert(places.take(i + 1).drop_last() =~= places.take(i as int));
        assert(places.take(i + 1).last() == at);
        let cell = dem.cell_at(at);
        let dr = single(m, (cell.row as i64 - launch.cell.row as i64) as i128);
        let dc = single(m, (cell.col as i64 - launch.cell.col as i64) as i128);
        let d = times(m, sqrt(m, plus(m, times(m, dr, dr), times(m, dc, dc))), dem.cell_size_m);
        assert(d == distance_from(m, dem, launch, at as int));
        if max_dist.lt(&d) {
            max_dist = d;
            farthest = Some(cell);
        }
        i = i + 1;
    }
    proof {
        assert(places.take(i as int) =~= places);
        assert forall|v: int|
            0 <= v < n && #[trigger] reached(m, dem, launch, p, alts@, v) implies !max_dist.below(
            distance_from(m, dem, launch, v),
        ) by {
            let j = choose|j: int| 0 <= j < places.len() && places[j] == v;
            assert(!max_dist.below(distance_from(m, dem, launch, places[j])));
        }
    }

    FloodResult {
        max_alt_msl: alts,
        max_distance_m: max_dist,
        farthest_cell: farthest,
        reachable_cells: reachable,
        area_m2: times_d(m, double(m, reachable as i128), dem.area_m2(m)),
    }
}

/// Run a flood and return only the summary stats; the per-cell grid is
/// dropped before this returns.
pub fn flood_summary<M: Math>(
    m: &M,
    dem: &Dem,
    launch: &Launch,
    p: &GlideParams,
) -> (r: FloodSummary)
    requires
        steady(m),
        dem.wf(),
        dem.has_cell(launch.cell),
    ensures
        exists|run: Seq<Standing>| #[trigger]
            is_flood_run(m, dem, launch, p, run) && is_flood(
                m,
                dem,
                launch,
                p,
                run.last().labels,
            ) && is_summary(m, dem, launch, p, run.last().labels, run.last().reached, r),
{
    let f = flood(m, dem, launch, p);
    FloodSummary {
        max_distance_m: f.max_distance_m,
        farthest_cell: f.farthest_cell,
        reachable_cells: f.reachable_cells,
        area_m2: f.area_m2,
    }
}

/// Every cell that a flood reaches, other than the launch, has known terrain
/// with at least the safety buffer below.
pub proof fn reached_cells_clear_terrain<M: Math>(
    m: &M,
    dem: &Dem,
    launch: &Launch,
    p: &GlideParams,
    alts: Seq<Single>,
    u: int,
)
    requires
        dem.wf(),
        is_flood(m, dem, launch, p, alts),
        0 <= u < alts.len(),
        u != dem.pos(launch.cell),
        alts[u].finite(),
    ensures
        dem.data@[u].finite(),
        !minus(m, alts[u], dem.data@[u]).below(p.safety_buffer_m),
{
    let rules = glide_rules(m, dem, p);
    let sources = takeoff(m, dem, launch, p);
    let path = choose|path: Seq<(int, Single)>| #[trigger]
        route(rules, sources, path) && path.last() == (u, alts[u]);
    assert(path.len() >= 2);
    let i = path.len() - 2;
    assert(step(rules, path[i], path[i + 1]));
}

/// No glide from a cell to its neighbor ends more than a centimeter above the
/// altitude that the flood has at the neighbor, wherever the cell's own
/// altitude is known to the millimeter.
pub proof fn floods_are_highest<M: Math>(
    m: &M,
    dem: &Dem,
    launch: &Launch,
    p: &GlideParams,
    alts: Seq<Single>,
    u: int,
    k: int,
)
    requires
        monotone(m),
        is_flood(m, dem, launch, p, alts),
        0 <= u < alts.len(),
        0 <= k < 8,
        alts[u].finite(),
        !(glide_rules(m, dem, p).stale)(alts[u], (glide_rules(m, dem, p).key_of)(alts[u])),
    ensures
        match glide_on(m, dem, p, u, k, (glide_rules(m, dem, p).key_of)(alts[u])) {
            Some((v, alt)) => alt.finite() ==> alts[v].finite() && !plus(
                m,
                alts[v],
                Single { bits: CENTI },
            ).below(alt),
            None => true,
        },
{
    let rules = glide_rules(m, dem, p);
    assert(offer_settled(rules, alts, u, k));
    if let Some((v, alt)) = glide_on(m, dem, p, u, k, (rules.key_of)(alts[u])) {
        if alt.finite() {
            let x = choose|x: Single|
                (x == alts[v] || x.finite() && alts[v].finite() && better(rules.rises, alts[v], x))
                    && !#[trigger] wins(rules, alt, x);
            let c = Single { bits: CENTI };
            assert(x.at_most(alts[v]));
            assert(plus(m, x, c).at_most(plus(m, alts[v], c)));
        }
    }
}

/// Whether a glide with `q`, from no lower, goes on over every cell that a glide
/// with `p` goes on to, and ends no lower there. With the same parameters twice:
/// what rounding to millimeters and subtracting the same height keep.
pub open spec fn outglides<M: Math>(
    m: &M,
    dem: &Dem,
    p: &GlideParams,
    q: &GlideParams,
) -> bool {
    let key_of = glide_rules(m, dem, p).key_of;
    forall|u: int, k: int, x: Single, y: Single|
        #![trigger glide_on(m, dem, p, u, k, key_of(x)), glide_on(m, dem, q, u, k, key_of(y))]
        x.finite() && y.finite() && x.at_most(y) ==> match glide_on(m, dem, p, u, k, key_of(x)) {
            Some((_, low)) => low.finite() ==> match glide_on(m, dem, q, u, k, key_of(y)) {
                Some((_, high)) => high.finite() && low.at_most(high),
                None => false,
            },
            None => true,
        }
}

/// The altitude of every reached cell comes from a neighbor: the glide on from
/// the altitude that the flood has there leads to the cell, no lower.
pub proof fn altitudes_come_from_neighbors<M: Math>(
    m: &M,
    dem: &Dem,
    launch: &Launch,
    p: &GlideParams,
    alts: Seq<Single>,
    v: int,
) -> (from: (int, int))
    requires
        outglides(m, dem, p, p),
        takeoff_alt(m, launch, p).finite(),
        is_flood(m, dem, launch, p, alts),
        0 <= v < alts.len(),
        v != dem.pos(launch.cell),
        alts[v].finite(),
    ensures
        0 <= from.0 < alts.len(),
        0 <= from.1 < 8,
        alts[from.0].finite(),
        match glide_on(
            m,
            dem,
            p,
            from.0,
            from.1,
            (glide_rules(m, dem, p).key_of)(alts[from.0]),
        ) {
            Some((w, alt)) => w == v && alt.finite() && alts[v].at_most(alt),
            None => false,
        },
{
    let key_of = glide_rules(m, dem, p).key_of;
    assert(glided_to(m, dem, launch, p, alts, v));
    let (u, k, x) = choose|u: int, k: int, x: Single|
        0 <= u < alts.len() && 0 <= k < 8 && #[trigger] glide_on(m, dem, p, u, k, key_of(x)) == Some(
            (v, alts[v]),
        ) && if u == dem.pos(launch.cell) && x == takeoff_alt(m, launch, p) && !x.finite() {
            true
        } else {
            x.finite() && alts[u].finite() && x.at_most(alts[u])
        };
    assert(glide_on(m, dem, p, u, k, key_of(alts[u])) is Some);
    (u, k)
}

/// One step of a glide that gives away more than a centimeter: in some direction
/// it ends more than a centimeter below where the glide from `from` leads.
pub open spec fn cautious_step<M: Math>(
    m: &M,
    dem: &Dem,
    p: &GlideParams,
    from: (int, Single),
    to: (int, Single),
) -> bool {
    &&& to.1.finite()
    &&& exists|k: int|
        0 <= k < 8 && match #[trigger] glide_on(
            m,
            dem,
            p,
            from.0,
            k,
            (glide_rules(m, dem, p).key_of)(from.1),
        ) {
            Some((v, alt)) => v == to.0 && alt.finite() && plus(
                m,
                to.1,
                Single { bits: CENTI },
            ).below(alt),
            None => false,
        }
}

/// A glide from the launch, cell by cell, that gives away more than a centimeter
/// per cell.
pub open spec fn cautious_glide<M: Math>(
    m: &M,
    dem: &Dem,
    launch: &Launch,
    p: &GlideParams,
    path: Seq<(int, Single)>,
) -> bool {
    &&& path.len() > 0
    &&& path[0] == (dem.pos(launch.cell), takeoff_alt(m, launch, p))
    &&& path[0].1.finite()
    &&& forall|i: int|
        1 <= i < path.len() ==> cautious_step(m, dem, p, path[i - 1], #[trigger] path[i])
}

/// A cautious step from a cell where the flood is no lower leads to one where it
/// is no lower.
#[verifier::spinoff_prover]
proof fn lemma_cautious_step<M: Math>(
    m: &M,
    dem: &Dem,
    launch: &Launch,
    p: &GlideParams,
    q: &GlideParams,
    alts: Seq<Single>,
    from: (int, Single),
    to: (int, Single),
)
    requires
        dem.wf(),
        monotone(m),
        outglides(m, dem, p, q),
        is_flood(m, dem, launch, q, alts),
        0 <= from.0 < alts.len(),
        from.1.finite(),
        alts[from.0].finite(),
        from.1.at_most(alts[from.0]),
        !(glide_rules(m, dem, q).stale)(
            alts[from.0],
            (glide_rules(m, dem, q).key_of)(alts[from.0]),
        ),
        cautious_step(m, dem, p, from, to),
    ensures
        0 <= to.0 < alts.len(),
        to.1.finite(),
        alts[to.0].finite(),
        to.1.at_most(alts[to.0]),
{
    let key_of = glide_rules(m, dem, p).key_of;
    let u = from.0;
    let c = Single { bits: CENTI };
    let k = choose|k: int|
        0 <= k < 8 && match #[trigger] glide_on(m, dem, p, u, k, key_of(from.1)) {
            Some((v, alt)) => v == to.0 && alt.finite() && plus(m, to.1, c).below(alt),
            None => false,
        };
    let low = (glide_on(m, dem, p, u, k, key_of(from.1))->0).1;
    assert(key_of(alts[u]) == (glide_rules(m, dem, q).key_of)(alts[u]));
    assert(glide_on(m, dem, q, u, k, key_of(alts[u])) is Some);
    let high = (glide_on(m, dem, q, u, k, key_of(alts[u]))->0).1;
    assert(low.at_most(high));
    lemma_flat_in_range(
        dem.rows as int,
        dem.cols as int,
        u / dem.cols as int + dir_row(k),
        u % dem.cols as int + dir_col(k),
    );
    floods_are_highest(m, dem, launch, q, alts, u, k);
    lemma_no_higher(m, to.1, alts[to.0], low, high);
}

/// What is more than a centimeter below a height is no higher than what is not.
proof fn lemma_no_higher<M: Math>(m: &M, x: Single, a: Single, low: Single, high: Single)
    requires
        monotone(m),
        x.finite(),
        a.finite(),
        low.at_most(high),
        plus(m, x, Single { bits: CENTI }).below(low),
        !plus(m, a, Single { bits: CENTI }).below(high),
    ensures
        x.at_most(a),
{
    let c = Single { bits: CENTI };
    if !x.at_most(a) {
        assert(plus(m, a, c).at_most(plus(m, x, c)));
    }
}

#[verifier::spinoff_prover]
proof fn lemma_cautious<M: Math>(
    m: &M,
    dem: &Dem,
    launch: &Launch,
    p: &GlideParams,
    q: &GlideParams,
    alts: Seq<Single>,
    path: Seq<(int, Single)>,
    i: int,
)
    requires
        dem.wf(),
        dem.has_cell(launch.cell),
        monotone(m),
        outglides(m, dem, p, q),
        takeoff_alt(m, launch, q).finite(),
        takeoff_alt(m, launch, p).at_most(takeoff_alt(m, launch, q)),
        is_flood(m, dem, launch, q, alts),
        forall|u: int|
            0 <= u < alts.len() && (#[trigger] alts[u]).finite() ==> !(glide_rules(m, dem, q).stale)(
                alts[u],
                (glide_rules(m, dem, q).key_of)(alts[u]),
            ),
        cautious_glide(m, dem, launch, p, path),
        0 <= i < path.len(),
    ensures
        0 <= path[i].0 < alts.len(),
        path[i].1.finite(),
        alts[path[i].0].finite(),
        path[i].1.at_most(alts[path[i].0]),
    decreases i,
{
    if i == 0 {
        lemma_flat_in_range(
            dem.rows as int,
            dem.cols as int,
            launch.cell.row as int,
            launch.cell.col as int,
        );
    } else {
        lemma_cautious(m, dem, launch, p, q, alts, path, i - 1);
        assert(cautious_step(m, dem, p, path[i - 1], path[i]));
        lemma_cautious_step(m, dem, launch, p, q, alts, path[i - 1], path[i]);
    }
}

/// No glide from the launch, whichever way it takes, ends higher than the flood
/// once it gives away more than a centimeter per cell, where the altitudes are
/// known to the millimeter; and where such a glide leads, the flood does too.
pub proof fn no_glide_is_higher<M: Math>(
    m: &M,
    dem: &Dem,
    launch: &Launch,
    p: &GlideParams,
    alts: Seq<Single>,
    path: Seq<(int, Single)>,
)
    requires
        dem.wf(),
        dem.has_cell(launch.cell),
        monotone(m),
        outglides(m, dem, p, p),
        is_flood(m, dem, launch, p, alts),
        forall|u: int|
            0 <= u < alts.len() && (#[trigger] alts[u]).finite() ==> !(glide_rules(m, dem, p).stale)(
                alts[u],
                (glide_rules(m, dem, p).key_of)(alts[u]),
            ),
        cautious_glide(m, dem, launch, p, path),
    ensures
        alts[path.last().0].finite(),
        path.last().1.at_most(alts[path.last().0]),
{
    lemma_cautious(m, dem, launch, p, p, alts, path, path.len() - 1);
}

/// A pilot who glides at least as well in every direction, as with a higher
/// glide ratio, and takes off no lower, gets wherever another does who gives
/// away more than a centimeter per cell, and gets there no lower, where the
/// altitudes are known to the millimeter.
pub proof fn better_gliders_reach_further<M: Math>(
    m: &M,
    dem: &Dem,
    launch: &Launch,
    p: &GlideParams,
    q: &GlideParams,
    alts: Seq<Single>,
    path: Seq<(int, Single)>,
)
    requires
        dem.wf(),
        dem.has_cell(launch.cell),
        monotone(m),
        outglides(m, dem, p, q),
        takeoff_alt(m, launch, q).finite(),
        takeoff_alt(m, launch, p).at_most(takeoff_alt(m, launch, q)),
        is_flood(m, dem, launch, q, alts),
        forall|u: int|
            0 <= u < alts.len() && (#[trigger] alts[u]).finite() ==> !(glide_rules(m, dem, q).stale)(
                alts[u],
                (glide_rules(m, dem, q).key_of)(alts[u]),
            ),
        cautious_glide(m, dem, launch, p, path),
    ensures
        alts[path.last().0].finite(),
        path.last().1.at_most(alts[path.last().0]),
{
    lemma_cautious(m, dem, launch, p, q, alts, path, path.len() - 1);
}

/// Bearing of a step in direction `k`, in radians: of the way so many columns
/// east and so many rows north.
pub open spec fn step_bearing<M: Math>(m: &M, k: int) -> Single {
    atan2(m, single(m, dir_col(k) as i128), single(m, dir_row(k) as i128).neg())
}

/// Whether a wing is one that can be flown: between 1 and 100 m/s fast, with a
/// glide ratio between one fifth and 50, and not faster down than forward allows.
pub open spec fn is_wing(p: &GlideParams) -> bool {
    &&& p.airspeed_ms.finite() && 1real <= value(p.airspeed_ms) <= 100real
    &&& p.glide_ratio.finite() && 1real / 5real <= value(p.glide_ratio) <= 50real
}

/// Whether a wind is one that blows: up to 1000 km/h, from a direction in degrees.
pub open spec fn is_blowing(w: Wind) -> bool {
    &&& w.speed_kmh.finite() && 1real / 1000real <= value(w.speed_kmh) <= 1000real
    &&& w.from_deg.finite() && 0real <= value(w.from_deg) <= 360real
}

/// Whether `to` is the direction that the wind blows to: opposite to where it
/// comes from.
pub open spec fn blows_to(w: Wind, to: Single) -> bool {
    to.finite() && value(to) == value(w.from_deg) + 180real && 0real < value(to)
}

/// Whether the cosine is 1 at 0, and -1 between opposite directions.
pub open spec fn cosine_tells<M: Math>(m: &M) -> bool {
    &&& forall|x: Single| !x.nan() && x.rank() == 0 ==> (#[trigger] cos(m, x)).bits == 0x3f80_0000
    &&& forall|a: Single, b: Single|
        a.finite() && b.finite() && 0real <= value(a) <= 360real && value(b) == value(a) + 180real
            ==> (#[trigger] cos(
            m,
            minus(m, radians(m, a), radians(m, b)),
        )).bits == 0xbf80_0000
}

proof fn lemma_glide_numbers()
    ensures
        (Single { bits: 0x4066_6666 }).finite(),
        3_599_999real / 1_000_000real <= value(Single { bits: 0x4066_6666 }) <= 36real / 10real,
        (Single { bits: 0x3dcc_cccd }).finite(),
        value(Single { bits: 0x3dcc_cccd }) <= 11real / 100real,
        0real <= value(Single { bits: 0x3dcc_cccd }),
        (Single { bits: 0x3c23_d70a }).finite(),
        0real < value(Single { bits: 0x3c23_d70a }) <= 1real / 100real,
        1real / 200real <= value(Single { bits: 0x3c23_d70a }),
        (Single { bits: 0x3f00_0000 }).finite(),
        value(Single { bits: 0x3f00_0000 }) == 1real / 2real,
{
    lemma2_to64();
    powers_of_two();
    digits_bound_the_value(
        Single { bits: 0x4066_6666 },
        128,
        0xe6_6666,
        0x40_0000,
        3_599_999real / 1_000_000real,
        36real / 10real,
    );
    digits_bound_the_value(
        Single { bits: 0x3dcc_cccd },
        123,
        0xcc_cccd,
        0x800_0000,
        0real,
        11real / 100real,
    );
    digits_bound_the_value(
        Single { bits: 0x3c23_d70a },
        120,
        0xa3_d70a,
        0x4000_0000,
        1real / 200real,
        1real / 100real,
    );
}

/// The sink rate of a wing.
proof fn lemma_sink<M: Math>(m: &M, rnd: spec_fn(real) -> int, p: &GlideParams)
    requires
        rounds(m, rnd),
        is_wing(p),
    ensures
        sink_ms(m, p).finite(),
        1real / 100real <= value(sink_ms(m, p)) <= 524_288real,
        stands_for(sink_ms(m, p), rnd(value(p.airspeed_ms) / value(p.glide_ratio))),
{
    lemma_glide_numbers();
    powers_of_two();
    let tenth = Single { bits: 0x3dcc_cccd };
    let centi = Single { bits: 0x3c23_d70a };
    values_are_in_order(p.glide_ratio, tenth);
    assert(p.glide_ratio.max(tenth) == p.glide_ratio);
    let (a, g) = (value(p.airspeed_ms), value(p.glide_ratio));
    assert(1real / 50real <= a / g <= 524_288real) by (nonlinear_arith)
        requires
            1real <= a <= 100real,
            1real / 5real <= g <= 50real,
    ;
    let sink = over(m, p.airspeed_ms, p.glide_ratio);
    lemma_fiftieth();
    rounding_stays_between(
        m,
        rnd,
        sink,
        a / g,
        Single { bits: 0x3ca3_d70a },
        Single { bits: 0x4900_0000 },
    );
    values_are_in_order(sink, centi);
}

proof fn lemma_fiftieth()
    ensures
        (Single { bits: 0x3ca3_d70a }).finite(),
        19real / 1000real <= value(Single { bits: 0x3ca3_d70a }) <= 1real / 50real,
{
    lemma2_to64();
    digits_bound_the_value(
        Single { bits: 0x3ca3_d70a },
        121,
        0xa3_d70a,
        0x2000_0000,
        19real / 1000real,
        1real / 50real,
    );
}

/// The speed of a wind in m/s.
proof fn lemma_wind_speed<M: Math>(m: &M, rnd: spec_fn(real) -> int, p: &GlideParams, w: Wind)
    requires
        rounds(m, rnd),
        p.wind == Some(w),
        is_blowing(w),
    ensures
        wind_vector(m, p) == (
            radians(m, plus(m, w.from_deg, Single { bits: 0x4334_0000 })),
            over(m, w.speed_kmh, Single { bits: 0x4066_6666 }),
        ),
        ({
            let v = wind_vector(m, p).1;
            &&& v.finite() && 0real < value(v) <= 65_536real
            &&& (Single { bits: 0 }).below(v)
            &&& stands_for(v, rnd(value(w.speed_kmh) / value(Single { bits: 0x4066_6666 })))
        }),
{
    lemma_glide_numbers();
    powers_of_two();
    zero_is_nothing();
    let zero = Single { bits: 0 };
    let k = Single { bits: 0x4066_6666 };
    values_are_in_order(zero, w.speed_kmh);
    let v = over(m, w.speed_kmh, k);
    let (x, y) = (value(w.speed_kmh), value(k));
    assert(1real / 4000real <= x / y <= 65_536real) by (nonlinear_arith)
        requires
            1real / 1000real <= x <= 1000real,
            3real <= y <= 4real,
    ;
    lemma_small();
    rounding_stays_between(
        m,
        rnd,
        v,
        x / y,
        Single { bits: 0x3980_0000 },
        Single { bits: 0x4780_0000 },
    );
    values_are_in_order(zero, v);
}

proof fn lemma_small()
    ensures
        (Single { bits: 0x3980_0000 }).finite(),
        0real < value(Single { bits: 0x3980_0000 }) <= 1real / 4000real,
{
    lemma2_to64();
    vstd::arithmetic::power2::lemma2_to64_rest();
    digits_bound_the_value(
        Single { bits: 0x3980_0000 },
        115,
        0x80_0000,
        0x8_0000_0000,
        1real / 5000real,
        1real / 4000real,
    );
}

/// The ground glide ratio from the ground speed.
proof fn lemma_ratio<M: Math>(
    m: &M,
    rnd: spec_fn(real) -> int,
    p: &GlideParams,
    ground: Single,
)
    requires
        rounds(m, rnd),
        is_wing(p),
        ground.finite(),
        -1_048_576real <= value(ground) <= 1_048_576real,
    ensures
        ground.below(Single { bits: 0x3f00_0000 }) <==> value(ground) < 1real / 2real,
        1real / 2real <= value(ground) ==> over(m, ground, sink_ms(m, p)).finite() && stands_for(
            over(m, ground, sink_ms(m, p)),
            rnd(value(ground) / value(sink_ms(m, p))),
        ),
{
    lemma_glide_numbers();
    zero_is_nothing();
    two_to_the_31st();
    lemma_sink(m, rnd, p);
    values_are_in_order(ground, Single { bits: 0x3f00_0000 });
    if 1real / 2real <= value(ground) {
        let (g, s) = (value(ground), value(sink_ms(m, p)));
        assert(0real <= g / s <= 2_147_483_648real) by (nonlinear_arith)
            requires
                1real / 2real <= g <= 1_048_576real,
                1real / 100real <= s,
        ;
        rounding_stays_between(
            m,
            rnd,
            over(m, ground, sink_ms(m, p)),
            g / s,
            Single { bits: 0 },
            Single { bits: 0x4f00_0000 },
        );
    }
}

/// A bound on the ground glide ratio from bounds on ground speed and sink rate.
proof fn lemma_ratio_bounds<M: Math>(
    m: &M,
    rnd: spec_fn(real) -> int,
    p: &GlideParams,
    ground: Single,
    speed: real,
    sink: Single,
    ratio: Single,
)
    requires
        rounds(m, rnd),
        is_wing(p),
        ground.finite(),
        -1_048_576real <= value(ground) <= 1_048_576real,
        1real / 2real <= value(ground),
        sink.finite() && ratio.finite(),
        0real < value(sink),
        0real <= value(ratio),
    ensures
        value(ground) <= speed && value(sink) * value(p.glide_ratio) <= value(p.airspeed_ms) && speed
            <= value(ratio) * value(sink) ==> over(m, ground, sink_ms(m, p)).at_most(ratio),
        speed <= value(ground) && value(p.airspeed_ms) <= value(sink) * value(p.glide_ratio)
            && value(ratio) * value(sink) <= speed ==> ratio.at_most(
            over(m, ground, sink_ms(m, p)),
        ),
{
    lemma_sink(m, rnd, p);
    lemma_ratio(m, rnd, p, ground);
    let (a, gr, s) = (value(p.airspeed_ms), value(p.glide_ratio), value(sink_ms(m, p)));
    let (g, x, r) = (value(ground), value(sink), value(ratio));
    let exact = a / gr;
    assert(x * gr <= a ==> x <= exact) by (nonlinear_arith)
        requires
            gr > 0real,
            exact == a / gr,
    ;
    assert(a <= x * gr ==> exact <= x) by (nonlinear_arith)
        requires
            gr > 0real,
            exact == a / gr,
    ;
    rounding_keeps_sides(m, rnd, sink_ms(m, p), exact, sink);
    values_are_in_order(sink_ms(m, p), sink);
    values_are_in_order(sink, sink_ms(m, p));
    if g <= speed && x * gr <= a && speed <= r * x {
        assert(g / s <= r) by (nonlinear_arith)
            requires
                s > 0real,
                x <= s,
                g <= r * x,
                0real <= r,
        ;
        rounding_keeps_sides(m, rnd, over(m, ground, sink_ms(m, p)), g / s, ratio);
    }
    if speed <= g && a <= x * gr && r * x <= speed {
        assert(r <= g / s) by (nonlinear_arith)
            requires
                s > 0real,
                s <= x,
                r * x <= g,
                0real <= r,
        ;
        rounding_keeps_sides(m, rnd, over(m, ground, sink_ms(m, p)), g / s, ratio);
    }
}

/// In still air the ground glide ratio is the glide ratio of the wing, in every
/// direction, up to what rounding the sink rate takes: `sink` bounds the sink rate
/// and `ratio` what follows from it.
pub proof fn still_air_keeps_the_glide_ratio<M: Math>(
    m: &M,
    rnd: spec_fn(real) -> int,
    p: &GlideParams,
    k: int,
    sink: Single,
    ratio: Single,
)
    requires
        rounds(m, rnd),
        is_wing(p),
        p.wind is None,
        sink.finite() && ratio.finite(),
        0real < value(sink),
        0real <= value(ratio),
    ensures
        effective_ratio(m, p, k).finite(),
        value(sink) * value(p.glide_ratio) <= value(p.airspeed_ms) && value(p.airspeed_ms) <= value(
            ratio,
        ) * value(sink) ==> effective_ratio(m, p, k).at_most(ratio),
        value(p.airspeed_ms) <= value(sink) * value(p.glide_ratio) && value(ratio) * value(sink)
            <= value(p.airspeed_ms) ==> ratio.at_most(effective_ratio(m, p, k)),
{
    lemma_glide_numbers();
    zero_is_nothing();
    let ground = plus(m, p.airspeed_ms, Single { bits: 0 });
    rounding_keeps_sides(m, rnd, ground, value(p.airspeed_ms), p.airspeed_ms);
    lemma_ratio(m, rnd, p, ground);
    lemma_ratio_bounds(m, rnd, p, ground, value(p.airspeed_ms), sink, ratio);
}

/// A step with the wind is made at the speed of the air and of the wind together,
/// and a step against it at what the wind leaves: the wind in km/h is 3.6 times
/// that in m/s. `wind` bounds its speed, `ground` the speed over the ground, `sink`
/// the sink rate, and `ratio` what follows. Where less than half a meter per
/// second is left, no step is made.
pub proof fn the_wind_carries<M: Math>(
    m: &M,
    rnd: spec_fn(real) -> int,
    p: &GlideParams,
    w: Wind,
    to: Single,
    k: int,
    wind: Single,
    ground: Single,
    sink: Single,
    ratio: Single,
)
    requires
        rounds(m, rnd),
        cosine_tells(m),
        is_wing(p),
        p.wind == Some(w),
        is_blowing(w),
        blows_to(w, to),
        step_bearing(m, k).finite(),
        wind.finite() && ground.finite() && sink.finite() && ratio.finite(),
        0real <= value(wind),
        0real < value(sink),
        0real <= value(ratio),
    ensures
        step_bearing(m, k) == radians(m, to) ==> {
            &&& 3_599_999real * value(wind) >= 1_000_000real * value(w.speed_kmh) && value(
                p.airspeed_ms,
            ) + value(wind) <= value(ground) && value(sink) * value(p.glide_ratio) <= value(
                p.airspeed_ms,
            ) && value(ground) <= value(ratio) * value(sink) ==> effective_ratio(m, p, k).at_most(
                ratio,
            )
            &&& 36real * value(wind) <= 10real * value(w.speed_kmh) && value(ground) <= value(
                p.airspeed_ms,
            ) + value(wind) && 1real / 2real <= value(ground) && value(p.airspeed_ms) <= value(sink)
                * value(p.glide_ratio) && value(ratio) * value(sink) <= value(ground)
                ==> ratio.at_most(effective_ratio(m, p, k))
        },
        step_bearing(m, k) == radians(m, w.from_deg) ==> {
            &&& 36real * value(wind) <= 10real * value(w.speed_kmh) && value(p.airspeed_ms) - value(
                wind,
            ) <= value(ground) && value(ground) < 1real / 2real ==> effective_ratio(m, p, k).nan()
            &&& 36real * value(wind) <= 10real * value(w.speed_kmh) && value(p.airspeed_ms) - value(
                wind,
            ) <= value(ground) && value(sink) * value(p.glide_ratio) <= value(p.airspeed_ms)
                && value(ground) <= value(ratio) * value(sink) ==> effective_ratio(m, p, k).nan()
                || effective_ratio(m, p, k).at_most(ratio)
            &&& 3_599_999real * value(wind) >= 1_000_000real * value(w.speed_kmh) && value(ground)
                <= value(p.airspeed_ms) - value(wind) && 1real / 2real <= value(ground) && value(
                p.airspeed_ms,
            ) <= value(sink) * value(p.glide_ratio) && value(ratio) * value(sink) <= value(ground)
                ==> ratio.at_most(effective_ratio(m, p, k))
        },
{
    lemma_glide_numbers();
    powers_of_two();
    zero_is_nothing();
    turns_in_degrees();
    lemma_wind_speed(m, rnd, p, w);
    let zero = Single { bits: 0 };
    let turned = plus(m, w.from_deg, Single { bits: 0x4334_0000 });
    rounding_keeps_sides(m, rnd, turned, value(to), to);
    values_are_in_order(turned, to);
    values_are_in_order(zero, to);
    assert(turned == to);
    let v = wind_vector(m, p).1;
    let (x, y) = (value(w.speed_kmh), value(Single { bits: 0x4066_6666 }));
    let c = value(wind);
    assert(3_599_999real * c >= 1_000_000real * x ==> x / y <= c) by (nonlinear_arith)
        requires
            3_599_999real / 1_000_000real <= y,
            0real <= c,
    ;
    assert(36real * c <= 10real * x ==> c <= x / y) by (nonlinear_arith)
        requires
            0real < y <= 36real / 10real,
            0real <= c,
    ;
    rounding_keeps_sides(m, rnd, v, x / y, wind);
    values_are_in_order(v, wind);
    values_are_in_order(wind, v);
    let heading = step_bearing(m, k);
    let angle = minus(m, heading, radians(m, to));
    let one = Single { bits: 0x3f80_0000 };
    if heading == radians(m, to) {
        rounding_keeps_sides(m, rnd, angle, 0real, zero);
        assert(cos(m, angle) == one);
        let tail = times(m, v, one);
        assert(value(v) * value(one) == value(v));
        rounding_keeps_sides(m, rnd, tail, value(v), v);
        lemma_carried(m, rnd, p, k, tail, ground, sink, ratio);
    }
    if heading == radians(m, w.from_deg) {
        assert(cos(m, angle).bits == 0xbf80_0000);
        negation_is_exact(one);
        assert(one.neg().bits == 0xbf80_0000);
        negation_is_exact(v);
        let tail = times(m, v, one.neg());
        assert(value(v) * value(one.neg()) == -value(v));
        rounding_keeps_sides(m, rnd, tail, -value(v), v.neg());
        lemma_carried(m, rnd, p, k, tail, ground, sink, ratio);
    }
}

/// What a tailwind comes to.
proof fn lemma_carried<M: Math>(
    m: &M,
    rnd: spec_fn(real) -> int,
    p: &GlideParams,
    k: int,
    tail: Single,
    ground: Single,
    sink: Single,
    ratio: Single,
)
    requires
        rounds(m, rnd),
        is_wing(p),
        tail.finite(),
        -65_536real <= value(tail) <= 65_536real,
        ground.finite() && sink.finite() && ratio.finite(),
        0real < value(sink),
        0real <= value(ratio),
        effective_ratio(m, p, k) == if plus(m, p.airspeed_ms, tail).below(
            Single { bits: 0x3f00_0000 },
        ) {
            Single { bits: 0x7fc0_0000 }
        } else {
            over(m, plus(m, p.airspeed_ms, tail), sink_ms(m, p))
        },
    ensures
        value(p.airspeed_ms) + value(tail) <= value(ground) && value(ground) < 1real / 2real
            ==> effective_ratio(m, p, k).nan(),
        value(p.airspeed_ms) + value(tail) <= value(ground) && value(sink) * value(p.glide_ratio)
            <= value(p.airspeed_ms) && value(ground) <= value(ratio) * value(sink)
            ==> effective_ratio(m, p, k).nan() || effective_ratio(m, p, k).at_most(ratio),
        1real / 2real <= value(p.airspeed_ms) + value(tail) ==> !effective_ratio(m, p, k).nan(),
        value(ground) <= value(p.airspeed_ms) + value(tail) && 1real / 2real <= value(ground)
            && value(p.airspeed_ms) <= value(sink) * value(p.glide_ratio) && value(ratio) * value(
            sink,
        ) <= value(ground) ==> ratio.at_most(effective_ratio(m, p, k)),
{
    lemma_glide_numbers();
    powers_of_two();
    let sum = plus(m, p.airspeed_ms, tail);
    let v = value(p.airspeed_ms) + value(tail);
    sums_stay_within(m, rnd, p.airspeed_ms, tail, Single { bits: 0x4980_0000 });
    rounding_keeps_sides(m, rnd, sum, v, ground);
    rounding_keeps_sides(m, rnd, sum, v, Single { bits: 0x3f00_0000 });
    values_are_in_order(sum, ground);
    values_are_in_order(ground, sum);
    values_are_in_order(Single { bits: 0x3f00_0000 }, sum);
    lemma_ratio(m, rnd, p, sum);
    if 1real / 2real <= value(sum) {
        lemma_ratio_bounds(m, rnd, p, sum, value(ground), sink, ratio);
    }
}

/// Wind that does not blow is still air.
pub proof fn calm_winds_are_still_air<M: Math>(m: &M, p: &GlideParams, q: &GlideParams, w: Wind, k: int)
    requires
        p.wind == Some(w),
        !(Single { bits: 0 }).below(w.speed_kmh),
        q.wind is None,
        p.airspeed_ms == q.airspeed_ms,
        p.glide_ratio == q.glide_ratio,
    ensures
        effective_ratio(m, p, k) == effective_ratio(m, q, k),
{
}

/// A step that leads more with the wind than another, by the cosine of the angle
/// between, has no worse a glide ratio, wherever the other one can be made.
pub proof fn steps_with_the_wind_go_further<M: Math>(
    m: &M,
    rnd: spec_fn(real) -> int,
    p: &GlideParams,
    w: Wind,
    to: Single,
    against: int,
    with: int,
)
    requires
        rounds(m, rnd),
        is_wing(p),
        p.wind == Some(w),
        is_blowing(w),
        blows_to(w, to),
        ({
            let (c, d) = (
                cos(m, minus(m, step_bearing(m, against), radians(m, to))),
                cos(m, minus(m, step_bearing(m, with), radians(m, to))),
            );
            c.finite() && d.finite() && -1real <= value(c) <= value(d) <= 1real
        }),
        !effective_ratio(m, p, against).nan(),
    ensures
        effective_ratio(m, p, against).at_most(effective_ratio(m, p, with)),
{
    lemma_glide_numbers();
    powers_of_two();
    zero_is_nothing();
    turns_in_degrees();
    lemma_wind_speed(m, rnd, p, w);
    lemma_sink(m, rnd, p);
    let zero = Single { bits: 0 };
    let turned = plus(m, w.from_deg, Single { bits: 0x4334_0000 });
    rounding_keeps_sides(m, rnd, turned, value(to), to);
    values_are_in_order(turned, to);
    values_are_in_order(zero, to);
    assert(turned == to);
    let v = wind_vector(m, p).1;
    let c = cos(m, minus(m, step_bearing(m, against), radians(m, to)));
    let d = cos(m, minus(m, step_bearing(m, with), radians(m, to)));
    let (s, t) = (times(m, v, c), times(m, v, d));
    products_grow(m, rnd, c, d, v);
    let (x, y, z) = (value(v), value(c), value(d));
    assert(-x <= x * y <= x && -x <= x * z <= x) by (nonlinear_arith)
        requires
            0real < x,
            -1real <= y <= 1real,
            -1real <= z <= 1real,
    ;
    negation_is_exact(v);
    rounding_stays_between(m, rnd, s, x * y, v.neg(), v);
    rounding_stays_between(m, rnd, t, x * z, v.neg(), v);
    values_are_in_order(s, t);
    let (g, h) = (plus(m, p.airspeed_ms, s), plus(m, p.airspeed_ms, t));
    let bound = Single { bits: 0x4980_0000 };
    sums_stay_within(m, rnd, p.airspeed_ms, s, bound);
    sums_stay_within(m, rnd, p.airspeed_ms, t, bound);
    let a = value(p.airspeed_ms);
    rounding_keeps_order(m, rnd, g, a + value(s), h, a + value(t));
    values_are_in_order(g, h);
    lemma_ratio(m, rnd, p, g);
    lemma_ratio(m, rnd, p, h);
    let sink = sink_ms(m, p);
    quotients_grow(m, rnd, g, h, sink, sink);
}

/// A wing with a glide ratio below one tenth glides as one with one tenth does.
pub proof fn poor_wings_glide_alike<M: Math>(m: &M, p: &GlideParams, q: &GlideParams, k: int)
    requires
        p.glide_ratio.at_most(Single { bits: 0x3dcc_cccd }),
        q.glide_ratio.bits == 0x3dcc_cccd,
        p.airspeed_ms == q.airspeed_ms,
        p.wind == q.wind,
    ensures
        effective_ratio(m, p, k) == effective_ratio(m, q, k),
{
    assert(p.glide_ratio.max(Single { bits: 0x3dcc_cccd }).bits == 0x3dcc_cccd);
}

/// Whether the shortest and the longest that a step in direction `k` can be, in
/// cells: 1 along a row or column, and the root of 2 across.
pub open spec fn step_span(k: int) -> (real, real) {
    if dir_row(k) == 0 || dir_col(k) == 0 {
        (1real, 1real)
    } else {
        (14_142_135real / 10_000_000real, 14_142_136real / 10_000_000real)
    }
}

proof fn lemma_span(k: int)
    requires
        0 <= k < 8,
    ensures
        dir_len(k).finite(),
        step_span(k).0 <= value(dir_len(k)) <= step_span(k).1,
        -1 <= dir_row(k) <= 1,
        -1 <= dir_col(k) <= 1,
        dir_row(k) != 0 || dir_col(k) != 0,
{
    powers_of_two();
    lemma2_to64();
    digits_bound_the_value(
        Single { bits: 0x3fb5_04f3 },
        127,
        0xb5_04f3,
        0x80_0000,
        14_142_135real / 10_000_000real,
        14_142_136real / 10_000_000real,
    );
}

/// A step costs its length by the glide ratio in height: `way` bounds the length,
/// `lost` the height and `alt` what is left of the altitude `from`.
pub proof fn steps_cost_height<M: Math>(
    m: &M,
    rnd: spec_fn(real) -> int,
    dem: &Dem,
    p: &GlideParams,
    u: int,
    k: int,
    alt_mm: i128,
    way: Single,
    lost: Single,
    alt: Single,
)
    requires
        rounds(m, rnd),
        0 <= k < 8,
        effective_ratio(m, p, k).finite(),
        1real / 1000real <= value(effective_ratio(m, p, k)),
        dem.cell_size_m.finite() && 0real <= value(dem.cell_size_m) <= 65_000real,
        queued_alt(m, alt_mm).finite(),
        way.finite() && lost.finite() && alt.finite(),
        0real <= value(way),
        glide_on(m, dem, p, u, k, alt_mm) is Some,
    ensures
        ({
            let end = (glide_on(m, dem, p, u, k, alt_mm)->0).1;
            let ratio = value(effective_ratio(m, p, k));
            let from = value(queued_alt(m, alt_mm));
            &&& value(way) <= step_span(k).0 * value(dem.cell_size_m) && value(lost) * ratio
                <= value(way) && from - value(lost) <= value(alt) ==> end.at_most(alt)
            &&& step_span(k).1 * value(dem.cell_size_m) <= value(way) && value(way) <= value(lost)
                * ratio && value(alt) <= from - value(lost) ==> alt.at_most(end)
        }),
{
    powers_of_two();
    zero_is_nothing();
    two_to_the_31st();
    lemma_span(k);
    let zero = Single { bits: 0 };
    let ratio = effective_ratio(m, p, k);
    let len = dir_len(k);
    let d = times(m, dem.cell_size_m, len);
    let (c, l, r) = (value(dem.cell_size_m), value(len), value(ratio));
    let (lo, hi) = step_span(k);
    assert(lo * c <= c * l <= hi * c && 0real <= c * l <= 131_072real) by (nonlinear_arith)
        requires
            0real <= c <= 65_000real,
            lo <= l <= hi,
            1real <= lo,
            hi <= 2real,
    ;
    rounding_stays_between(m, rnd, d, c * l, zero, Single { bits: 0x4800_0000 });
    rounding_keeps_sides(m, rnd, d, c * l, way);
    values_are_in_order(d, way);
    values_are_in_order(way, d);
    let loss = over(m, d, ratio);
    let x = value(d);
    assert(0real <= x / r <= 2_147_483_648real) by (nonlinear_arith)
        requires
            0real <= x <= 131_072real,
            1real / 1000real <= r,
    ;
    rounding_stays_between(m, rnd, loss, x / r, zero, Single { bits: 0x4f00_0000 });
    let y = value(lost);
    assert(y * r <= x ==> y <= x / r) by (nonlinear_arith)
        requires
            0real < r,
    ;
    assert(x <= y * r ==> x / r <= y) by (nonlinear_arith)
        requires
            0real < r,
    ;
    rounding_keeps_sides(m, rnd, loss, x / r, lost);
    values_are_in_order(loss, lost);
    values_are_in_order(lost, loss);
    let q = queued_alt(m, alt_mm);
    rounding_keeps_sides(m, rnd, minus(m, q, loss), value(q) - value(loss), alt);
}

/// A glide goes on to a neighbor with known terrain if and only if the headwind
/// leaves a glide ratio and the altitude there clears the terrain by the safety
/// buffer. `clear` is by how much, where that is a number.
pub proof fn glides_clear_the_terrain<M: Math>(
    m: &M,
    rnd: spec_fn(real) -> int,
    dem: &Dem,
    p: &GlideParams,
    u: int,
    k: int,
    alt_mm: i128,
    v: int,
    alt: Single,
    clear: Single,
)
    requires
        rounds(m, rnd),
        dem.moved(u, dir_row(k), dir_col(k)) == Some(v),
        alt == minus(
            m,
            queued_alt(m, alt_mm),
            over(m, times(m, dem.cell_size_m, dir_len(k)), effective_ratio(m, p, k)),
        ),
        alt.finite() && clear.finite() && p.safety_buffer_m.finite(),
        dem.data@[v].finite(),
        value(clear) == value(alt) - value(dem.data@[v]),
    ensures
        glide_on(m, dem, p, u, k, alt_mm) == if effective_ratio(m, p, k).finite() && value(
            p.safety_buffer_m,
        ) <= value(clear) {
            Some((v, alt))
        } else {
            None::<(int, Single)>
        },
{
    let over_ground = minus(m, alt, dem.data@[v]);
    rounding_keeps_sides(m, rnd, over_ground, value(clear), clear);
    values_are_in_order(over_ground, p.safety_buffer_m);
}

/// A takeoff is as high above the launch as the pilot is once airborne: `alt` is
/// the sum, where that is a number.
pub proof fn takeoffs_are_above_the_launch<M: Math>(
    m: &M,
    rnd: spec_fn(real) -> int,
    launch: &Launch,
    p: &GlideParams,
    alt: Single,
)
    requires
        rounds(m, rnd),
        launch.altitude_m.finite() && p.takeoff_initial_agl_m.finite() && alt.finite(),
        value(alt) == value(launch.altitude_m) + value(p.takeoff_initial_agl_m),
    ensures
        takeoff_alt(m, launch, p).finite(),
        value(takeoff_alt(m, launch, p)) == value(alt),
{
    rounding_keeps_sides(m, rnd, takeoff_alt(m, launch, p), value(alt), alt);
}

/// A queued altitude is within a millimeter of the altitude: not below any number
/// that is more than a millimeter lower, nor above any that is as much higher.
pub proof fn queued_altitudes_are_close<M: Math>(
    m: &M,
    rnd: spec_fn(real) -> int,
    dem: &Dem,
    p: &GlideParams,
    alt: Single,
    whole: int,
    c: Single,
)
    requires
        rounds(m, rnd),
        truncates(m),
        alt.finite() && c.finite(),
        0real <= value(alt) <= 16_000real,
        whole as real <= 1000real * value(alt) < (whole as real) + 1real,
    ensures
        1000real * value(c) <= 1000real * value(alt) - 1real ==> c.at_most(
            queued_alt(m, (glide_rules(m, dem, p).key_of)(alt)),
        ),
        1000real * value(alt) + 1real <= 1000real * value(c) ==> queued_alt(
            m,
            (glide_rules(m, dem, p).key_of)(alt),
        ).at_most(c),
{
    lemma_thousand();
    let k = Single { bits: 0x447a_0000 };
    let lo = whole_numbers_are_exact(m, rnd, whole);
    let hi = whole_numbers_are_exact(m, rnd, whole + 1);
    let x = times(m, alt, k);
    assert(value(alt) * value(k) == 1000real * value(alt));
    rounding_stays_between(m, rnd, x, value(alt) * value(k), lo, hi);
    let i = to_int(m, x);
    assert(whole <= i <= whole + 1);
    let n = single(m, i);
    let key = (glide_rules(m, dem, p).key_of)(alt);
    assert(key == i);
    let q = queued_alt(m, key);
    rounding_keeps_sides(m, rnd, q, value(n) / value(k), c);
}

proof fn lemma_thousand()
    ensures
        (Single { bits: 0x447a_0000 }).finite(),
        value(Single { bits: 0x447a_0000 }) == 1000real,
{
    lemma2_to64();
    digits_bound_the_value(Single { bits: 0x447a_0000 }, 136, 0xfa_0000, 0x4000, 1000real, 1000real);
}

/// The tolerances are small: an altitude replaces another if it is more than a
/// centimeter higher, and an entry is out of date once its cell is more than a
/// millimeter higher.
pub proof fn tolerances_are_small<M: Math>(
    m: &M,
    rnd: spec_fn(real) -> int,
    dem: &Dem,
    p: &GlideParams,
    new: Single,
    prev: Single,
    least: Single,
)
    requires
        rounds(m, rnd),
        new.finite() && prev.finite() && least.finite(),
    ensures
        100real * value(least) >= 100real * value(prev) + 1real && value(least) < value(new)
            ==> (glide_rules(m, dem, p).improves)(new, prev),
        1000real * value(least) <= 1000real * value(prev) + 9real && value(new) <= value(least)
            ==> !(glide_rules(m, dem, p).improves)(new, prev),
{
    lemma_glide_numbers();
    lemma_centi();
    let c = Single { bits: 0x3c23_d70a };
    let sum = plus(m, prev, c);
    rounding_keeps_sides(m, rnd, sum, value(prev) + value(c), least);
    values_are_in_order(least, new);
    values_are_in_order(new, least);
}

proof fn lemma_centi()
    ensures
        9real / 1000real <= value(Single { bits: 0x3c23_d70a }) <= 1real / 100real,
{
    lemma2_to64();
    digits_bound_the_value(
        Single { bits: 0x3c23_d70a },
        120,
        0xa3_d70a,
        0x4000_0000,
        9real / 1000real,
        1real / 100real,
    );
}

/// Cells in the row or the column of the launch are as far from it as so many
/// cells are wide.
pub proof fn distances_from_the_launch_count_cells<M: Math>(
    m: &M,
    rnd: spec_fn(real) -> int,
    dem: &Dem,
    launch: &Launch,
    u: int,
    n: int,
)
    requires
        rounds(m, rnd),
        0 <= n <= 4096,
        ({
            let cell = dem.cell_of(u);
            ||| cell.row == launch.cell.row && (cell.col - launch.cell.col == n || launch.cell.col
                - cell.col == n)
            ||| cell.col == launch.cell.col && (cell.row - launch.cell.row == n || launch.cell.row
                - cell.row == n)
        }),
        dem.cell_size_m.finite(),
    ensures
        stands_for(distance_from(m, dem, launch, u), rnd((n as real) * value(dem.cell_size_m))),
{
    let cell = dem.cell_of(u);
    let (i, j) = (cell.row - launch.cell.row, cell.col - launch.cell.col);
    assert(0 <= n * n <= 0x100_0000) by (nonlinear_arith)
        requires
            0 <= n <= 4096,
    ;
    let (dr, dc) = (whole_numbers_are_exact(m, rnd, i), whole_numbers_are_exact(m, rnd, j));
    let square = whole_numbers_are_exact(m, rnd, n * n);
    let zero = whole_numbers_are_exact(m, rnd, 0);
    let c = whole_numbers_are_exact(m, rnd, n);
    let (x, y) = (times(m, dr, dr), times(m, dc, dc));
    let (a, b, t) = (i as real, j as real, n as real);
    assert((n * n) as real == t * t) by (nonlinear_arith)
        requires
            t == n as real,
    ;
    if i == 0 {
        assert(b * b == t * t) by (nonlinear_arith)
            requires
                b == t || b == -t,
        ;
        assert(a * a == 0real) by (nonlinear_arith)
            requires
                a == 0real,
        ;
        rounding_keeps_sides(m, rnd, x, a * a, zero);
        rounding_keeps_sides(m, rnd, y, b * b, square);
    } else {
        assert(a * a == t * t) by (nonlinear_arith)
            requires
                a == t || a == -t,
        ;
        assert(b * b == 0real) by (nonlinear_arith)
            requires
                b == 0real,
        ;
        rounding_keeps_sides(m, rnd, x, a * a, square);
        rounding_keeps_sides(m, rnd, y, b * b, zero);
    }
    let s = plus(m, x, y);
    assert(value(x) + value(y) == t * t);
    rounding_keeps_sides(m, rnd, s, t * t, square);
    roots_keep_sides(m, rnd, s, c, square);
}

/// An entry is out of date once its cell is higher than it by more than a
/// millimeter and a rounding, and not while it is higher by nine tenths of one at
/// most.
pub proof fn entries_go_out_of_date<M: Math>(
    m: &M,
    rnd: spec_fn(real) -> int,
    dem: &Dem,
    p: &GlideParams,
    alt: Single,
    alt_mm: i128,
    least: Single,
)
    requires
        rounds(m, rnd),
        alt.finite() && least.finite() && queued_alt(m, alt_mm).finite(),
    ensures
        1_000_000real * value(least) >= 1_000_000real * value(queued_alt(m, alt_mm)) + 1001real
            && value(least) < value(alt) ==> (glide_rules(m, dem, p).stale)(alt, alt_mm),
        10_000real * value(least) <= 10_000real * value(queued_alt(m, alt_mm)) + 9real && value(alt)
            <= value(least) ==> !(glide_rules(m, dem, p).stale)(alt, alt_mm),
{
    milliseconds_and_millimeters();
    let c = Single { bits: 0x3a83_126f };
    let q = queued_alt(m, alt_mm);
    let sum = plus(m, q, c);
    rounding_keeps_sides(m, rnd, sum, value(q) + value(c), least);
    values_are_in_order(least, alt);
    values_are_in_order(alt, least);
}

/// The area of a footprint is that of its cells, all of one size.
pub proof fn areas_count_cells<M: Math>(
    m: &M,
    rnd: spec_fn(real) -> int,
    wide: spec_fn(real) -> int,
    dem: &Dem,
    launch: &Launch,
    p: &GlideParams,
    alts: Seq<Single>,
    order: Seq<int>,
    s: FloodSummary,
    side: int,
)
    requires
        rounds_d(m, wide),
        converts(m, rnd),
        is_summary(m, dem, launch, p, alts, order, s),
        dem.cell_size_m.finite() && value(dem.cell_size_m) == side as real,
        0 <= side <= 4_096,
        s.reachable_cells <= 0x1000_0000,
    ensures
        holds(s.area_m2, s.reachable_cells * (side * side)),
{
    let cs = widen(m, dem.cell_size_m);
    assert(0 <= side * side <= 0x100_0000) by (nonlinear_arith)
        requires
            0 <= side <= 4_096,
    ;
    wide_whole_arithmetic_is_exact(m, wide, cs, side, cs, side);
    let n = wide_whole_numbers_are_exact(m, wide, s.reachable_cells as int);
    let (k, a) = (s.reachable_cells as int, side * side);
    assert(0 <= k * a <= 0x10_0000_0000_0000) by (nonlinear_arith)
        requires
            0 <= k <= 0x1000_0000,
            0 <= a <= 0x100_0000,
    ;
    wide_whole_arithmetic_is_exact(m, wide, n, k, dem.area_m2(m), a);
}

proof fn lemma_count_reached<M: Math>(
    m: &M,
    dem: &Dem,
    launch: &Launch,
    p: &GlideParams,
    alts: Seq<Single>,
    n: int,
    cells: Set<int>,
)
    requires
        0 <= n,
        forall|u: int| #[trigger]
            cells.contains(u) <==> 0 <= u < n && reached(m, dem, launch, p, alts, u),
    ensures
        cells.finite(),
        cells.len() == count_reached(m, dem, launch, p, alts, n),
    decreases n,
{
    if n == 0 {
        assert(cells =~= Set::empty());
    } else {
        let fewer = cells.remove(n - 1);
        lemma_count_reached(m, dem, launch, p, alts, n - 1, fewer);
        if reached(m, dem, launch, p, alts, n - 1) {
            assert(cells =~= fewer.insert(n - 1));
        } else {
            assert(cells =~= fewer);
        }
    }
}

/// A footprint has as many cells as the flood has altitudes at, without the cell
/// of a takeoff.
pub proof fn footprints_are_the_cells_reached<M: Math>(
    m: &M,
    dem: &Dem,
    launch: &Launch,
    p: &GlideParams,
    alts: Seq<Single>,
    order: Seq<int>,
    s: FloodSummary,
    cells: Set<int>,
)
    requires
        is_summary(m, dem, launch, p, alts, order, s),
        takeoff_alt(m, launch, p).finite(),
        forall|u: int| #[trigger]
            cells.contains(u) <==> 0 <= u < dem.data@.len() && alts[u].finite() && u != dem.pos(
                launch.cell,
            ),
    ensures
        cells.finite(),
        s.reachable_cells == cells.len(),
{
    lemma_count_reached(m, dem, launch, p, alts, dem.data@.len() as int, cells);
}

} // verus!
