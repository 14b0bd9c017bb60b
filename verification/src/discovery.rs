//! Auto-discovery of candidate launch sites from a DEM.
//!
//! A cell qualifies as a candidate launch when:
//!   * its slope is in `slope_deg_range` (typical paragliding takeoff: 25-35 deg),
//!   * its surface roughness is below `max_roughness_m` (smooth enough to
//!     inflate a wing on),
//!   * its aspect (downhill direction) is within the user's allowed arc
//!     (e.g. SE through W for thermal sites in the northern Alps).
//!
//! After per-cell filtering we apply spatial deduplication: candidates within
//! `dedupe_radius_m` of a higher-scoring sibling are dropped. This prevents
//! 47 "launches" on one meadow.

use crate::dem::{lemma_flat_onto, squared_apart, squares_of_distances_are_exact, Dem};
use crate::exact::{
    digits_bound_the_value, is_rest, leaves, products_grow, rounding_keeps_order,
    rounding_keeps_sides, rounding_keeps_sizes, rounding_stays_between, rounds, size, squares,
    value, values_are_in_order, whole_numbers_are_exact,
};
use crate::geom::{turns_in_degrees, FULL_TURN};
use crate::launch::{Launch, LaunchKind, Warning};
use crate::math::{minus, over, plus, rem, single, square, steady, times, Math};
use crate::scalar::Single;
use crate::sort::{precedes, sorted_order};
use crate::terrain::{aspect_at, roughness, roughness_at, slope_aspect, slope_at};
use vstd::arithmetic::power2::lemma2_to64;
use vstd::prelude::*;

verus! {

/// 22.
pub const MIN_SLOPE: u32 = 0x41b0_0000;

/// 38.
pub const MAX_SLOPE: u32 = 0x4218_0000;

/// 1.5.
pub const MAX_ROUGHNESS: u32 = 0x3fc0_0000;

/// 90, due east.
pub const EAST: u32 = 0x42b4_0000;

/// 270, due west.
pub const WEST: u32 = 0x4387_0000;

/// 45.
pub const ARC_HALF_WIDTH: u32 = 0x4234_0000;

/// 100.
pub const DEDUPE_RADIUS: u32 = 0x42c8_0000;

/// 30, the slope that scores best.
pub const BEST_SLOPE: u32 = 0x41f0_0000;

/// 8, the spread of slopes.
pub const SLOPE_SPREAD: u32 = 0x4100_0000;

/// 50, meters of altitude that a penalty of 1 outweighs.
pub const PENALTY_WEIGHT: u32 = 0x4248_0000;

#[derive(Debug)]
pub struct DiscoveryParams {
    /// Inclusive slope range in degrees.
    pub slope_deg_range: (Single, Single),
    /// Max RMS roughness (meters) to consider a cell launchable.
    pub max_roughness_m: Single,
    /// Allowed aspect arc (compass degrees). Wraparound supported.
    pub aspect_arc: (Single, Single),
    /// Half-width of the per-launch usable arc, in degrees.
    pub launch_arc_half_width_deg: Single,
    /// Drop a candidate if a higher-scoring one exists within this radius.
    pub dedupe_radius_m: Single,
    /// Maximum number of launches to return after dedup.
    pub max_launches: usize,
}

impl Default for DiscoveryParams {
    fn default() -> (r: Self)
        ensures
            r.slope_deg_range.0.bits == MIN_SLOPE,
            r.slope_deg_range.1.bits == MAX_SLOPE,
            r.max_roughness_m.bits == MAX_ROUGHNESS,
            r.aspect_arc.0.bits == EAST,
            r.aspect_arc.1.bits == WEST,
            r.launch_arc_half_width_deg.bits == ARC_HALF_WIDTH,
            r.dedupe_radius_m.bits == DEDUPE_RADIUS,
            r.max_launches == 200,
    {
        DiscoveryParams {
            slope_deg_range: (Single { bits: MIN_SLOPE }, Single { bits: MAX_SLOPE }),
            max_roughness_m: Single { bits: MAX_ROUGHNESS },
            aspect_arc: (Single { bits: EAST }, Single { bits: WEST }),
            launch_arc_half_width_deg: Single { bits: ARC_HALF_WIDTH },
            dedupe_radius_m: Single { bits: DEDUPE_RADIUS },
            max_launches: 200,
        }
    }
}

/// Whether an aspect is in an arc, which may run through north.
pub open spec fn spec_aspect_in_arc(aspect: Single, arc: (Single, Single)) -> bool {
    if arc.0.at_most(arc.1) {
        arc.0.at_most(aspect) && aspect.at_most(arc.1)
    } else {
        arc.0.at_most(aspect) || aspect.at_most(arc.1)
    }
}

/// Whether an aspect is in an arc, which may run through north.
#[verifier::when_used_as_spec(spec_aspect_in_arc)]
pub fn aspect_in_arc(aspect: Single, arc: (Single, Single)) -> (r: bool)
    ensures
        r == aspect_in_arc(aspect, arc),
{
    let (lo, hi) = arc;
    if lo.le(&hi) {
        lo.le(&aspect) && aspect.le(&hi)
    } else {
        // Wraparound, e.g. (315, 45) for N-facing.
        lo.le(&aspect) || aspect.le(&hi)
    }
}

/// Slope at a position.
pub open spec fn slope_of<M: Math>(m: &M, dem: &Dem, u: int) -> Single {
    slope_at(m, dem, dem.cell_of(u).row as int, dem.cell_of(u).col as int)
}

/// Aspect at a position.
pub open spec fn aspect_of<M: Math>(m: &M, dem: &Dem, u: int) -> Single {
    aspect_at(m, dem, dem.cell_of(u).row as int, dem.cell_of(u).col as int)
}

/// Roughness at a position.
pub open spec fn roughness_of<M: Math>(m: &M, dem: &Dem, u: int) -> Single {
    roughness_at(m, dem, dem.cell_of(u).row as int, dem.cell_of(u).col as int)
}

/// Whether slope, aspect, roughness and altitude make a candidate launch.
pub open spec fn spec_fits(
    params: &DiscoveryParams,
    slope: Single,
    aspect: Single,
    rough: Single,
    altitude: Single,
) -> bool {
    &&& slope.finite() && aspect.finite() && rough.finite() && altitude.finite()
    &&& !slope.below(params.slope_deg_range.0)
    &&& !params.slope_deg_range.1.below(slope)
    &&& !params.max_roughness_m.below(rough)
    &&& aspect_in_arc(aspect, params.aspect_arc)
}

/// Whether slope, aspect, roughness and altitude make a candidate launch.
#[verifier::when_used_as_spec(spec_fits)]
pub fn fits(
    params: &DiscoveryParams,
    slope: Single,
    aspect: Single,
    rough: Single,
    altitude: Single,
) -> (r: bool)
    ensures
        r == fits(params, slope, aspect, rough, altitude),
{
    slope.is_finite() && aspect.is_finite() && rough.is_finite() && altitude.is_finite()
        && !slope.lt(&params.slope_deg_range.0) && !params.slope_deg_range.1.lt(&slope)
        && !params.max_roughness_m.lt(&rough) && aspect_in_arc(aspect, params.aspect_arc)
}

/// Whether the cell at position `u` is a candidate launch.
pub open spec fn qualifies<M: Math>(m: &M, dem: &Dem, params: &DiscoveryParams, u: int) -> bool {
    fits(
        params,
        slope_of(m, dem, u),
        aspect_of(m, dem, u),
        roughness_of(m, dem, u),
        dem.data@[u],
    )
}

/// Score of a candidate: its altitude less penalties for a slope away from 30
/// degrees and for roughness.
pub open spec fn spec_score<M: Math>(
    m: &M,
    params: &DiscoveryParams,
    slope: Single,
    rough: Single,
    altitude: Single,
) -> Single {
    let weight = Single { bits: PENALTY_WEIGHT };
    let slope_penalty = square(
        m,
        over(m, minus(m, slope, Single { bits: BEST_SLOPE }), Single { bits: SLOPE_SPREAD }),
    );
    let rough_penalty = square(m, over(m, rough, params.max_roughness_m));
    minus(
        m,
        minus(m, altitude, times(m, weight, slope_penalty)),
        times(m, weight, rough_penalty),
    )
}

/// Score of a candidate.
#[verifier::when_used_as_spec(spec_score)]
pub fn score<M: Math>(
    m: &M,
    params: &DiscoveryParams,
    slope: Single,
    rough: Single,
    altitude: Single,
) -> (r: Single)
    requires
        steady(m),
    ensures
        r == score(m, params, slope, rough, altitude),
{
    let weight = Single { bits: PENALTY_WEIGHT };
    let slope_penalty = square(
        m,
        over(m, minus(m, slope, Single { bits: BEST_SLOPE }), Single { bits: SLOPE_SPREAD }),
    );
    let rough_penalty = square(m, over(m, rough, params.max_roughness_m));
    minus(
        m,
        minus(m, altitude, times(m, weight, slope_penalty)),
        times(m, weight, rough_penalty),
    )
}

/// Score of the candidate at position `u`.
pub open spec fn score_of<M: Math>(m: &M, dem: &Dem, params: &DiscoveryParams, u: int) -> Single {
    score(m, params, slope_of(m, dem, u), roughness_of(m, dem, u), dem.data@[u])
}

/// Whether candidate `u` is ranked ahead of candidate `v`: by score, and in the
/// order of the raster where scores are equal.
pub open spec fn ahead<M: Math>(
    m: &M,
    dem: &Dem,
    params: &DiscoveryParams,
    u: int,
    v: int,
) -> bool {
    let a = score_of(m, dem, params, u).rank();
    let b = score_of(m, dem, params, v).rank();
    a > b || (a == b && u < v)
}

/// Whether positions are ranked, best first.
pub open spec fn best_first<M: Math>(
    m: &M,
    dem: &Dem,
    params: &DiscoveryParams,
    ranking: Seq<int>,
) -> bool {
    forall|i: int, j: int|
        0 <= i < j < ranking.len() ==> ahead(
            m,
            dem,
            params,
            #[trigger] ranking[i],
            #[trigger] ranking[j],
        )
}

/// Whether `ranking` holds the candidates, and no others, best first.
pub open spec fn is_ranking<M: Math>(
    m: &M,
    dem: &Dem,
    params: &DiscoveryParams,
    ranking: Seq<int>,
) -> bool {
    &&& forall|i: int|
        0 <= i < ranking.len() ==> 0 <= #[trigger] ranking[i] < dem.data@.len() && qualifies(
            m,
            dem,
            params,
            ranking[i],
        )
    &&& forall|u: int|
        0 <= u < dem.data@.len() && qualifies(m, dem, params, u) ==> #[trigger] ranking.contains(u)
    &&& best_first(m, dem, params, ranking)
}

/// Whether two positions are closer than the deduplication radius.
pub open spec fn near<M: Math>(
    m: &M,
    dem: &Dem,
    params: &DiscoveryParams,
    u: int,
    v: int,
) -> bool {
    let a = dem.cell_of(u);
    let b = dem.cell_of(v);
    let dr = minus(m, single(m, a.row as i128), single(m, b.row as i128));
    let dc = minus(m, single(m, a.col as i128), single(m, b.col as i128));
    plus(m, times(m, dr, dr), times(m, dc, dc)).below(
        square(m, over(m, params.dedupe_radius_m, dem.cell_size_m)),
    )
}

/// Whether a candidate is near one of those kept.
pub open spec fn crowded<M: Math>(
    m: &M,
    dem: &Dem,
    params: &DiscoveryParams,
    kept: Seq<int>,
    u: int,
) -> bool {
    exists|i: int| 0 <= i < kept.len() && near(m, dem, params, u, #[trigger] kept[i])
}

/// The candidates of a ranking that are kept: in turn, each that is not near
/// one kept before it, while there is room.
pub open spec fn selection<M: Math>(
    m: &M,
    dem: &Dem,
    params: &DiscoveryParams,
    ranking: Seq<int>,
) -> Seq<int>
    decreases ranking.len(),
{
    if ranking.len() == 0 {
        Seq::empty()
    } else {
        let kept = selection(m, dem, params, ranking.drop_last());
        if kept.len() >= params.max_launches || crowded(m, dem, params, kept, ranking.last()) {
            kept
        } else {
            kept.push(ranking.last())
        }
    }
}

/// Whether a launch is the one at position `u`, with this number.
pub open spec fn is_launch_at<M: Math>(
    m: &M,
    dem: &Dem,
    params: &DiscoveryParams,
    launch: Launch,
    u: int,
    id: int,
) -> bool {
    let aspect = aspect_of(m, dem, u);
    let half = params.launch_arc_half_width_deg;
    let turn = Single { bits: FULL_TURN };
    &&& launch.id == id
    &&& launch.cell == dem.cell_of(u)
    &&& launch.altitude_m == dem.data@[u]
    &&& launch.aspect_deg == aspect
    &&& launch.aspect_window_deg.0 == rem(m, plus(m, minus(m, aspect, half), turn), turn)
    &&& launch.aspect_window_deg.1 == rem(m, plus(m, aspect, half), turn)
    &&& launch.slope_deg == slope_of(m, dem, u)
    &&& launch.kind == LaunchKind::AutoDiscovered
    &&& launch.warnings@.len() == 0
}

/// Whether the launches are those kept of a ranking of the candidates.
pub open spec fn is_discovery<M: Math>(
    m: &M,
    dem: &Dem,
    params: &DiscoveryParams,
    ranking: Seq<int>,
    launches: Seq<Launch>,
) -> bool {
    &&& is_ranking(m, dem, params, ranking)
    &&& launches.len() == selection(m, dem, params, ranking).len()
    &&& forall|i: int|
        0 <= i < launches.len() ==> is_launch_at(
            m,
            dem,
            params,
            #[trigger] launches[i],
            selection(m, dem, params, ranking)[i],
            i,
        )
}

/// A candidate: where it is, with slope, aspect and score.
struct Candidate {
    at: usize,
    slope: Single,
    aspect: Single,
    score: Single,
}

/// Whether a candidate is the one at its position.
spec fn is_candidate<M: Math>(m: &M, dem: &Dem, params: &DiscoveryParams, c: Candidate) -> bool {
    &&& c.at < dem.data@.len()
    &&& qualifies(m, dem, params, c.at as int)
    &&& c.slope == slope_of(m, dem, c.at as int)
    &&& c.aspect == aspect_of(m, dem, c.at as int)
    &&& c.score == score_of(m, dem, params, c.at as int)
}

/// The candidates, in the order of the raster.
fn candidates<M: Math>(m: &M, dem: &Dem, params: &DiscoveryParams) -> (r: Vec<Candidate>)
    requires
        steady(m),
        dem.wf(),
    ensures
        forall|i: int| 0 <= i < r@.len() ==> is_candidate(m, dem, params, #[trigger] r@[i]),
        forall|i: int, j: int| 0 <= i < j < r@.len() ==> (#[trigger] r@[i]).at < (#[trigger] r@[j]).at,
        forall|u: int|
            0 <= u < dem.data@.len() && #[trigger] qualifies(m, dem, params, u) ==> exists|i: int|
                0 <= i < r@.len() && (#[trigger] r@[i]).at == u,
{
    let sa = slope_aspect(m, dem);
    let rough = roughness(m, dem);
    let n: usize = dem.data.len();
    let mut out: Vec<Candidate> = Vec::new();
    let mut u: usize = 0;
    while u < n
        invariant
            steady(m),
            dem.wf(),
            n == dem.data@.len(),
            u <= n,
            sa.slope_deg@.len() == n,
            sa.aspect_deg@.len() == n,
            rough@.len() == n,
            forall|v: int| 0 <= v < n ==> #[trigger] sa.slope_deg@[v] == slope_of(m, dem, v),
            forall|v: int| 0 <= v < n ==> #[trigger] sa.aspect_deg@[v] == aspect_of(m, dem, v),
            forall|v: int| 0 <= v < n ==> #[trigger] rough@[v] == roughness_of(m, dem, v),
            forall|i: int|
                0 <= i < out@.len() ==> is_candidate(m, dem, params, #[trigger] out@[i])
                    && out@[i].at < u,
            forall|i: int, j: int|
                0 <= i < j < out@.len() ==> (#[trigger] out@[i]).at < (#[trigger] out@[j]).at,
            forall|v: int|
                0 <= v < u && #[trigger] qualifies(m, dem, params, v) ==> exists|i: int|
                    0 <= i < out@.len() && (#[trigger] out@[i]).at == v,
        decreases n - u,
    {
        let slope = sa.slope_deg[u];
        let aspect = sa.aspect_deg[u];
        let rg = rough[u];
        let altitude = dem.data[u];
        let ghost before = out@;
        if fits(params, slope, aspect, rg, altitude) {
            let sc = score(m, params, slope, rg, altitude);
            out.push(Candidate { at: u, slope, aspect, score: sc });
        }
        proof {
            assert forall|v: int|
                0 <= v < u + 1 && #[trigger] qualifies(m, dem, params, v) implies exists|i: int|
                0 <= i < out@.len() && (#[trigger] out@[i]).at == v by {
                if v < u {
                    let i = choose|i: int| 0 <= i < before.len() && (#[trigger] before[i]).at == v;
                    assert(out@[i].at == v);
                } else {
                    assert(out@[before.len() as int].at == v);
                }
            }
        }
        u = u + 1;
    }
    out
}

/// The candidates of a ranking that are kept.
fn select<M: Math>(
    m: &M,
    dem: &Dem,
    params: &DiscoveryParams,
    cands: &Vec<Candidate>,
    order: &Vec<usize>,
    Ghost(ranking): Ghost<Seq<int>>,
) -> (r: Vec<usize>)
    requires
        steady(m),
        dem.wf(),
        ranking.len() == order@.len(),
        forall|i: int| 0 <= i < cands@.len() ==> (#[trigger] cands@[i]).at < dem.data@.len(),
        forall|i: int|
            0 <= i < order@.len() ==> #[trigger] order@[i] < cands@.len()
                && cands@[order@[i] as int].at == ranking[i],
    ensures
        r@.len() == selection(m, dem, params, ranking).len(),
        r@.len() <= order@.len(),
        forall|i: int|
            0 <= i < r@.len() ==> #[trigger] r@[i] < cands@.len() && cands@[r@[i] as int].at
                == selection(m, dem, params, ranking)[i],
{
    let mut kept: Vec<usize> = Vec::new();
    let r2 = square(m, over(m, params.dedupe_radius_m, dem.cell_size_m));
    let mut i: usize = 0;
    assert(ranking.take(0) =~= Seq::empty());
    while i < order.len()
        invariant
            steady(m),
            dem.wf(),
            r2 == square(m, over(m, params.dedupe_radius_m, dem.cell_size_m)),
            ranking.len() == order@.len(),
            forall|i: int| 0 <= i < cands@.len() ==> (#[trigger] cands@[i]).at < dem.data@.len(),
            forall|i: int|
                0 <= i < order@.len() ==> #[trigger] order@[i] < cands@.len()
                    && cands@[order@[i] as int].at == ranking[i],
            i <= order@.len(),
            kept@.len() == selection(m, dem, params, ranking.take(i as int)).len(),
            kept@.len() <= i,
            forall|k: int|
                0 <= k < kept@.len() ==> #[trigger] kept@[k] < cands@.len()
                    && cands@[kept@[k] as int].at == selection(
                    m,
                    dem,
                    params,
                    ranking.take(i as int),
                )[k],
        decreases order@.len() - i,
    {
        let ghost so_far = selection(m, dem, params, ranking.take(i as int));
        assert(ranking.take(i + 1).drop_last() =~= ranking.take(i as int));
        if kept.len() < params.max_launches {
            let c = &cands[order[i]];
            let cell = dem.cell_at(c.at);
            let mut clash: bool = false;
            let mut k: usize = 0;
            while k < kept.len() && !clash
                invariant
                    steady(m),
                    dem.wf(),
                    r2 == square(m, over(m, params.dedupe_radius_m, dem.cell_size_m)),
                    forall|i: int|
                        0 <= i < cands@.len() ==> (#[trigger] cands@[i]).at < dem.data@.len(),
                    cell == dem.cell_of(c.at as int),
                    kept@.len() == so_far.len(),
                    forall|k: int|
                        0 <= k < kept@.len() ==> #[trigger] kept@[k] < cands@.len()
                            && cands@[kept@[k] as int].at == so_far[k],
                    k <= kept@.len(),
                    clash ==> crowded(m, dem, params, so_far, c.at as int),
                    !clash ==> forall|j: int|
                        0 <= j < k ==> !near(m, dem, params, c.at as int, #[trigger] so_far[j]),
                decreases kept@.len() - k,
            {
                let other = dem.cell_at(cands[kept[k]].at);
                let dr = minus(m, single(m, cell.row as i128), single(m, other.row as i128));
                let dc = minus(m, single(m, cell.col as i128), single(m, other.col as i128));
                assert(cands@[kept@[k as int] as int].at == so_far[k as int]);
                if plus(m, times(m, dr, dr), times(m, dc, dc)).lt(&r2) {
                    assert(near(m, dem, params, c.at as int, so_far[k as int]));
                    clash = true;
                }
                k = k + 1;
            }
            if !clash {
                kept.push(order[i]);
            }
        }
        i = i + 1;
    }
    assert(ranking.take(ranking.len() as int) =~= ranking);
    kept
}

/// Discovers launches: the best candidates, none near a better one that was
/// kept, and no more than there is room for.
pub fn discover<M: Math>(m: &M, dem: &Dem, params: &DiscoveryParams) -> (r: Vec<Launch>)
    requires
        steady(m),
        dem.wf(),
    ensures
        exists|ranking: Seq<int>| #[trigger] is_discovery(m, dem, params, ranking, r@),
        forall|i: int| 0 <= i < r@.len() ==> dem.has_cell((#[trigger] r@[i]).cell),
{
    let cands = candidates(m, dem, params);
    let mut keys: Vec<i128> = Vec::new();
    let mut i: usize = 0;
    while i < cands.len()
        invariant
            i <= cands@.len(),
            keys@.len() == i,
            forall|k: int| 0 <= k < i ==> #[trigger] keys@[k] == -(cands@[k].score.rank()),
        decreases cands@.len() - i,
    {
        keys.push(-(cands[i].score.order() as i128));
        i = i + 1;
    }
    let order = sorted_order(&keys);
    let ghost ranking = Seq::new(order@.len(), |i: int| cands@[order@[i] as int].at as int);
    proof {
        assert forall|i: int| 0 <= i < ranking.len() implies 0 <= #[trigger] ranking[i]
            < dem.data@.len() && qualifies(m, dem, params, ranking[i]) by {
            assert(is_candidate(m, dem, params, cands@[order@[i] as int]));
        }
        assert forall|u: int|
            0 <= u < dem.data@.len() && qualifies(
                m,
                dem,
                params,
                u,
            ) implies #[trigger] ranking.contains(u) by {
            let k = choose|k: int| 0 <= k < cands@.len() && (#[trigger] cands@[k]).at == u;
            assert(order@.contains(k as usize));
            let w = choose|w: int| 0 <= w < order@.len() && order@[w] == k as usize;
            assert(ranking[w] == u);
        }
        assert forall|i: int, j: int| 0 <= i < j < ranking.len() implies ahead(
            m,
            dem,
            params,
            #[trigger] ranking[i],
            #[trigger] ranking[j],
        ) by {
            assert(precedes(keys@, order@[i] as int, order@[j] as int));
            assert(is_candidate(m, dem, params, cands@[order@[i] as int]));
            assert(is_candidate(m, dem, params, cands@[order@[j] as int]));
        }
        assert(is_ranking(m, dem, params, ranking));
        assert forall|i: int| 0 <= i < order@.len() implies #[trigger] order@[i] < cands@.len()
            && cands@[order@[i] as int].at == ranking[i] by {}
    }
    let kept = select(m, dem, params, &cands, &order, Ghost(ranking));
    let ghost chosen = selection(m, dem, params, ranking);
    let half = params.launch_arc_half_width_deg;
    let turn = Single { bits: FULL_TURN };
    let mut out: Vec<Launch> = Vec::new();
    let mut k: usize = 0;
    proof {
        assert(cands@.len() <= dem.data@.len()) by {
            lemma_candidates_fit(m, dem, params, cands@);
        }
    }
    while k < kept.len()
        invariant
            steady(m),
            dem.wf(),
            cands@.len() <= dem.data@.len(),
            kept@.len() <= cands@.len(),
            kept@.len() == chosen.len(),
            half == params.launch_arc_half_width_deg,
            turn.bits == FULL_TURN,
            forall|i: int| 0 <= i < cands@.len() ==> is_candidate(m, dem, params, #[trigger] cands@[i]),
            forall|i: int|
                0 <= i < kept@.len() ==> #[trigger] kept@[i] < cands@.len()
                    && cands@[kept@[i] as int].at == chosen[i],
            k <= kept@.len(),
            out@.len() == k,
            forall|i: int|
                0 <= i < k ==> is_launch_at(m, dem, params, #[trigger] out@[i], chosen[i], i)
                    && dem.has_cell(out@[i].cell),
        decreases kept@.len() - k,
    {
        let c = &cands[kept[k]];
        assert(is_candidate(m, dem, params, cands@[kept@[k as int] as int]));
        let no_warnings: Vec<Warning> = Vec::new();
        let launch = Launch {
            id: k as u32,
            cell: dem.cell_at(c.at),
            altitude_m: dem.data[c.at],
            aspect_deg: c.aspect,
            aspect_window_deg: (
                rem(m, plus(m, minus(m, c.aspect, half), turn), turn),
                rem(m, plus(m, c.aspect, half), turn),
            ),
            slope_deg: c.slope,
            kind: LaunchKind::AutoDiscovered,
            warnings: no_warnings,
        };
        assert(is_launch_at(m, dem, params, launch, chosen[k as int], k as int));
        out.push(launch);
        k = k + 1;
    }
    assert(is_discovery(m, dem, params, ranking, out@));
    out
}

/// Candidates at ascending positions are no more than there are positions.
proof fn lemma_candidates_fit<M: Math>(
    m: &M,
    dem: &Dem,
    params: &DiscoveryParams,
    cands: Seq<Candidate>,
)
    requires
        forall|i: int| 0 <= i < cands.len() ==> is_candidate(m, dem, params, #[trigger] cands[i]),
        forall|i: int, j: int|
            0 <= i < j < cands.len() ==> (#[trigger] cands[i]).at < (#[trigger] cands[j]).at,
    ensures
        cands.len() <= dem.data@.len(),
        cands.len() > 0 ==> cands.last().at >= cands.len() - 1,
    decreases cands.len(),
{
    if cands.len() > 0 {
        let front = cands.drop_last();
        assert forall|i: int| 0 <= i < front.len() implies is_candidate(
            m,
            dem,
            params,
            #[trigger] front[i],
        ) by {
            assert(front[i] == cands[i]);
        }
        assert forall|i: int, j: int| 0 <= i < j < front.len() implies (#[trigger] front[i]).at < (
        #[trigger] front[j]).at by {
            assert(cands[i].at < cands[j].at);
        }
        lemma_candidates_fit(m, dem, params, front);
        assert(is_candidate(m, dem, params, cands[cands.len() - 1]));
        if front.len() > 0 {
            assert(front.last() == cands[cands.len() - 2]);
        }
    }
}

proof fn lemma_selection<M: Math>(m: &M, dem: &Dem, params: &DiscoveryParams, ranking: Seq<int>)
    ensures
        selection(m, dem, params, ranking).len() <= params.max_launches,
        forall|i: int|
            0 <= i < selection(m, dem, params, ranking).len() ==> ranking.contains(
                #[trigger] selection(m, dem, params, ranking)[i],
            ),
        forall|i: int, j: int|
            0 <= i < j < selection(m, dem, params, ranking).len() ==> !near(
                m,
                dem,
                params,
                #[trigger] selection(m, dem, params, ranking)[j],
                #[trigger] selection(m, dem, params, ranking)[i],
            ),
    decreases ranking.len(),
{
    if ranking.len() > 0 {
        let front = ranking.drop_last();
        lemma_selection(m, dem, params, front);
        let kept = selection(m, dem, params, front);
        let all = selection(m, dem, params, ranking);
        assert forall|i: int| 0 <= i < all.len() implies ranking.contains(#[trigger] all[i]) by {
            if i < kept.len() {
                assert(front.contains(kept[i]));
                let w = choose|w: int| 0 <= w < front.len() && front[w] == kept[i];
                assert(ranking[w] == all[i]);
            } else {
                assert(ranking[ranking.len() - 1] == all[i]);
            }
        }
    }
}

/// Every launch qualifies, stands in the raster and is not near one before it;
/// and there are no more launches than there is room for.
pub proof fn launches_qualify_and_are_spaced<M: Math>(
    m: &M,
    dem: &Dem,
    params: &DiscoveryParams,
    ranking: Seq<int>,
    launches: Seq<Launch>,
)
    requires
        dem.wf(),
        is_discovery(m, dem, params, ranking, launches),
    ensures
        launches.len() <= params.max_launches,
        forall|i: int|
            0 <= i < launches.len() ==> dem.has_cell((#[trigger] launches[i]).cell) && qualifies(
                m,
                dem,
                params,
                dem.pos(launches[i].cell),
            ),
        forall|i: int, j: int|
            0 <= i < j < launches.len() ==> !near(
                m,
                dem,
                params,
                dem.pos((#[trigger] launches[j]).cell),
                dem.pos((#[trigger] launches[i]).cell),
            ),
{
    lemma_selection(m, dem, params, ranking);
    let chosen = selection(m, dem, params, ranking);
    assert forall|i: int| 0 <= i < launches.len() implies dem.has_cell(
        (#[trigger] launches[i]).cell,
    ) && dem.pos(launches[i].cell) == chosen[i] && qualifies(m, dem, params, chosen[i]) by {
        assert(is_launch_at(m, dem, params, launches[i], chosen[i], i));
        assert(ranking.contains(chosen[i]));
        let w = choose|w: int| 0 <= w < ranking.len() && ranking[w] == chosen[i];
        assert(0 <= ranking[w] < dem.data@.len());
        lemma_flat_onto(dem.rows as int, dem.cols as int, chosen[i]);
    }
}

/// Whether a candidate is near one of those kept that is ranked ahead of it.
pub open spec fn outdone<M: Math>(
    m: &M,
    dem: &Dem,
    params: &DiscoveryParams,
    kept: Seq<int>,
    u: int,
) -> bool {
    exists|i: int|
        0 <= i < kept.len() && near(m, dem, params, u, #[trigger] kept[i]) && ahead(
            m,
            dem,
            params,
            kept[i],
            u,
        )
}

/// A candidate that is not kept is near a better one that is, unless as many
/// are kept as there is room for.
pub proof fn candidates_are_dropped_for_a_reason<M: Math>(
    m: &M,
    dem: &Dem,
    params: &DiscoveryParams,
    ranking: Seq<int>,
    u: int,
)
    requires
        best_first(m, dem, params, ranking),
        ranking.contains(u),
    ensures
        ({
            let kept = selection(m, dem, params, ranking);
            ||| kept.contains(u)
            ||| outdone(m, dem, params, kept, u)
            ||| kept.len() == params.max_launches
        }),
    decreases ranking.len(),
{
    lemma_selection(m, dem, params, ranking);
    let front = ranking.drop_last();
    let before = selection(m, dem, params, front);
    let kept = selection(m, dem, params, ranking);
    lemma_selection(m, dem, params, front);
    assert(best_first(m, dem, params, front)) by {
        assert forall|i: int, j: int| 0 <= i < j < front.len() implies ahead(
            m,
            dem,
            params,
            #[trigger] front[i],
            #[trigger] front[j],
        ) by {
            assert(ahead(m, dem, params, ranking[i], ranking[j]));
        }
    }
    if ranking.last() == u {
        if before.len() < params.max_launches {
            if crowded(m, dem, params, before, u) {
                let i = choose|i: int|
                    0 <= i < before.len() && near(m, dem, params, u, #[trigger] before[i]);
                assert(front.contains(before[i]));
                let w = choose|w: int| 0 <= w < front.len() && front[w] == before[i];
                assert(ahead(m, dem, params, ranking[w], ranking[ranking.len() - 1]));
                assert(near(m, dem, params, u, kept[i]));
            } else {
                assert(kept[before.len() as int] == u);
            }
        }
    } else {
        let w = choose|w: int| 0 <= w < ranking.len() && ranking[w] == u;
        assert(front[w] == u);
        candidates_are_dropped_for_a_reason(m, dem, params, front, u);
        assert forall|i: int| 0 <= i < before.len() implies kept[i] == #[trigger] before[i] by {}
        if before.contains(u) {
            let i = choose|i: int| 0 <= i < before.len() && before[i] == u;
            assert(kept[i] == u);
        } else if outdone(m, dem, params, before, u) {
            let i = choose|i: int|
                0 <= i < before.len() && near(m, dem, params, u, #[trigger] before[i]) && ahead(
                    m,
                    dem,
                    params,
                    before[i],
                    u,
                );
            assert(near(m, dem, params, u, kept[i]));
        }
    }
}

/// Whether these are a slope in degrees, a roughness of at most eight times
/// what is allowed, and an altitude, as numbers.
pub open spec fn is_spot(
    params: &DiscoveryParams,
    slope: Single,
    rough: Single,
    altitude: Single,
) -> bool {
    &&& params.max_roughness_m.finite() && 0real < value(params.max_roughness_m)
    &&& slope.finite() && 0real <= value(slope) <= 90real
    &&& rough.finite() && 0real <= value(rough) <= 8real * value(params.max_roughness_m)
    &&& altitude.finite() && -65_536real <= value(altitude) <= 65_536real
}

/// What the square of `x`, between 0 and 8, weighs.
spec fn penalty<M: Math>(m: &M, x: Single) -> Single {
    times(m, Single { bits: 0x4248_0000 }, square(m, x))
}

proof fn lemma_penalty<M: Math>(m: &M, rnd: spec_fn(real) -> int, x: Single)
    requires
        rounds(m, rnd),
        squares(m, rnd),
        x.finite(),
        -8real <= value(x) <= 8real,
    ensures
        square(m, x).finite(),
        0real <= value(square(m, x)) <= 64real,
        penalty(m, x).finite(),
        0real <= value(penalty(m, x)) <= 3_200real,
        value(x) == 0real ==> value(penalty(m, x)) == 0real,
        -1real <= value(x) <= 1real ==> value(penalty(m, x)) <= 50real,
        value(x) <= -1real || 1real <= value(x) ==> 50real <= value(penalty(m, x)),
{
    let v = value(x);
    let w = Single { bits: 0x4248_0000 };
    assert(0real <= v * v <= 64real) by (nonlinear_arith)
        requires
            -8real <= v <= 8real,
    ;
    let zero = whole_numbers_are_exact(m, rnd, 0);
    let one = whole_numbers_are_exact(m, rnd, 1);
    let most = whole_numbers_are_exact(m, rnd, 64);
    let fifty = whole_numbers_are_exact(m, rnd, 50);
    let top = whole_numbers_are_exact(m, rnd, 3_200);
    let sq = square(m, x);
    rounding_stays_between(m, rnd, sq, v * v, zero, most);
    lemma2_to64();
    digits_bound_the_value(w, 132, 0xc8_0000, 262_144, 50real, 50real);
    let s = value(sq);
    rounding_stays_between(m, rnd, penalty(m, x), 50real * s, zero, top);
    if v == 0real {
        assert(v * v == 0real) by (nonlinear_arith)
            requires
                v == 0real,
        ;
        rounding_keeps_sides(m, rnd, sq, v * v, zero);
        rounding_keeps_sides(m, rnd, penalty(m, x), 50real * s, zero);
    }
    if -1real <= v <= 1real {
        assert(v * v <= 1real) by (nonlinear_arith)
            requires
                -1real <= v <= 1real,
        ;
        rounding_stays_between(m, rnd, sq, v * v, zero, one);
        rounding_stays_between(m, rnd, penalty(m, x), 50real * s, zero, fifty);
    }
    if v <= -1real || 1real <= v {
        assert(1real <= v * v) by (nonlinear_arith)
            requires
                v <= -1real || 1real <= v,
        ;
        rounding_stays_between(m, rnd, sq, v * v, one, most);
        rounding_stays_between(m, rnd, penalty(m, x), 50real * s, fifty, top);
    }
}

proof fn lemma_penalties<M: Math>(m: &M, rnd: spec_fn(real) -> int, x: Single, y: Single)
    requires
        rounds(m, rnd),
        squares(m, rnd),
        x.finite() && y.finite(),
        -8real <= value(x) <= 8real,
        -8real <= value(y) <= 8real,
        size(value(x)) <= size(value(y)),
    ensures
        value(penalty(m, x)) <= value(penalty(m, y)),
{
    let (v, w) = (value(x), value(y));
    lemma_penalty(m, rnd, x);
    lemma_penalty(m, rnd, y);
    assert(v * v <= w * w) by (nonlinear_arith)
        requires
            size(v) <= size(w),
    ;
    rounding_keeps_order(m, rnd, square(m, x), v * v, square(m, y), w * w);
    values_are_in_order(square(m, x), square(m, y));
    lemma2_to64();
    let f = Single { bits: 0x4248_0000 };
    digits_bound_the_value(f, 132, 0xc8_0000, 262_144, 50real, 50real);
    products_grow(m, rnd, square(m, x), square(m, y), f);
    values_are_in_order(penalty(m, x), penalty(m, y));
}

/// How many times 8 degrees a slope is off 30 degrees.
spec fn tilt<M: Math>(m: &M, slope: Single) -> Single {
    over(m, minus(m, slope, Single { bits: 0x41f0_0000 }), Single { bits: 0x4100_0000 })
}

proof fn lemma_tilt<M: Math>(m: &M, rnd: spec_fn(real) -> int, slope: Single)
    requires
        rounds(m, rnd),
        slope.finite(),
        0real <= value(slope) <= 90real,
    ensures
        (Single { bits: 0x41f0_0000 }).finite() && value(Single { bits: 0x41f0_0000 }) == 30real,
        (Single { bits: 0x4100_0000 }).finite() && value(Single { bits: 0x4100_0000 }) == 8real,
        minus(m, slope, Single { bits: 0x41f0_0000 }).finite(),
        tilt(m, slope).finite(),
        -8real <= value(tilt(m, slope)) <= 8real,
        value(slope) == 30real ==> value(tilt(m, slope)) == 0real,
        size(value(slope) - 30real) <= 8real ==> size(value(tilt(m, slope))) <= 1real,
        8real <= size(value(slope) - 30real) ==> 1real <= size(value(tilt(m, slope))),
{
    let (best, spread) = (Single { bits: 0x41f0_0000 }, Single { bits: 0x4100_0000 });
    lemma2_to64();
    digits_bound_the_value(best, 131, 0xf0_0000, 524_288, 30real, 30real);
    digits_bound_the_value(spread, 130, 0x80_0000, 1_048_576, 8real, 8real);
    let (v, d, t) = (
        value(slope) - 30real,
        minus(m, slope, best),
        tilt(m, slope),
    );
    let zero = whole_numbers_are_exact(m, rnd, 0);
    let low = whole_numbers_are_exact(m, rnd, -64);
    let high = whole_numbers_are_exact(m, rnd, 64);
    let (eight, minus_eight) = (
        whole_numbers_are_exact(m, rnd, 8),
        whole_numbers_are_exact(m, rnd, -8),
    );
    let (one, minus_one) = (
        whole_numbers_are_exact(m, rnd, 1),
        whole_numbers_are_exact(m, rnd, -1),
    );
    rounding_stays_between(m, rnd, d, v, low, high);
    rounding_stays_between(m, rnd, t, value(d) / 8real, minus_eight, eight);
    if v == 0real {
        rounding_keeps_sides(m, rnd, d, v, zero);
        rounding_keeps_sides(m, rnd, t, value(d) / 8real, zero);
    }
    if size(v) <= 8real {
        rounding_stays_between(m, rnd, d, v, minus_eight, eight);
        rounding_stays_between(m, rnd, t, value(d) / 8real, minus_one, one);
    }
    if 8real <= v {
        rounding_stays_between(m, rnd, d, v, eight, high);
        rounding_stays_between(m, rnd, t, value(d) / 8real, one, eight);
    }
    if v <= -8real {
        rounding_stays_between(m, rnd, d, v, low, minus_eight);
        rounding_stays_between(m, rnd, t, value(d) / 8real, minus_eight, minus_one);
    }
}

proof fn lemma_share<M: Math>(
    m: &M,
    rnd: spec_fn(real) -> int,
    params: &DiscoveryParams,
    rough: Single,
)
    requires
        rounds(m, rnd),
        params.max_roughness_m.finite() && 0real < value(params.max_roughness_m),
        rough.finite() && 0real <= value(rough) <= 8real * value(params.max_roughness_m),
    ensures
        over(m, rough, params.max_roughness_m).finite(),
        0real <= value(over(m, rough, params.max_roughness_m)) <= 8real,
        value(rough) == 0real ==> value(over(m, rough, params.max_roughness_m)) == 0real,
        value(rough) <= value(params.max_roughness_m) ==> value(
            over(m, rough, params.max_roughness_m),
        ) <= 1real,
        value(params.max_roughness_m) <= value(rough) ==> 1real <= value(
            over(m, rough, params.max_roughness_m),
        ),
{
    let (r, most) = (value(rough), value(params.max_roughness_m));
    let t = over(m, rough, params.max_roughness_m);
    let zero = whole_numbers_are_exact(m, rnd, 0);
    let one = whole_numbers_are_exact(m, rnd, 1);
    let eight = whole_numbers_are_exact(m, rnd, 8);
    let q = r / most;
    assert(0real <= q <= 8real && (r == 0real ==> q == 0real) && (r <= most ==> q <= 1real) && (
    most <= r ==> 1real <= q)) by (nonlinear_arith)
        requires
            0real < most,
            0real <= r <= 8real * most,
            q == r / most,
    ;
    rounding_stays_between(m, rnd, t, q, zero, eight);
    if r == 0real {
        rounding_keeps_sides(m, rnd, t, q, zero);
    }
    if r <= most {
        rounding_stays_between(m, rnd, t, q, zero, one);
    }
    if most <= r {
        rounding_stays_between(m, rnd, t, q, one, eight);
    }
}

/// Of two spots, the one that is no lower, no further from a slope of 30
/// degrees and no rougher scores no less.
pub proof fn better_spots_score_no_less<M: Math>(
    m: &M,
    rnd: spec_fn(real) -> int,
    params: &DiscoveryParams,
    spot: (Single, Single, Single),
    better: (Single, Single, Single),
)
    requires
        rounds(m, rnd),
        squares(m, rnd),
        is_spot(params, spot.0, spot.1, spot.2),
        is_spot(params, better.0, better.1, better.2),
        size(value(better.0) - 30real) <= size(value(spot.0) - 30real),
        value(better.1) <= value(spot.1),
        value(spot.2) <= value(better.2),
    ensures
        score(m, params, spot.0, spot.1, spot.2).at_most(
            score(m, params, better.0, better.1, better.2),
        ),
{
    let best = Single { bits: 0x41f0_0000 };
    let eight = Single { bits: 0x4100_0000 };
    lemma_tilt(m, rnd, spot.0);
    lemma_tilt(m, rnd, better.0);
    let (d, e) = (minus(m, better.0, best), minus(m, spot.0, best));
    rounding_keeps_sizes(m, rnd, d, value(better.0) - 30real, e, value(spot.0) - 30real);
    rounding_keeps_sizes(
        m,
        rnd,
        tilt(m, better.0),
        value(d) / 8real,
        tilt(m, spot.0),
        value(e) / 8real,
    );
    lemma_penalty(m, rnd, tilt(m, spot.0));
    lemma_penalty(m, rnd, tilt(m, better.0));
    lemma_penalties(m, rnd, tilt(m, better.0), tilt(m, spot.0));
    let most = params.max_roughness_m;
    let (r, s) = (over(m, better.1, most), over(m, spot.1, most));
    lemma_share(m, rnd, params, spot.1);
    lemma_share(m, rnd, params, better.1);
    let (x, y, z) = (value(better.1), value(spot.1), value(most));
    assert(x / z <= y / z) by (nonlinear_arith)
        requires
            x <= y,
            0real < z,
    ;
    rounding_keeps_order(m, rnd, r, x / z, s, y / z);
    values_are_in_order(r, s);
    lemma_penalty(m, rnd, r);
    lemma_penalty(m, rnd, s);
    lemma_penalties(m, rnd, r, s);
    let low = whole_numbers_are_exact(m, rnd, -131_072);
    let high = whole_numbers_are_exact(m, rnd, 131_072);
    let (p, q) = (
        minus(m, spot.2, penalty(m, tilt(m, spot.0))),
        minus(m, better.2, penalty(m, tilt(m, better.0))),
    );
    let (u, v) = (
        value(spot.2) - value(penalty(m, tilt(m, spot.0))),
        value(better.2) - value(penalty(m, tilt(m, better.0))),
    );
    rounding_stays_between(m, rnd, p, u, low, high);
    rounding_stays_between(m, rnd, q, v, low, high);
    rounding_keeps_order(m, rnd, p, u, q, v);
    values_are_in_order(p, q);
    rounding_keeps_order(
        m,
        rnd,
        minus(m, p, penalty(m, s)),
        value(p) - value(penalty(m, s)),
        minus(m, q, penalty(m, r)),
        value(q) - value(penalty(m, r)),
    );
}

/// A smooth spot at a slope of 30 degrees scores its altitude. On smooth ground
/// a slope within 8 degrees of that costs at most 50 meters of altitude, and one
/// further off at least as much.
pub proof fn slopes_off_thirty_cost_altitude<M: Math>(
    m: &M,
    rnd: spec_fn(real) -> int,
    params: &DiscoveryParams,
    slope: Single,
    rough: Single,
    altitude: Single,
)
    requires
        rounds(m, rnd),
        squares(m, rnd),
        is_spot(params, slope, rough, altitude),
        value(rough) == 0real,
    ensures
        ({
            let r = score(m, params, slope, rough, altitude);
            &&& !r.nan()
            &&& value(slope) == 30real ==> r.rank() == altitude.rank()
            &&& size(value(slope) - 30real) <= 8real ==> rnd(value(altitude) - 50real) <= r.rank()
            &&& 8real <= size(value(slope) - 30real) ==> r.rank() <= rnd(value(altitude) - 50real)
        }),
{
    let (t, s) = (tilt(m, slope), over(m, rough, params.max_roughness_m));
    lemma_tilt(m, rnd, slope);
    lemma_share(m, rnd, params, rough);
    lemma_penalty(m, rnd, t);
    lemma_penalty(m, rnd, s);
    let low = whole_numbers_are_exact(m, rnd, -131_072);
    let high = whole_numbers_are_exact(m, rnd, 131_072);
    let p = minus(m, altitude, penalty(m, t));
    let u = value(altitude) - value(penalty(m, t));
    rounding_stays_between(m, rnd, p, u, low, high);
    let r = score(m, params, slope, rough, altitude);
    assert(r == minus(m, p, penalty(m, s)));
    rounding_keeps_sides(m, rnd, r, value(p), p);
    if value(slope) == 30real {
        rounding_keeps_sides(m, rnd, p, u, altitude);
        values_are_in_order(r, altitude);
    }
    values_are_in_order(r, p);
    assert(r.rank() == rnd(u));
}

/// At a slope of 30 degrees, ground that is no rougher than allowed costs at
/// most 50 meters of altitude, and rougher ground at least as much.
pub proof fn rough_ground_costs_altitude<M: Math>(
    m: &M,
    rnd: spec_fn(real) -> int,
    params: &DiscoveryParams,
    slope: Single,
    rough: Single,
    altitude: Single,
)
    requires
        rounds(m, rnd),
        squares(m, rnd),
        is_spot(params, slope, rough, altitude),
        value(slope) == 30real,
    ensures
        ({
            let r = score(m, params, slope, rough, altitude);
            let most = value(params.max_roughness_m);
            &&& !r.nan()
            &&& value(rough) <= most ==> rnd(value(altitude) - 50real) <= r.rank()
            &&& most <= value(rough) ==> r.rank() <= rnd(value(altitude) - 50real)
        }),
{
    let (t, s) = (tilt(m, slope), over(m, rough, params.max_roughness_m));
    lemma_tilt(m, rnd, slope);
    lemma_share(m, rnd, params, rough);
    lemma_penalty(m, rnd, t);
    lemma_penalty(m, rnd, s);
    let p = minus(m, altitude, penalty(m, t));
    rounding_keeps_sides(m, rnd, p, value(altitude), altitude);
    assert(score(m, params, slope, rough, altitude) == minus(m, p, penalty(m, s)));
}

/// By default a launch is on ground that falls by 22 to 38 degrees towards the
/// southern half of the compass and is rough by one and a half meters at most.
pub proof fn launches_are_gentle_slopes_to_the_south(
    params: &DiscoveryParams,
    slope: Single,
    aspect: Single,
    rough: Single,
    altitude: Single,
)
    requires
        call_ensures(DiscoveryParams::default, (), *params),
        slope.finite() && aspect.finite() && rough.finite(),
    ensures
        fits(params, slope, aspect, rough, altitude) <==> {
            &&& altitude.finite()
            &&& 22real <= value(slope) <= 38real
            &&& 90real <= value(aspect) <= 270real
            &&& value(rough) <= 15real / 10real
        },
{
    lemma2_to64();
    let (a, b, c, d, e) = (
        Single { bits: 0x41b0_0000 },
        Single { bits: 0x4218_0000 },
        Single { bits: 0x3fc0_0000 },
        Single { bits: 0x42b4_0000 },
        Single { bits: 0x4387_0000 },
    );
    digits_bound_the_value(a, 131, 0xb0_0000, 524_288, 22real, 22real);
    digits_bound_the_value(b, 132, 0x98_0000, 262_144, 38real, 38real);
    digits_bound_the_value(c, 127, 0xc0_0000, 8_388_608, 15real / 10real, 15real / 10real);
    digits_bound_the_value(d, 133, 0xb4_0000, 131_072, 90real, 90real);
    digits_bound_the_value(e, 135, 0x87_0000, 32_768, 270real, 270real);
    values_are_in_order(slope, a);
    values_are_in_order(b, slope);
    values_are_in_order(c, rough);
    values_are_in_order(d, aspect);
    values_are_in_order(aspect, e);
    values_are_in_order(d, e);
}

/// A candidate is within the bounds that were asked for: slope and roughness
/// between them, both bounds taken along, and the aspect on the way from the
/// first end of the arc clockwise to the second.
pub proof fn candidates_are_within_the_bounds(
    params: &DiscoveryParams,
    slope: Single,
    aspect: Single,
    rough: Single,
    altitude: Single,
)
    requires
        slope.finite() && aspect.finite() && rough.finite() && altitude.finite(),
        params.slope_deg_range.0.finite() && params.slope_deg_range.1.finite(),
        params.aspect_arc.0.finite() && params.aspect_arc.1.finite(),
        params.max_roughness_m.finite(),
        0real <= value(aspect) < 360real,
        0real <= value(params.aspect_arc.0) < 360real,
        0real <= value(params.aspect_arc.1) < 360real,
    ensures
        fits(params, slope, aspect, rough, altitude) <==> {
            &&& value(params.slope_deg_range.0) <= value(slope) <= value(params.slope_deg_range.1)
            &&& value(rough) <= value(params.max_roughness_m)
            &&& clockwise(value(params.aspect_arc.0), value(aspect)) <= clockwise(
                value(params.aspect_arc.0),
                value(params.aspect_arc.1),
            )
        },
{
    values_are_in_order(slope, params.slope_deg_range.0);
    values_are_in_order(params.slope_deg_range.1, slope);
    values_are_in_order(params.max_roughness_m, rough);
    values_are_in_order(params.aspect_arc.0, params.aspect_arc.1);
    values_are_in_order(params.aspect_arc.0, aspect);
    values_are_in_order(aspect, params.aspect_arc.1);
}

/// Degrees clockwise from one bearing to another.
pub open spec fn clockwise(from: real, to: real) -> real {
    if from <= to {
        to - from
    } else {
        to - from + 360real
    }
}

/// Two positions are near each other exactly where fewer cells lie between them,
/// in a straight line, than the radius is long.
pub proof fn near_is_within_the_radius<M: Math>(
    m: &M,
    rnd: spec_fn(real) -> int,
    dem: &Dem,
    params: &DiscoveryParams,
    u: int,
    v: int,
    cells: int,
)
    requires
        rounds(m, rnd),
        squares(m, rnd),
        dem.rows <= 2048 && dem.cols <= 2048,
        dem.wf(),
        0 <= u < dem.data@.len() && 0 <= v < dem.data@.len(),
        dem.cell_size_m.finite() && 0real < value(dem.cell_size_m),
        0 <= cells <= 4096,
        params.dedupe_radius_m.finite(),
        value(params.dedupe_radius_m) == (cells as real) * value(dem.cell_size_m),
    ensures
        near(m, dem, params, u, v) <==> {
            let dr = dem.cell_of(u).row - dem.cell_of(v).row;
            let dc = dem.cell_of(u).col - dem.cell_of(v).col;
            dr * dr + dc * dc < cells * cells
        },
{
    lemma_flat_onto(dem.rows as int, dem.cols as int, u);
    lemma_flat_onto(dem.rows as int, dem.cols as int, v);
    let (a, b) = (dem.cell_of(u), dem.cell_of(v));
    assert(a.row < dem.rows && a.col < dem.cols && b.row < dem.rows && b.col < dem.cols);
    squares_of_distances_are_exact(m, rnd, a, b);
    let (dr, dc) = (a.row - b.row, a.col - b.col);
    assert(dr * dr == (-dr) * (-dr) && dc * dc == (-dc) * (-dc)) by (nonlinear_arith);
    let k = whole_numbers_are_exact(m, rnd, cells);
    let r = over(m, params.dedupe_radius_m, dem.cell_size_m);
    let (c, s) = (cells as real, value(dem.cell_size_m));
    assert((c * s) / s == c) by (nonlinear_arith)
        requires
            0real < s,
    ;
    rounding_keeps_sides(m, rnd, r, c, k);
    assert(0 <= cells * cells <= 0x100_0000) by (nonlinear_arith)
        requires
            0 <= cells <= 4096,
    ;
    let kk = whole_numbers_are_exact(m, rnd, cells * cells);
    assert(c * c == (cells * cells) as real) by (nonlinear_arith)
        requires
            c == cells as real,
    ;
    rounding_keeps_sides(m, rnd, square(m, r), c * c, kk);
    values_are_in_order(squared_apart(m, a, b), square(m, r));
}

/// A launch is usable from half the width of its arc on the one side of its
/// aspect to as much on the other, by the compass: `before` is the aspect less
/// the half width and `after` the aspect with it added, each but for a turn.
pub proof fn launches_open_to_both_sides_of_their_aspect<M: Math>(
    m: &M,
    rnd: spec_fn(real) -> int,
    dem: &Dem,
    params: &DiscoveryParams,
    launch: Launch,
    u: int,
    id: int,
    less: Single,
    before: Single,
    more: Single,
    after: Single,
)
    requires
        rounds(m, rnd),
        leaves(m, rnd),
        is_launch_at(m, dem, params, launch, u, id),
        launch.aspect_deg.finite() && params.launch_arc_half_width_deg.finite(),
        0real <= value(launch.aspect_deg) < 360real,
        0real <= value(params.launch_arc_half_width_deg) < 360real,
        less.finite() && before.finite() && more.finite() && after.finite(),
        value(less) == value(launch.aspect_deg) - value(params.launch_arc_half_width_deg),
        value(before) == value(less) || value(before) == value(less) + 360real,
        0real <= value(before) < 360real,
        value(more) == value(launch.aspect_deg) + value(params.launch_arc_half_width_deg),
        value(after) == value(more) || value(after) == value(more) - 360real,
        0real <= value(after) < 360real,
        value(less) < 0real || exists|up: Single| #[trigger] is_turn_up(less, up),
    ensures
        launch.aspect_window_deg.0.finite(),
        value(launch.aspect_window_deg.0) == value(before),
        launch.aspect_window_deg.1.finite(),
        value(launch.aspect_window_deg.1) == value(after),
{
    turns_in_degrees();
    let (aspect, half) = (launch.aspect_deg, params.launch_arc_half_width_deg);
    let turn = Single { bits: 0x43b4_0000 };
    let a = minus(m, aspect, half);
    rounding_keeps_sides(m, rnd, a, value(less), less);
    let b = plus(m, a, turn);
    if value(less) < 0real {
        rounding_keeps_sides(m, rnd, b, value(less) + 360real, before);
        assert(is_rest(b, turn, 0, value(before)));
    } else {
        let up = choose|up: Single| #[trigger] is_turn_up(less, up);
        rounding_keeps_sides(m, rnd, b, value(less) + 360real, up);
        assert(is_rest(b, turn, 1, value(before)));
    }
    rounding_keeps_sides(m, rnd, rem(m, b, turn), value(before), before);
    let c = plus(m, aspect, half);
    rounding_keeps_sides(m, rnd, c, value(more), more);
    if value(after) == value(more) {
        assert(is_rest(c, turn, 0, value(after)));
    } else {
        assert(is_rest(c, turn, 1, value(after)));
    }
    rounding_keeps_sides(m, rnd, rem(m, c, turn), value(after), after);
}

/// Whether `up` is a number, a full turn above another.
pub open spec fn is_turn_up(x: Single, up: Single) -> bool {
    up.finite() && value(up) == value(x) + 360real
}

} // verus!
