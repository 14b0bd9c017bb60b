//! How launches are reached: on foot from the valleys, by lift, along trails.

use crate::dem::Dem;
use crate::exact::{counts, digits_bound_the_value, values_are_in_order, zero_is_nothing};
use crate::geom::CellIdx;
use crate::hike::{hike_field, is_hike_field, HikeField, HikeParams, SacClass, SIX_HOURS};
use crate::lifts::{Lift, LiftKind};
use crate::math::{steady, Math};
use crate::scalar::Single;
use crate::snap::{lift_endpoints_to_cells, snapped_terrain_is_nearest, LIFT_SNAP_RADIUS};
use crate::trail_graph::{
    cell_to_lv95, dijkstra, is_projection, is_trail_cost, nearest_node, nearest_of,
    project_to_dem_seeds, radius2, TrailGraph,
};
use vstd::arithmetic::power2::lemma2_to64;
use vstd::prelude::*;

verus! {

/// 250: how far a trail may be from where a walk starts.
pub const TRAIL_SNAP_RADIUS: u32 = 0x437a_0000;

/// A walk's start: a cell, and the seconds that it takes to get there.
pub type Seed = (CellIdx, Single);

/// Starts at the trailheads, at no cost.
pub open spec fn valley_seeds_of(trailheads: Seq<CellIdx>) -> Seq<Seed> {
    trailheads.map_values(|c: CellIdx| (c, Single { bits: 0 }))
}

/// Starts that one lift gives: its bottom station, at no cost, and its top
/// station, at the time that the ride takes.
pub open spec fn seeds_of_lift<M: Math>(m: &M, dem: &Dem, lift: &Lift) -> Seq<Seed> {
    if lift.kind == LiftKind::GoodsLift {
        Seq::empty()
    } else {
        match lift_endpoints_to_cells(m, dem, lift) {
            Some((lo, hi, lo_alt, hi_alt)) => {
                let (bottom, top) = if lo_alt.at_most(hi_alt) {
                    (lo, hi)
                } else {
                    (hi, lo)
                };
                seq![(bottom, Single { bits: 0 }), (top, lift.travel_seconds)]
            },
            None => Seq::empty(),
        }
    }
}

/// Starts that the lifts give, in the order of the lifts.
pub open spec fn lift_seeds_of<M: Math>(m: &M, dem: &Dem, lifts: Seq<Lift>) -> Seq<Seed>
    decreases lifts.len(),
{
    if lifts.len() == 0 {
        Seq::empty()
    } else {
        lift_seeds_of(m, dem, lifts.drop_last()) + seeds_of_lift(m, dem, &lifts.last())
    }
}

/// Starts on the trails: the nearest trail node of each start that has one.
pub open spec fn trail_starts<M: Math>(
    m: &M,
    graph: &TrailGraph,
    dem: &Dem,
    seeds: Seq<Seed>,
) -> Seq<(u32, Single)>
    decreases seeds.len(),
{
    if seeds.len() == 0 {
        Seq::empty()
    } else {
        let before = trail_starts(m, graph, dem, seeds.drop_last());
        let (cell, cost) = seeds.last();
        let (e, n) = cell_to_lv95(m, dem, cell);
        match nearest_of(
            m,
            graph.node_pos@,
            e,
            n,
            radius2(m, Single { bits: TRAIL_SNAP_RADIUS }),
        ) {
            Some(i) => before.push((i as u32, cost)),
            None => before,
        }
    }
}

/// Whether these are the starts that trails give: every cell that a trail
/// passes, at the least cost of getting there along trails from the seeds.
pub open spec fn are_trail_seeds<M: Math>(
    m: &M,
    graph: &TrailGraph,
    dem: &Dem,
    seeds: Seq<Seed>,
    found: Seq<Seed>,
) -> bool {
    exists|costs: Seq<Single>|
        #[trigger] is_trail_cost(m, graph, trail_starts(m, graph, dem, seeds), costs)
            && is_projection(m, graph, dem, costs, costs.len() as int, found)
}

/// Whether these are the hiking costs from some seeds and along the trails that
/// pass them.
pub open spec fn is_access<M: Math>(
    m: &M,
    graph: &TrailGraph,
    dem: &Dem,
    seeds: Seq<Seed>,
    costs: Seq<Single>,
) -> bool {
    exists|trails: Seq<Seed>|
        #[trigger] are_trail_seeds(m, graph, dem, seeds, trails) && is_hike_field(
            m,
            dem,
            seeds + trails,
            &HikeParams { default_sac: SacClass::T2, max_cost_seconds: Single { bits: SIX_HOURS } },
            costs,
        )
}

/// Starts at the trailheads.
pub fn valley_seeds(trailheads: &[CellIdx]) -> (r: Vec<Seed>)
    ensures
        r@ == valley_seeds_of(trailheads@),
{
    let mut seeds: Vec<Seed> = Vec::new();
    let mut i: usize = 0;
    while i < trailheads.len()
        invariant
            i <= trailheads@.len(),
            seeds@ == valley_seeds_of(trailheads@.take(i as int)),
        decreases trailheads@.len() - i,
    {
        seeds.push((trailheads[i], Single::zero()));
        assert(valley_seeds_of(trailheads@.take(i + 1)) =~= valley_seeds_of(
            trailheads@.take(i as int),
        ).push((trailheads@[i as int], Single { bits: 0 })));
        i = i + 1;
    }
    assert(trailheads@.take(i as int) =~= trailheads@);
    seeds
}

/// Starts that the lifts give. Goods cables are hazards, not passenger
/// transport, and give none.
pub fn lift_seeds<M: Math>(m: &M, dem: &Dem, lifts: &[Lift]) -> (r: Vec<Seed>)
    requires
        steady(m),
        dem.wf(),
    ensures
        r@ == lift_seeds_of(m, dem, lifts@),
{
    let mut seeds: Vec<Seed> = Vec::new();
    let mut i: usize = 0;
    assert(lifts@.take(0) =~= Seq::empty());
    while i < lifts.len()
        invariant
            steady(m),
            dem.wf(),
            i <= lifts@.len(),
            seeds@ == lift_seeds_of(m, dem, lifts@.take(i as int)),
        decreases lifts@.len() - i,
    {
        let lift = &lifts[i];
        let ghost before = seeds@;
        if lift.kind.is_human_transport() {
            if let Some((lo, hi, lo_alt, hi_alt)) = lift_endpoints_to_cells(m, dem, lift) {
                let (bottom, top) = if lo_alt.le(&hi_alt) {
                    (lo, hi)
                } else {
                    (hi, lo)
                };
                seeds.push((bottom, Single::zero()));
                seeds.push((top, lift.travel_seconds));
            }
        }
        proof {
            assert(lifts@.take(i + 1).drop_last() =~= lifts@.take(i as int));
            assert(seeds@ =~= before + seeds_of_lift(m, dem, lift));
        }
        i = i + 1;
    }
    assert(lifts@.take(i as int) =~= lifts@);
    seeds
}

/// Starts that trails give: Dijkstra on the trail graph from `seeds`, each
/// reached trail node projected onto the DEM.
pub fn trail_seeds<M: Math>(m: &M, graph: &TrailGraph, dem: &Dem, seeds: &[Seed]) -> (r: Vec<Seed>)
    requires
        steady(m),
        graph.wf(),
    ensures
        are_trail_seeds(m, graph, dem, seeds@, r@),
{
    let mut starts: Vec<(u32, Single)> = Vec::new();
    let mut i: usize = 0;
    assert(seeds@.take(0) =~= Seq::empty());
    while i < seeds.len()
        invariant
            steady(m),
            graph.node_pos@.len() <= u32::MAX,
                i <= seeds@.len(),
            starts@ == trail_starts(m, graph, dem, seeds@.take(i as int)),
            forall|k: int|
                0 <= k < starts@.len() ==> (#[trigger] starts@[k]).0 < graph.node_pos@.len(),
        decreases seeds@.len() - i,
    {
        let (cell, cost) = seeds[i];
        let (e, n) = cell_to_lv95(m, dem, cell);
        assert(seeds@.take(i + 1).drop_last() =~= seeds@.take(i as int));
        if let Some(node) = nearest_node(m, graph, e, n, Single { bits: TRAIL_SNAP_RADIUS }) {
            starts.push((node, cost));
        }
        i = i + 1;
    }
    assert(seeds@.take(i as int) =~= seeds@);
    let costs = dijkstra(m, graph, &starts);
    project_to_dem_seeds(m, graph, dem, &costs)
}

/// Trail-aware hike field: Dijkstra on the trail graph from `seeds`, each
/// reached trail node projected onto the DEM, then grid Dijkstra from the seeds
/// and the trail-node seeds.
pub fn access_field<M: Math>(m: &M, graph: &TrailGraph, dem: &Dem, seeds: &Vec<Seed>) -> (r:
    HikeField)
    requires
        steady(m),
        dem.wf(),
        graph.wf(),
    ensures
        is_access(m, graph, dem, seeds@, r.seconds@),
{
    let trails = trail_seeds(m, graph, dem, seeds);
    let mut all: Vec<Seed> = Vec::new();
    let mut i: usize = 0;
    while i < seeds.len()
        invariant
            i <= seeds@.len(),
            all@ == seeds@.take(i as int),
        decreases seeds@.len() - i,
    {
        all.push(seeds[i]);
        i = i + 1;
    }
    let mut k: usize = 0;
    while k < trails.len()
        invariant
            k <= trails@.len(),
            all@ == seeds@ + trails@.take(k as int),
        decreases trails@.len() - k,
    {
        all.push(trails[k]);
        k = k + 1;
    }
    assert(all@ =~= seeds@ + trails@);
    hike_field(m, dem, &all, &HikeParams::default())
}

/// The hike fields with the lifts and without them.
pub fn access_fields<M: Math>(
    m: &M,
    graph: &TrailGraph,
    dem: &Dem,
    trailheads: &[CellIdx],
    lifts: &[Lift],
) -> (r: (HikeField, HikeField))
    requires
        steady(m),
        dem.wf(),
        graph.wf(),
    ensures
        is_access(
            m,
            graph,
            dem,
            valley_seeds_of(trailheads@) + lift_seeds_of(m, dem, lifts@),
            r.0.seconds@,
        ),
        is_access(m, graph, dem, valley_seeds_of(trailheads@), r.1.seconds@),
{
    let valley = valley_seeds(trailheads);
    let by_lift = lift_seeds(m, dem, lifts);
    let mut both: Vec<Seed> = Vec::new();
    let mut i: usize = 0;
    while i < valley.len()
        invariant
            i <= valley@.len(),
            both@ == valley@.take(i as int),
        decreases valley@.len() - i,
    {
        both.push(valley[i]);
        i = i + 1;
    }
    let mut k: usize = 0;
    while k < by_lift.len()
        invariant
            k <= by_lift@.len(),
            both@ == valley@ + by_lift@.take(k as int),
        decreases by_lift@.len() - k,
    {
        both.push(by_lift[k]);
        k = k + 1;
    }
    assert(both@ =~= valley@ + by_lift@);
    (access_field(m, graph, dem, &both), access_field(m, graph, dem, &valley))
}

/// A lift that carries people gives two starts: terrain at no cost, and terrain
/// that is no lower at the time that the ride takes. Other lifts give none.
pub proof fn lifts_start_at_the_bottom<M: Math>(m: &M, dem: &Dem, lift: &Lift)
    requires
        dem.wf(),
    ensures
        lift.kind == LiftKind::GoodsLift ==> seeds_of_lift(m, dem, lift).len() == 0,
        seeds_of_lift(m, dem, lift).len() == 0 || (seeds_of_lift(m, dem, lift).len() == 2 && {
            let (bottom, free) = seeds_of_lift(m, dem, lift)[0];
            let (top, ride) = seeds_of_lift(m, dem, lift)[1];
            &&& free.bits == 0
            &&& ride == lift.travel_seconds
            &&& dem.known(bottom.row as int, bottom.col as int)
            &&& dem.known(top.row as int, top.col as int)
            &&& dem.at(bottom.row as int, bottom.col as int).at_most(
                dem.at(top.row as int, top.col as int),
            )
        }),
{
    let radius = Single { bits: LIFT_SNAP_RADIUS };
    snapped_terrain_is_nearest(m, dem, lift.lower.e, lift.lower.n, radius);
    snapped_terrain_is_nearest(m, dem, lift.upper.e, lift.upper.n, radius);
}

/// Walks start on trails within 250 meters: each seed at the trail node that is
/// nearest to its cell, at the cost of the seed, and none where no node is as
/// near.
pub proof fn trails_start_within_250_meters<M: Math>(
    m: &M,
    graph: &TrailGraph,
    dem: &Dem,
    seeds: Seq<Seed>,
    cell: CellIdx,
    cost: Single,
    radius: Single,
)
    requires
        counts(radius, 250),
    ensures
        ({
            let at = cell_to_lv95(m, dem, cell);
            let before = trail_starts(m, graph, dem, seeds);
            let after = trail_starts(m, graph, dem, seeds.push((cell, cost)));
            match nearest_of(m, graph.node_pos@, at.0, at.1, radius2(m, radius)) {
                Some(i) => after == before.push((i as u32, cost)),
                None => after == before,
            }
        }),
{
    lemma2_to64();
    zero_is_nothing();
    let r = Single { bits: 0x437a_0000 };
    digits_bound_the_value(r, 134, 0xfa_0000, 0x1_0000, 250real, 250real);
    values_are_in_order(r, radius);
    values_are_in_order(Single { bits: 0 }, radius);
    assert(r == radius);
    assert(seeds.push((cell, cost)).drop_last() =~= seeds);
    assert(seeds.push((cell, cost)).last() == (cell, cost));
}

} // verus!
