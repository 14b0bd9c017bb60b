//! Hiking-trail network as a small graph for fast valley-to-summit routing.
//!
//!   1. Build a graph from OSM polyline segments (one node per LV95 vertex,
//!      one edge per consecutive pair, cost by the Swiss signpost formula with
//!      DEM-derived slope).
//!   2. Snap each lift / valley seed onto the nearest trail node, keeping its
//!      initial cost.
//!   3. Propagate costs over the trail graph to get cost-from-valley per trail
//!      node.
//!   4. Project each reached trail node back to a DEM cell and feed it into
//!      `hike_field` as an additional seed.
//!
//! The grid propagation then carries on with off-trail Tobler cost.

use crate::dem::Dem;
use crate::exact::{
    differences_stay_within, digits_bound_the_value, negation_is_exact, picks_are_exact,
    powers_of_two, rounding_keeps_order, rounding_keeps_sides, rounding_stays_between, rounds, size,
    stands_for, truncates, two_to_the_31st, value, values_are_in_order, whole_numbers_are_exact,
    zero_is_nothing,
};
use crate::exact_wide::{
    converts, is_floor_d, is_integer_d, is_nearest_d, rounds_d, stands_for_d, steps_d, value_d,
    wide_one_and_half, wide_quarters_are_exact, wide_roots_grow, wide_roots_keep_sides, wide_rounding_keeps_sides,
    wide_rounding_keeps_sizes, wide_rounding_stays_between, wide_squares_are_exact,
    wide_values_are_in_order, wide_whole_numbers_are_exact,
};
use crate::frontier::{
    attained, better, current, earned, is_run, nodes, offer_settled, propagate, queue_seeded, queued, route, settled, step, wins,
    Network, Rules, Standing,
};
use crate::geom::{CellIdx, HALF};
use crate::heap::{Entry, MaxHeap};
use crate::hike::{milliseconds_read_back, queued_cost, SECONDS_PER_HOUR};
use crate::math::{
    double, floor_d, minus, minus_d, narrow, over, over_d, plus, plus_d, round_d, single, sqrt_d,
    steady, times, times_d, to_i32, to_i64, to_int, to_int_d, widen, Math,
};
use crate::scalar::{Double, Single, MILLI, ONE, THOUSAND};
use crate::trails::TrailSegment;
use std::collections::HashMap;
use vstd::arithmetic::power2::lemma2_to64;
use vstd::multiset::Multiset;
use vstd::prelude::*;

verus! {

/// 0.5 in double precision.
pub const HALF_D: u64 = 0x3fe0_0000_0000_0000;

/// 4000: meters per hour on the level.
pub const LEVEL_M_PER_HOUR: u32 = 0x457a_0000;

/// 400: meters of ascent per hour.
pub const ASCENT_M_PER_HOUR: u32 = 0x43c8_0000;

/// 600: meters of descent per hour.
pub const DESCENT_M_PER_HOUR: u32 = 0x4416_0000;

#[derive(Debug)]
pub struct TrailGraph {
    /// LV95 (e, n) of each node.
    pub node_pos: Vec<(Double, Double)>,
    /// (from_idx, to_idx, seconds_to_traverse).
    pub edges: Vec<(u32, u32, Single)>,
    /// Edge indices touching each node.
    pub adj: Vec<Vec<u32>>,
}

/// One straight piece of a trail: where it starts and where it ends, LV95.
pub type Leg = ((Double, Double), (Double, Double));

/// The straight pieces of a polyline.
pub open spec fn legs_of(points: Seq<[Double; 2]>) -> Seq<Leg> {
    Seq::new(
        if points.len() < 2 {
            0
        } else {
            (points.len() - 1) as nat
        },
        |i: int| ((points[i][0], points[i][1]), (points[i + 1][0], points[i + 1][1])),
    )
}

/// The straight pieces of all trails, in order.
pub open spec fn all_legs(trails: Seq<TrailSegment>) -> Seq<Leg>
    decreases trails.len(),
{
    if trails.len() == 0 {
        Seq::empty()
    } else {
        all_legs(trails.drop_last()) + legs_of(trails.last().points@)
    }
}

/// A position to the whole meter. Points with the same key are one node.
pub open spec fn node_key<M: Math>(m: &M, p: (Double, Double)) -> (i64, i64) {
    (to_i64(to_int_d(m, round_d(m, p.0))), to_i64(to_int_d(m, round_d(m, p.1))))
}

/// Whether one of the nodes is the point `p`.
pub open spec fn has_node<M: Math>(m: &M, nodes: Seq<(Double, Double)>, p: (Double, Double)) -> bool {
    exists|i: int| 0 <= i < nodes.len() && node_key(m, #[trigger] nodes[i]) == node_key(m, p)
}

/// The node that the point `p` is.
pub open spec fn node_of<M: Math>(m: &M, nodes: Seq<(Double, Double)>, p: (Double, Double)) -> int {
    choose|i: int| 0 <= i < nodes.len() && node_key(m, #[trigger] nodes[i]) == node_key(m, p)
}

/// The nodes with `p` among them: added at the end where it is new.
pub open spec fn enter<M: Math>(
    m: &M,
    nodes: Seq<(Double, Double)>,
    p: (Double, Double),
) -> Seq<(Double, Double)> {
    if has_node(m, nodes, p) {
        nodes
    } else {
        nodes.push(p)
    }
}

/// The nodes of some legs, in the order in which the legs come to them.
pub open spec fn nodes_of<M: Math>(m: &M, legs: Seq<Leg>) -> Seq<(Double, Double)>
    decreases legs.len(),
{
    if legs.len() == 0 {
        Seq::empty()
    } else {
        enter(m, enter(m, nodes_of(m, legs.drop_last()), legs.last().0), legs.last().1)
    }
}

/// Length of a leg in meters.
pub open spec fn leg_length<M: Math>(m: &M, leg: Leg) -> Single {
    let dx = minus_d(m, leg.1.0, leg.0.0);
    let dy = minus_d(m, leg.1.1, leg.0.1);
    narrow(m, sqrt_d(m, plus_d(m, times_d(m, dx, dx), times_d(m, dy, dy))))
}

/// Terrain altitude at a point, 0 where it is not known.
pub open spec fn altitude_or_zero<M: Math>(m: &M, dem: &Dem, p: (Double, Double)) -> Single {
    match lv95_to_alt(m, dem, p.0, p.1) {
        Some(z) => z,
        None => Single { bits: 0 },
    }
}

/// Seconds that a leg takes by the Swiss signpost formula: 4 km/h on the level,
/// 400 m/h up, 600 m/h down; the longer of the two times and half the shorter.
pub open spec fn leg_seconds<M: Math>(m: &M, dem: &Dem, leg: Leg) -> Single {
    let dz = minus(m, altitude_or_zero(m, dem, leg.1), altitude_or_zero(m, dem, leg.0));
    let horiz_h = over(m, leg_length(m, leg), Single { bits: LEVEL_M_PER_HOUR });
    let vert_h = if (Single { bits: 0 }).at_most(dz) {
        over(m, dz, Single { bits: ASCENT_M_PER_HOUR })
    } else {
        over(m, dz.neg(), Single { bits: DESCENT_M_PER_HOUR })
    };
    let total_h = plus(
        m,
        horiz_h.max(vert_h),
        times(m, horiz_h.min(vert_h), Single { bits: HALF }),
    );
    times(m, times(m, total_h, Single { bits: SECONDS_PER_HOUR }), Single { bits: ONE })
}

/// The edge that a leg makes between its nodes, if it leads from one node to
/// another and is not shorter than half a meter.
pub open spec fn edge_of<M: Math>(
    m: &M,
    dem: &Dem,
    nodes: Seq<(Double, Double)>,
    leg: Leg,
) -> Option<(u32, u32, Single)> {
    let a = node_of(m, nodes, leg.0);
    let b = node_of(m, nodes, leg.1);
    if a == b || leg_length(m, leg).below(Single { bits: HALF }) {
        None
    } else {
        Some((a as u32, b as u32, leg_seconds(m, dem, leg)))
    }
}

/// The edges of some legs, in order.
pub open spec fn edges_of<M: Math>(m: &M, dem: &Dem, legs: Seq<Leg>) -> Seq<(u32, u32, Single)>
    decreases legs.len(),
{
    if legs.len() == 0 {
        Seq::empty()
    } else {
        let before = edges_of(m, dem, legs.drop_last());
        match edge_of(m, dem, nodes_of(m, legs), legs.last()) {
            Some(edge) => before.push(edge),
            None => before,
        }
    }
}

/// The indices of the edges that touch node `u`, in order.
pub open spec fn touching(edges: Seq<(u32, u32, Single)>, u: int) -> Seq<u32>
    decreases edges.len(),
{
    if edges.len() == 0 {
        Seq::empty()
    } else {
        let before = touching(edges.drop_last(), u);
        let id = (edges.len() - 1) as u32;
        let with_start = if edges.last().0 == u {
            before.push(id)
        } else {
            before
        };
        if edges.last().1 == u {
            with_start.push(id)
        } else {
            with_start
        }
    }
}

impl TrailGraph {
    /// Whether edges lead between nodes and every node knows edges of the
    /// graph.
    pub open spec fn wf(self) -> bool {
        &&& self.node_pos@.len() <= u32::MAX
        &&& self.adj@.len() == self.node_pos@.len()
        &&& forall|i: int|
            0 <= i < self.edges@.len() ==> (#[trigger] self.edges@[i]).0 < self.node_pos@.len()
                && self.edges@[i].1 < self.node_pos@.len()
        &&& forall|u: int, k: int|
            0 <= u < self.adj@.len() && 0 <= k < self.adj@[u]@.len() ==> #[trigger] self.adj@[u]@[k]
                < self.edges@.len()
    }
}

/// Cell that a point lies in: the nearest cell center, if the raster has it.
pub open spec fn spec_lv95_to_cell<M: Math>(m: &M, dem: &Dem, e: Double, n: Double) -> Option<
    CellIdx,
> {
    let cs = widen(m, dem.cell_size_m);
    let half = Double { bits: HALF_D };
    let col = to_i32(
        to_int_d(m, floor_d(m, plus_d(m, over_d(m, minus_d(m, e, dem.origin.e), cs), half))),
    );
    let row = to_i32(
        to_int_d(m, floor_d(m, plus_d(m, over_d(m, minus_d(m, dem.origin.n, n), cs), half))),
    );
    if dem.has(row as int, col as int) && dem.rows <= i32::MAX && dem.cols <= i32::MAX {
        Some(CellIdx { row: row as u32, col: col as u32 })
    } else {
        None
    }
}

#[verifier::when_used_as_spec(spec_lv95_to_cell)]
pub fn lv95_to_cell<M: Math>(m: &M, dem: &Dem, e: Double, n: Double) -> (r: Option<CellIdx>)
    requires
        steady(m),
    ensures
        r == lv95_to_cell(m, dem, e, n),
        r matches Some(c) ==> dem.has_cell(c),
{
    let cs = widen(m, dem.cell_size_m);
    let half = Double { bits: HALF_D };
    let col: i32 = to_i32(
        to_int_d(m, floor_d(m, plus_d(m, over_d(m, minus_d(m, e, dem.origin.e), cs), half))),
    );
    let row: i32 = to_i32(
        to_int_d(m, floor_d(m, plus_d(m, over_d(m, minus_d(m, dem.origin.n, n), cs), half))),
    );
    if dem.in_bounds(row, col) {
        Some(CellIdx::new(row as u32, col as u32))
    } else {
        None
    }
}

/// Terrain altitude of the cell that a point lies in.
pub open spec fn spec_lv95_to_alt<M: Math>(m: &M, dem: &Dem, e: Double, n: Double) -> Option<
    Single,
> {
    match lv95_to_cell(m, dem, e, n) {
        Some(c) => if dem.known(c.row as int, c.col as int) {
            Some(dem.at(c.row as int, c.col as int))
        } else {
            None
        },
        None => None,
    }
}

/// Terrain altitude of the cell that a point lies in.
#[verifier::when_used_as_spec(spec_lv95_to_alt)]
pub fn lv95_to_alt<M: Math>(m: &M, dem: &Dem, e: Double, n: Double) -> (r: Option<Single>)
    requires
        steady(m),
        dem.wf(),
    ensures
        r == lv95_to_alt(m, dem, e, n),
{
    match lv95_to_cell(m, dem, e, n) {
        Some(c) => dem.get(c.row, c.col),
        None => None,
    }
}

/// LV95 of a cell's center.
pub open spec fn spec_cell_to_lv95<M: Math>(m: &M, dem: &Dem, cell: CellIdx) -> (Double, Double) {
    let cs = widen(m, dem.cell_size_m);
    (
        plus_d(m, dem.origin.e, times_d(m, double(m, cell.col as i128), cs)),
        minus_d(m, dem.origin.n, times_d(m, double(m, cell.row as i128), cs)),
    )
}

/// LV95 of a cell's center.
#[verifier::when_used_as_spec(spec_cell_to_lv95)]
pub fn cell_to_lv95<M: Math>(m: &M, dem: &Dem, cell: CellIdx) -> (r: (Double, Double))
    requires
        steady(m),
    ensures
        r == cell_to_lv95(m, dem, cell),
{
    let cs = widen(m, dem.cell_size_m);
    (
        plus_d(m, dem.origin.e, times_d(m, double(m, cell.col as i128), cs)),
        minus_d(m, dem.origin.n, times_d(m, double(m, cell.row as i128), cs)),
    )
}

/// A pair of coordinates as one number.
spec fn code(k: (i64, i64)) -> int {
    (k.0 + 0x8000_0000_0000_0000) * 0x1_0000_0000_0000_0000 + (k.1 + 0x8000_0000_0000_0000)
}

proof fn lemma_code_unique(a: (i64, i64), b: (i64, i64))
    requires
        code(a) == code(b),
    ensures
        a == b,
{
}

fn encode(a: i64, b: i64) -> (r: u128)
    ensures
        r == code((a, b)),
{
    let hi: u128 = (a as i128 + 0x8000_0000_0000_0000) as u128;
    let lo: u128 = (b as i128 + 0x8000_0000_0000_0000) as u128;
    assert(hi <= 0xffff_ffff_ffff_ffff && lo <= 0xffff_ffff_ffff_ffff);
    hi * 0x1_0000_0000_0000_0000 + lo
}

/// Whether the index finds every node by its key, and nothing else.
spec fn indexes<M: Math>(m: &M, index: Map<u128, u32>, nodes: Seq<(Double, Double)>) -> bool {
    &&& forall|i: int|
        0 <= i < nodes.len() ==> index.contains_key(
            code(node_key(m, #[trigger] nodes[i])) as u128,
        ) && index[code(node_key(m, nodes[i])) as u128] == i
    &&& forall|c: u128| #[trigger]
        index.contains_key(c) ==> index[c] < nodes.len() && code(
            node_key(m, nodes[index[c] as int]),
        ) == c
}

/// The node that point `p` is, entered where it is new.
fn enter_node<M: Math>(
    m: &M,
    index: &mut HashMap<u128, u32>,
    nodes: &mut Vec<(Double, Double)>,
    p: (Double, Double),
) -> (r: u32)
    requires
        steady(m),
        indexes(m, old(index)@, old(nodes)@),
        old(nodes)@.len() < u32::MAX,
    ensures
        final(nodes)@ == enter(m, old(nodes)@, p),
        indexes(m, final(index)@, final(nodes)@),
        r < final(nodes)@.len(),
        r == node_of(m, final(nodes)@, p),
        node_key(m, final(nodes)@[r as int]) == node_key(m, p),
{
    broadcast use vstd::std_specs::hash::group_hash_axioms;

    let ghost key = node_key(m, p);
    let c: u128 = encode(
        to_i64(to_int_d(m, round_d(m, p.0))),
        to_i64(to_int_d(m, round_d(m, p.1))),
    );
    assert(c == code(key));
    match index.get(&c) {
        Some(i) => {
            let r: u32 = *i;
            proof {
                lemma_code_unique(node_key(m, nodes@[r as int]), key);
                let j = node_of(m, nodes@, p);
                assert(has_node(m, nodes@, p));
                assert(index@[code(node_key(m, nodes@[j])) as u128] == j);
            }
            r
        },
        None => {
            proof {
                if has_node(m, nodes@, p) {
                    let j = node_of(m, nodes@, p);
                    assert(index@.contains_key(code(node_key(m, nodes@[j])) as u128));
                }
            }
            let ghost nodes0 = nodes@;
            let ghost index0 = index@;
            let r: u32 = nodes.len() as u32;
            nodes.push(p);
            index.insert(c, r);
            proof {
                assert forall|i: int| 0 <= i < nodes@.len() implies index@.contains_key(
                    code(node_key(m, #[trigger] nodes@[i])) as u128,
                ) && index@[code(node_key(m, nodes@[i])) as u128] == i by {
                    if i < nodes0.len() {
                        assert(nodes@[i] == nodes0[i]);
                        assert(index0.contains_key(code(node_key(m, nodes0[i])) as u128));
                        if code(node_key(m, nodes0[i])) as u128 == c {
                            assert(false);
                        }
                    }
                }
                assert forall|d: u128| #[trigger] index@.contains_key(d) implies index@[d]
                    < nodes@.len() && code(node_key(m, nodes@[index@[d] as int])) == d by {
                    if d != c {
                        assert(index0.contains_key(d));
                        assert(nodes@[index@[d] as int] == nodes0[index0[d] as int]);
                    }
                }
                assert(node_key(m, nodes@[r as int]) == key);
                let j = node_of(m, nodes@, p);
                assert(has_node(m, nodes@, p));
                assert(index@[code(node_key(m, nodes@[j])) as u128] == j);
            }
            r
        },
    }
}

proof fn lemma_counts<M: Math>(m: &M, dem: &Dem, legs: Seq<Leg>)
    ensures
        nodes_of(m, legs).len() <= 2 * legs.len(),
        edges_of(m, dem, legs).len() <= legs.len(),
    decreases legs.len(),
{
    if legs.len() > 0 {
        lemma_counts(m, dem, legs.drop_last());
    }
}

proof fn lemma_legs_grow(trails: Seq<TrailSegment>, i: int)
    requires
        0 <= i <= trails.len(),
    ensures
        all_legs(trails.take(i)).len() <= all_legs(trails).len(),
    decreases trails.len() - i,
{
    if i < trails.len() {
        lemma_legs_grow(trails, i + 1);
        assert(trails.take(i + 1).drop_last() =~= trails.take(i));
    } else {
        assert(trails.take(i) =~= trails);
    }
}

/// The edge that a leg makes between nodes `a` and `b`.
fn make_edge<M: Math>(
    m: &M,
    dem: &Dem,
    leg: Leg,
    a: u32,
    b: u32,
    Ghost(nodes): Ghost<Seq<(Double, Double)>>,
) -> (r: Option<(u32, u32, Single)>)
    requires
        steady(m),
        dem.wf(),
        a == node_of(m, nodes, leg.0),
        b == node_of(m, nodes, leg.1),
    ensures
        r == edge_of(m, dem, nodes, leg),
{
    if a == b {
        return None;
    }
    let ((e1, n1), (e2, n2)) = leg;
    let dx = minus_d(m, e2, e1);
    let dy = minus_d(m, n2, n1);
    let dist_m = narrow(m, sqrt_d(m, plus_d(m, times_d(m, dx, dx), times_d(m, dy, dy))));
    if dist_m.lt(&Single { bits: HALF }) {
        return None;
    }
    let z1 = match lv95_to_alt(m, dem, e1, n1) {
        Some(z) => z,
        None => Single::zero(),
    };
    let z2 = match lv95_to_alt(m, dem, e2, n2) {
        Some(z) => z,
        None => Single::zero(),
    };
    let dz = minus(m, z2, z1);
    let horiz_h = over(m, dist_m, Single { bits: LEVEL_M_PER_HOUR });
    let vert_h = if Single::zero().le(&dz) {
        over(m, dz, Single { bits: ASCENT_M_PER_HOUR })
    } else {
        over(m, dz.neg(), Single { bits: DESCENT_M_PER_HOUR })
    };
    let total_h = plus(
        m,
        horiz_h.max(vert_h),
        times(m, horiz_h.min(vert_h), Single { bits: HALF }),
    );
    let seconds = times(
        m,
        times(m, total_h, Single { bits: SECONDS_PER_HOUR }),
        Single { bits: ONE },
    );
    Some((a, b, seconds))
}

/// Builds the graph of some trails.
pub fn build<M: Math>(m: &M, trails: &[TrailSegment], dem: &Dem) -> (r: TrailGraph)
    requires
        steady(m),
        dem.wf(),
        all_legs(trails@).len() <= 0x7fff_ffff,
    ensures
        r.wf(),
        r.node_pos@ == nodes_of(m, all_legs(trails@)),
        r.edges@ == edges_of(m, dem, all_legs(trails@)),
        forall|u: int| 0 <= u < r.adj@.len() ==> (#[trigger] r.adj@[u])@ == touching(r.edges@, u),
{
    broadcast use vstd::std_specs::hash::group_hash_axioms;

    let mut index: HashMap<u128, u32> = HashMap::new();
    let mut node_pos: Vec<(Double, Double)> = Vec::new();
    let mut edges: Vec<(u32, u32, Single)> = Vec::new();
    let ghost mut done: Seq<Leg> = Seq::empty();
    proof {
        assert(trails@.take(0) =~= Seq::empty());
    }
    let mut i: usize = 0;
    while i < trails.len()
        invariant
            steady(m),
            dem.wf(),
            i <= trails@.len(),
            all_legs(trails@).len() <= 0x7fff_ffff,
            done == all_legs(trails@.take(i as int)),
            indexes(m, index@, node_pos@),
            node_pos@ == nodes_of(m, done),
            edges@ == edges_of(m, dem, done),
            forall|j: int|
                0 <= j < edges@.len() ==> (#[trigger] edges@[j]).0 < node_pos@.len() && edges@[j].1
                    < node_pos@.len(),
        decreases trails@.len() - i,
    {
        let points = &trails[i].points;
        let ghost before = done;
        let ghost legs = legs_of(points@);
        proof {
            assert(trails@.take(i + 1).drop_last() =~= trails@.take(i as int));
            lemma_legs_grow(trails@, i + 1);
            assert(before + legs.take(0) =~= before);
        }
        let mut j: usize = 1;
        while j < points.len()
            invariant
                steady(m),
                dem.wf(),
                legs == legs_of(points@),
                (before + legs).len() <= 0x7fff_ffff,
                1 <= j,
                j <= points@.len() || points@.len() == 0,
                points@.len() == 0 ==> j == 1,
                done == before + legs.take(j - 1),
                indexes(m, index@, node_pos@),
                node_pos@ == nodes_of(m, done),
                edges@ == edges_of(m, dem, done),
                forall|j: int|
                    0 <= j < edges@.len() ==> (#[trigger] edges@[j]).0 < node_pos@.len()
                        && edges@[j].1 < node_pos@.len(),
            decreases points@.len() - j,
        {
            let p1 = (points[j - 1][0], points[j - 1][1]);
            let p2 = (points[j][0], points[j][1]);
            let leg: Leg = (p1, p2);
            proof {
                lemma_counts(m, dem, done);
                assert(leg == legs[j - 1]);
            }
            let a: u32 = enter_node(m, &mut index, &mut node_pos, p1);
            let ghost mid = node_pos@;
            let b: u32 = enter_node(m, &mut index, &mut node_pos, p2);
            proof {
                assert(node_pos@[a as int] == mid[a as int]);
                assert(has_node(m, node_pos@, p1));
                let c = node_of(m, node_pos@, p1);
                assert(index@[code(node_key(m, node_pos@[c])) as u128] == c);
                assert(index@[code(node_key(m, node_pos@[a as int])) as u128] == a);
                let next = done.push(leg);
                assert(next.drop_last() =~= done);
                assert(next =~= before + legs.take(j as int));
                done = next;
            }
            if let Some(edge) = make_edge(m, dem, leg, a, b, Ghost(node_pos@)) {
                edges.push(edge);
            }
            j = j + 1;
        }
        proof {
            assert(legs.take(legs.len() as int) =~= legs);
            assert(done =~= all_legs(trails@.take(i + 1)));
        }
        i = i + 1;
    }
    proof {
        assert(trails@.take(trails@.len() as int) =~= trails@);
        lemma_counts(m, dem, done);
    }
    let adj = adjacency(node_pos.len(), &edges);
    TrailGraph { node_pos, edges, adj }
}

/// A list of edges with every entry below the number of edges.
spec fn ids_below(ids: Seq<u32>, n: int) -> bool {
    forall|k: int| 0 <= k < ids.len() ==> (#[trigger] ids[k]) < n
}

/// The edge indices touching each of `n` nodes.
fn adjacency(n: usize, edges: &Vec<(u32, u32, Single)>) -> (r: Vec<Vec<u32>>)
    requires
        edges@.len() <= u32::MAX,
        forall|j: int|
            0 <= j < edges@.len() ==> (#[trigger] edges@[j]).0 < n && edges@[j].1 < n,
    ensures
        r@.len() == n,
        forall|u: int| 0 <= u < n ==> (#[trigger] r@[u])@ == touching(edges@, u),
        forall|u: int, k: int|
            0 <= u < n && 0 <= k < r@[u]@.len() ==> #[trigger] r@[u]@[k] < edges@.len(),
{
    let mut adj: Vec<Vec<u32>> = Vec::new();
    while adj.len() < n
        invariant
            adj@.len() <= n,
            forall|u: int| 0 <= u < adj@.len() ==> (#[trigger] adj@[u])@.len() == 0,
        decreases n - adj@.len(),
    {
        adj.push(Vec::new());
    }
    assert forall|u: int| 0 <= u < n implies (#[trigger] adj@[u])@ == touching(
        edges@.take(0),
        u,
    ) && ids_below(adj@[u]@, 0) by {
        assert(adj@[u]@ =~= Seq::empty());
    }
    let mut id: usize = 0;
    while id < edges.len()
        invariant
            edges@.len() <= u32::MAX,
            forall|j: int|
                0 <= j < edges@.len() ==> (#[trigger] edges@[j]).0 < n && edges@[j].1 < n,
            adj@.len() == n,
            id <= edges@.len(),
            forall|u: int|
                0 <= u < n ==> (#[trigger] adj@[u])@ == touching(edges@.take(id as int), u)
                    && ids_below(adj@[u]@, id as int),
        decreases edges@.len() - id,
    {
        let ghost adj0 = adj@;
        let (a, b, _) = edges[id];
        adj[a as usize].push(id as u32);
        let ghost adj1 = adj@;
        adj[b as usize].push(id as u32);
        proof {
            let seen = edges@.take(id + 1);
            assert(seen.drop_last() =~= edges@.take(id as int));
            assert(adj1[a as int]@ == adj0[a as int]@.push(id as u32));
            assert(adj@[b as int]@ == adj1[b as int]@.push(id as u32));
            assert forall|u: int| 0 <= u < n implies (#[trigger] adj@[u])@ == touching(seen, u)
                && ids_below(adj@[u]@, id + 1) by {
                assert(adj0[u]@ == touching(edges@.take(id as int), u));
                if u != a {
                    assert(adj1[u] == adj0[u]);
                }
                if u != b {
                    assert(adj@[u] == adj1[u]);
                }
            }
        }
        id = id + 1;
    }
    assert(edges@.take(edges@.len() as int) =~= edges@);
    assert forall|u: int, k: int| 0 <= u < n && 0 <= k < adj@[u]@.len() implies #[trigger] adj@[u]@[k]
        < edges@.len() by {
        assert(ids_below(adj@[u]@, edges@.len() as int));
    }
    adj
}

/// Square of the distance of a node from a point.
pub open spec fn distance2<M: Math>(m: &M, node: (Double, Double), e: Double, n: Double) -> Double {
    let dx = minus_d(m, node.0, e);
    let dy = minus_d(m, node.1, n);
    plus_d(m, times_d(m, dx, dx), times_d(m, dy, dy))
}

/// Square of a radius.
pub open spec fn radius2<M: Math>(m: &M, max_radius_m: Single) -> Double {
    widen(m, times(m, max_radius_m, max_radius_m))
}

/// The nearest of some nodes to a point, within a radius: the first of those
/// at the least distance.
pub open spec fn nearest_of<M: Math>(
    m: &M,
    nodes: Seq<(Double, Double)>,
    e: Double,
    n: Double,
    r2: Double,
) -> Option<int>
    decreases nodes.len(),
{
    if nodes.len() == 0 {
        None
    } else {
        let before = nearest_of(m, nodes.drop_last(), e, n, r2);
        let d2 = distance2(m, nodes.last(), e, n);
        if r2.below(d2) {
            before
        } else {
            match before {
                Some(i) => if distance2(m, nodes[i], e, n).at_most(d2) {
                    before
                } else {
                    Some(nodes.len() - 1)
                },
                None => Some(nodes.len() - 1),
            }
        }
    }
}

proof fn lemma_nearest_in_range<M: Math>(
    m: &M,
    nodes: Seq<(Double, Double)>,
    e: Double,
    n: Double,
    r2: Double,
)
    ensures
        nearest_of(m, nodes, e, n, r2) matches Some(i) ==> 0 <= i < nodes.len(),
    decreases nodes.len(),
{
    if nodes.len() > 0 {
        lemma_nearest_in_range(m, nodes.drop_last(), e, n, r2);
    }
}

/// Where distances and radius are numbers, the nearest node is in reach, no
/// node in reach is nearer, and none before it is as near; and there is none
/// only where no node is in reach.
pub proof fn nearest_is_nearest<M: Math>(
    m: &M,
    nodes: Seq<(Double, Double)>,
    e: Double,
    n: Double,
    r2: Double,
)
    requires
        !r2.nan(),
        forall|j: int| 0 <= j < nodes.len() ==> !distance2(m, #[trigger] nodes[j], e, n).nan(),
    ensures
        match nearest_of(m, nodes, e, n, r2) {
            Some(i) => {
                &&& 0 <= i < nodes.len()
                &&& distance2(m, nodes[i], e, n).at_most(r2)
                &&& forall|j: int|
                    0 <= j < nodes.len() ==> distance2(m, nodes[i], e, n).at_most(
                        distance2(m, #[trigger] nodes[j], e, n),
                    )
                &&& forall|j: int|
                    0 <= j < i ==> distance2(m, nodes[i], e, n).below(
                        distance2(m, #[trigger] nodes[j], e, n),
                    )
            },
            None => forall|j: int|
                0 <= j < nodes.len() ==> r2.below(distance2(m, #[trigger] nodes[j], e, n)),
        },
    decreases nodes.len(),
{
    if nodes.len() > 0 {
        let front = nodes.drop_last();
        assert forall|j: int| 0 <= j < front.len() implies !distance2(
            m,
            #[trigger] front[j],
            e,
            n,
        ).nan() by {
            assert(front[j] == nodes[j]);
        }
        nearest_is_nearest(m, front, e, n, r2);
        assert(nodes.last() == nodes[nodes.len() - 1]);
        let before = nearest_of(m, front, e, n, r2);
        assert forall|j: int| 0 <= j < front.len() implies #[trigger] nodes[j] == front[j] by {}
        if before is None {
            assert forall|j: int| 0 <= j < front.len() implies r2.below(
                distance2(m, #[trigger] nodes[j], e, n),
            ) by {
                assert(front[j] == nodes[j]);
            }
        }
    }
}

/// The trail node nearest to a point, within a radius.
pub fn nearest_node<M: Math>(
    m: &M,
    graph: &TrailGraph,
    e: Double,
    n: Double,
    max_radius_m: Single,
) -> (r: Option<u32>)
    requires
        steady(m),
        graph.node_pos@.len() <= u32::MAX,
    ensures
        nearest_of(m, graph.node_pos@, e, n, radius2(m, max_radius_m)) == match r {
            Some(i) => Some(i as int),
            None => None,
        },
        r matches Some(i) ==> i < graph.node_pos@.len(),
{
    let r2 = widen(m, times(m, max_radius_m, max_radius_m));
    let mut best: Option<(u32, Double)> = None;
    let ghost nodes = graph.node_pos@;
    let mut i: usize = 0;
    assert(nodes.take(0) =~= Seq::empty());
    while i < graph.node_pos.len()
        invariant
            steady(m),
            nodes == graph.node_pos@,
            nodes.len() <= u32::MAX,
            i <= nodes.len(),
            r2 == radius2(m, max_radius_m),
            match best {
                Some((b, d)) => b < i && nearest_of(m, nodes.take(i as int), e, n, r2) == Some(
                    b as int,
                ) && d == distance2(m, nodes[b as int], e, n),
                None => nearest_of(m, nodes.take(i as int), e, n, r2) is None,
            },
        decreases nodes.len() - i,
    {
        assert(nodes.take(i + 1).drop_last() =~= nodes.take(i as int));
        let (ne, nn) = graph.node_pos[i];
        let dx = minus_d(m, ne, e);
        let dy = minus_d(m, nn, n);
        let d2 = plus_d(m, times_d(m, dx, dx), times_d(m, dy, dy));
        if !r2.lt(&d2) {
            match best {
                Some((_, bd)) => {
                    if !bd.le(&d2) {
                        best = Some((i as u32, d2));
                    }
                },
                None => {
                    best = Some((i as u32, d2));
                },
            }
        }
        i = i + 1;
    }
    assert(nodes.take(nodes.len() as int) =~= nodes);
    match best {
        Some((b, _)) => Some(b),
        None => None,
    }
}

/// How costs move along the trails. A cost is queued in whole milliseconds; an
/// entry is out of date when its node has since been reached more than a
/// millisecond faster; every lower cost is an improvement.
pub open spec fn trail_rules<M: Math>(m: &M, graph: &TrailGraph) -> Rules {
    Rules {
        size: graph.node_pos@.len(),
        degree: |u: int| graph.adj@[u]@.len(),
        rises: false,
        key_of: |cost: Single|
            (-(to_i64(to_int(m, times(m, cost, Single { bits: THOUSAND }))) as i128)) as i128,
        stale: |cost: Single, key: i128|
            plus(m, cost, Single { bits: MILLI }).below(queued_cost(m, key)),
        offer: |u: int, k: int, key: i128|
            {
                let (a, b, seconds) = graph.edges@[graph.adj@[u]@[k] as int];
                let other = if a == u {
                    b
                } else {
                    a
                };
                Some((other as int, plus(m, queued_cost(m, key), seconds)))
            },
        open: |cost: Single| cost.bits == 0x7f80_0000,
        improves: |new: Single, prev: Single| new.below(prev),
    }
}

struct Trails<'a, M: Math> {
    m: &'a M,
    graph: &'a TrailGraph,
}

impl<'a, M: Math> Network for Trails<'a, M> {
    closed spec fn rules(&self) -> Rules {
        trail_rules(self.m, self.graph)
    }

    closed spec fn valid(&self) -> bool {
        &&& steady(self.m)
        &&& self.graph.wf()
    }

    proof fn offer_in_range(&self, u: int, k: int, key: i128) {
        assert(self.graph.adj@[u]@[k] < self.graph.edges@.len());
        let edge = self.graph.edges@[self.graph.adj@[u]@[k] as int];
        assert(edge.0 < self.graph.node_pos@.len());
    }

    fn degree(&self, u: usize) -> (r: usize) {
        self.graph.adj[u].len()
    }

    fn rises(&self) -> (r: bool) {
        false
    }

    fn key_of(&self, label: Single) -> (r: i128) {
        -(to_i64(to_int(self.m, times(self.m, label, Single { bits: THOUSAND }))) as i128)
    }

    fn is_stale(&self, label: Single, key: i128) -> (r: bool) {
        plus(self.m, label, Single { bits: MILLI }).lt(&queued_cost(self.m, key))
    }

    fn offer(&self, u: usize, k: usize, key: i128) -> (r: Option<(usize, Single)>) {
        let id: u32 = self.graph.adj[u][k];
        assert(self.graph.adj@[u as int]@[k as int] < self.graph.edges@.len());
        let (a, b, seconds) = self.graph.edges[id as usize];
        let other: u32 = if a as usize == u {
            b
        } else {
            a
        };
        Some((other as usize, plus(self.m, queued_cost(self.m, key), seconds)))
    }

    fn is_open(&self, label: Single) -> (r: bool) {
        label.bits == 0x7f80_0000
    }

    fn improves(&self, new: Single, prev: Single) -> (r: bool) {
        new.lt(&prev)
    }
}

/// The seeded nodes with their initial costs, as far as these are finite.
pub open spec fn seed_nodes(seeds: Seq<(u32, Single)>) -> Set<(int, Single)> {
    Set::new(
        |l: (int, Single)|
            l.1.finite() && exists|i: int|
                0 <= i < seeds.len() && l == ((#[trigger] seeds[i]).0 as int, seeds[i].1),
    )
}

/// Whether the cost of node `v` is what a trail leads to from a neighbor, walked
/// from a cost no lower than the one that the neighbor has.
pub open spec fn came_along<M: Math>(
    m: &M,
    graph: &TrailGraph,
    costs: Seq<Single>,
    v: int,
) -> bool {
    exists|u: int, k: int, x: Single|
        0 <= u < costs.len() && 0 <= k < graph.adj@[u]@.len() && #[trigger] (trail_rules(
            m,
            graph,
        ).offer)(u, k, (trail_rules(m, graph).key_of)(x)) == Some((v, costs[v])) && x.finite()
            && costs[u].at_most(x)
}

/// Whether node `u` has a seed of negative infinity: nothing is faster, and
/// nothing is passed on from there.
pub open spec fn is_sunk(seeds: Seq<(u32, Single)>, u: int) -> bool {
    exists|i: int|
        0 <= i < seeds.len() && (#[trigger] seeds[i]).0 == u && seeds[i].1.bits == 0xff80_0000
}

/// Where a propagation along trails starts: every seed in turn lowers the cost of
/// its node.
pub open spec fn seeded<M: Math>(
    m: &M,
    graph: &TrailGraph,
    seeds: Seq<(u32, Single)>,
) -> Standing
    decreases seeds.len(),
{
    if seeds.len() == 0 {
        Standing {
            labels: Seq::new(graph.node_pos@.len(), |u: int| Single { bits: 0x7f80_0000 }),
            queue: Multiset::empty(),
            reached: Seq::empty(),
        }
    } else {
        let before = seeded(m, graph, seeds.drop_last());
        let (node, init) = seeds.last();
        if !init.below(before.labels[node as int]) {
            before
        } else {
            Standing {
                labels: before.labels.update(node as int, init),
                queue: if init.finite() {
                    before.queue.insert(
                        Entry { key: (trail_rules(m, graph).key_of)(init), item: node as usize },
                    )
                } else {
                    before.queue
                },
                reached: before.reached,
            }
        }
    }
}

/// Whether this is a walk along the trails from the seeds to its end: node by
/// node, the lowest queued cost first. Nodes queued at the same millisecond may
/// come in any order.
pub open spec fn is_trail_run<M: Math>(
    m: &M,
    graph: &TrailGraph,
    seeds: Seq<(u32, Single)>,
    run: Seq<Standing>,
) -> bool {
    is_run(trail_rules(m, graph), run) && run[0] == seeded(m, graph, seeds)
}

/// Whether these are the costs of the trail nodes from the seeds: every one is
/// earned by a walk along trails from a seed; every one is that of a seed or
/// comes from a cost no lower than the one that a neighbor has; from every one
/// walking on along each trail leads to nothing better; no seeded node costs more
/// than its seed; nodes that were not reached cost infinitely much; and a walk
/// from the seeds to its end leads to these costs.
pub open spec fn is_trail_cost<M: Math>(
    m: &M,
    graph: &TrailGraph,
    seeds: Seq<(u32, Single)>,
    costs: Seq<Single>,
) -> bool {
    &&& costs.len() == graph.node_pos@.len()
    &&& forall|u: int|
        0 <= u < costs.len() && (#[trigger] costs[u]).finite() ==> earned(
            trail_rules(m, graph),
            seed_nodes(seeds),
            u,
            costs[u],
        ) && settled(trail_rules(m, graph), costs, u) && (seed_nodes(seeds).contains((u, costs[u]))
            || came_along(m, graph, costs, u))
    &&& forall|i: int|
        0 <= i < seeds.len() && !(#[trigger] seeds[i]).1.nan() ==> costs[seeds[i].0 as int].at_most(
            seeds[i].1,
        )
    &&& forall|u: int|
        0 <= u < costs.len() && !(#[trigger] costs[u]).finite() ==> costs[u].bits == if is_sunk(
            seeds,
            u,
        ) {
            0xff80_0000u32
        } else {
            0x7f80_0000u32
        }
    &&& exists|run: Seq<Standing>| #[trigger]
        is_trail_run(m, graph, seeds, run) && run.last().labels == costs
}

/// Multi-source propagation of costs over the trail graph.
pub fn dijkstra<M: Math>(m: &M, graph: &TrailGraph, seeds: &[(u32, Single)]) -> (r: Vec<Single>)
    requires
        steady(m),
        graph.wf(),
        forall|i: int|
            0 <= i < seeds@.len() ==> (#[trigger] seeds@[i]).0 < graph.node_pos@.len(),
    ensures
        is_trail_cost(m, graph, seeds@, r@),
{
    let n: usize = graph.node_pos.len();
    let mut cost: Vec<Single> = vec![Single::infinity(); n];
    let net = Trails { m, graph };
    let ghost rules = trail_rules(m, graph);
    let ghost sources = seed_nodes(seeds@);
    let mut queue: MaxHeap<usize> = MaxHeap::new();
    proof {
        broadcast use vstd::multiset::group_multiset_axioms;

        assert(queue_seeded(rules, sources, queue@));
        assert(seeds@.take(0) =~= Seq::empty());
        assert(cost@ =~= seeded(m, graph, seeds@.take(0)).labels);
        assert(queue@ =~= seeded(m, graph, seeds@.take(0)).queue);
    }
    let mut i: usize = 0;
    while i < seeds.len()
        invariant
            steady(m),
            graph.wf(),
            net.m == m,
            net.graph == graph,
            rules == trail_rules(m, graph),
            sources == seed_nodes(seeds@),
            n == graph.node_pos@.len(),
            cost@.len() == n,
            i <= seeds@.len(),
            queue.wf(),
            queue_seeded(rules, sources, queue@),
            seeded(m, graph, seeds@.take(i as int)) == (Standing {
                labels: cost@,
                queue: queue@,
                reached: Seq::empty(),
            }),
            forall|i: int|
                0 <= i < seeds@.len() ==> (#[trigger] seeds@[i]).0 < graph.node_pos@.len(),
            forall|u: int|
                0 <= u < n && (#[trigger] cost@[u]).finite() ==> earned(
                    rules,
                    sources,
                    u,
                    cost@[u],
                ) && queued(rules, cost@, queue@, u),
            forall|u: int| 0 <= u < n ==> !(#[trigger] cost@[u]).nan(),
            forall|u: int|
                0 <= u < n && (#[trigger] cost@[u]).finite() ==> sources.contains((u, cost@[u])),
            forall|u: int|
                0 <= u < n && !(#[trigger] cost@[u]).finite() ==> cost@[u].bits == 0x7f80_0000
                    || cost@[u].bits == 0xff80_0000 && is_sunk(seeds@, u),
            forall|j: int|
                0 <= j < i && !(#[trigger] seeds@[j]).1.nan() ==> cost@[seeds@[j].0 as int].at_most(
                    seeds@[j].1,
                ),
        decreases seeds@.len() - i,
    {
        let (node, init) = seeds[i];
        let c: usize = node as usize;
        assert(seeds@.take(i + 1).drop_last() =~= seeds@.take(i as int));
        assert(seeds@.take(i + 1).last() == (node, init));
        if init.lt(&cost[c]) {
            let ghost cost0 = cost@;
            let ghost queue0 = queue@;
            cost[c] = init;
            assert(seeds@[i as int].0 as int == c);
            if init.is_finite() {
                queue.push(net.key_of(init), c);
                proof {
                    broadcast use vstd::multiset::group_multiset_axioms;

                    let e = Entry { key: (rules.key_of)(init), item: c };
                    let path = seq![(c as int, init)];
                    assert(sources.contains((c as int, init)));
                    assert(route(rules, sources, path));
                    assert(path.last() == (c as int, init));
                    assert(earned(rules, sources, c as int, init));
                    assert forall|e2: Entry<usize>| #[trigger] queue@.contains(e2) implies e2.item
                        < rules.size && exists|x: Single|
                        #[trigger] sources.contains((e2.item as int, x)) && (rules.key_of)(x)
                            == e2.key by {
                        if e2 != e {
                            assert(queue0.contains(e2));
                        }
                    }
                }
            } else {
                assert(init.bits == 0xff80_0000);
                assert(is_sunk(seeds@, c as int));
            }
            proof {
                broadcast use vstd::multiset::group_multiset_axioms;

                assert forall|u: int| 0 <= u < n && (#[trigger] cost@[u]).finite() implies earned(
                    rules,
                    sources,
                    u,
                    cost@[u],
                ) && queued(rules, cost@, queue@, u) by {
                    if u != c {
                        assert(cost@[u] == cost0[u]);
                        assert(queued(rules, cost0, queue0, u));
                    }
                }
            }
        }
        i = i + 1;
    }
    let ghost cost0 = cost@;
    let ghost queue0 = queue@;
    let reached = propagate(&net, &mut cost, &mut queue, Ghost(sources));
    proof {
        let run = choose|run: Seq<Standing>| #[trigger]
            is_run(rules, run) && run[0].labels == cost0 && run[0].queue == queue0
                && run.last().labels == cost@ && run.last().reached == nodes(reached@);
        assert(seeds@.take(i as int) =~= seeds@);
        assert(run[0].reached =~= Seq::empty());
        assert(is_trail_run(m, graph, seeds@, run));
        assert forall|j: int| 0 <= j < seeds@.len() && !(#[trigger] seeds@[j]).1.nan() implies cost@[
        seeds@[j].0 as int].at_most(seeds@[j].1) by {
            let u = seeds@[j].0 as int;
            assert(cost0[u].at_most(seeds@[j].1));
            if !cost@[u].finite() {
                assert(cost@[u] == cost0[u]);
            }
            if !cost0[u].finite() && cost0[u].bits == 0xff80_0000 {
                assert(cost@[u] == cost0[u]);
            }
        }
        assert forall|u: int| 0 <= u < n && is_sunk(seeds@, u) implies (#[trigger] cost@[u]).bits
            == 0xff80_0000 by {
            let j = choose|j: int|
                0 <= j < seeds@.len() && (#[trigger] seeds@[j]).0 == u && seeds@[j].1.bits
                    == 0xff80_0000;
            assert(cost@[u].at_most(seeds@[j].1));
        }
        assert forall|v: int| 0 <= v < n && (#[trigger] cost@[v]).finite() implies (
        sources.contains((v, cost@[v])) || came_along(m, graph, cost@, v)) by {
            assert(attained(rules, sources, cost0, cost@, v));
            if cost@[v] == cost0[v] {
                assert(cost0[v].finite());
            } else {
                let (u, k, x) = choose|u: int, k: int, x: Single|
                    0 <= u < rules.size && 0 <= k < (rules.degree)(u) && #[trigger] (rules.offer)(
                        u,
                        k,
                        (rules.key_of)(x),
                    ) == Some((v, cost@[v])) && current(rules, sources, cost@, u, x);
                if sources.contains((u, x)) {
                    let j = choose|j: int|
                        0 <= j < seeds@.len() && (u, x) == ((#[trigger] seeds@[j]).0 as int, seeds@[j].1);
                    assert(cost@[seeds@[j].0 as int].at_most(seeds@[j].1));
                }
                assert((trail_rules(m, graph).offer)(u, k, (trail_rules(m, graph).key_of)(x)) == Some(
                    (v, cost@[v]),
                ));
            }
        }
    }
    cost
}

/// No trail leads to a node faster than its cost, wherever the cost of the
/// node that it comes from is known to the millisecond.
pub proof fn trail_costs_are_fastest<M: Math>(
    m: &M,
    graph: &TrailGraph,
    seeds: Seq<(u32, Single)>,
    costs: Seq<Single>,
    u: int,
    k: int,
)
    requires
        graph.wf(),
        is_trail_cost(m, graph, seeds, costs),
        0 <= u < costs.len(),
        0 <= k < graph.adj@[u]@.len(),
        costs[u].finite(),
        !(trail_rules(m, graph).stale)(costs[u], (trail_rules(m, graph).key_of)(costs[u])),
    ensures
        match (trail_rules(m, graph).offer)(u, k, (trail_rules(m, graph).key_of)(costs[u])) {
            Some((v, cost)) => cost.finite() ==> costs[v].at_most(cost),
            None => true,
        },
{
    let rules = trail_rules(m, graph);
    assert(offer_settled(rules, costs, u, k));
    if let Some((v, cost)) = (rules.offer)(u, k, (rules.key_of)(costs[u])) {
        if cost.finite() {
            let x = choose|x: Single|
                (x == costs[v] || x.finite() && costs[v].finite() && better(
                    rules.rises,
                    costs[v],
                    x,
                )) && !#[trigger] wins(rules, cost, x);
            assert(!x.nan() && !cost.nan());
        }
    }
}

/// Whether walking on from a lower cost costs no more: what rounding to
/// milliseconds keeps, and adding the seconds of the same edge.
pub open spec fn keeps_pace<M: Math>(m: &M, graph: &TrailGraph) -> bool {
    let key_of = trail_rules(m, graph).key_of;
    forall|x: Single, y: Single, seconds: Single|
        x.at_most(y) && x.finite() && y.finite() && (#[trigger] plus(
            m,
            queued_cost(m, key_of(y)),
            seconds,
        )).finite() ==> (#[trigger] plus(m, queued_cost(m, key_of(x)), seconds)).finite() && plus(
            m,
            queued_cost(m, key_of(x)),
            seconds,
        ).at_most(plus(m, queued_cost(m, key_of(y)), seconds))
}

#[verifier::spinoff_prover]
proof fn lemma_route_costs<M: Math>(
    m: &M,
    graph: &TrailGraph,
    seeds: Seq<(u32, Single)>,
    costs: Seq<Single>,
    path: Seq<(int, Single)>,
    i: int,
)
    requires
        graph.wf(),
        keeps_pace(m, graph),
        is_trail_cost(m, graph, seeds, costs),
        forall|j: int|
            0 <= j < seeds.len() ==> (#[trigger] seeds[j]).0 < graph.node_pos@.len()
                && seeds[j].1.bits != 0xff80_0000,
        forall|u: int|
            0 <= u < costs.len() && (#[trigger] costs[u]).finite() ==> !(trail_rules(m, graph).stale)(
                costs[u],
                (trail_rules(m, graph).key_of)(costs[u]),
            ),
        route(trail_rules(m, graph), seed_nodes(seeds), path),
        0 <= i < path.len(),
    ensures
        0 <= path[i].0 < costs.len(),
        path[i].1.finite(),
        costs[path[i].0].finite(),
        costs[path[i].0].at_most(path[i].1),
    decreases i,
{
    let rules = trail_rules(m, graph);
    if i == 0 {
        let j = choose|j: int|
            0 <= j < seeds.len() && path[0] == ((#[trigger] seeds[j]).0 as int, seeds[j].1);
        assert(costs[seeds[j].0 as int].at_most(seeds[j].1));
        assert(seeds[j].0 < graph.node_pos@.len());
    } else {
        lemma_route_costs(m, graph, seeds, costs, path, i - 1);
        let from = path[i - 1];
        let to = path[i];
        let u = from.0;
        assert(step(rules, path[i - 1], path[i - 1 + 1]));
        let k = choose|k: int|
            0 <= k < (rules.degree)(u) && #[trigger] (rules.offer)(u, k, (rules.key_of)(from.1))
                == Some(to);
        assert(graph.adj@[u]@[k] < graph.edges@.len());
        let edge = graph.edges@[graph.adj@[u]@[k] as int];
        assert(edge.0 < graph.node_pos@.len());
        let x = plus(m, queued_cost(m, (rules.key_of)(costs[u])), edge.2);
        let y = plus(m, queued_cost(m, (rules.key_of)(from.1)), edge.2);
        assert(to.1 == y);
        assert(x.finite() && x.at_most(y));
        trail_costs_are_fastest(m, graph, seeds, costs, u, k);
    }
}

/// No walk along trails from a seed, whichever way it takes, is faster than the
/// cost of the node where it ends, where the costs are known to the millisecond
/// and no seed is negative infinity.
pub proof fn no_walk_is_faster<M: Math>(
    m: &M,
    graph: &TrailGraph,
    seeds: Seq<(u32, Single)>,
    costs: Seq<Single>,
    path: Seq<(int, Single)>,
)
    requires
        graph.wf(),
        keeps_pace(m, graph),
        is_trail_cost(m, graph, seeds, costs),
        forall|j: int|
            0 <= j < seeds.len() ==> (#[trigger] seeds[j]).0 < graph.node_pos@.len()
                && seeds[j].1.bits != 0xff80_0000,
        forall|u: int|
            0 <= u < costs.len() && (#[trigger] costs[u]).finite() ==> !(trail_rules(m, graph).stale)(
                costs[u],
                (trail_rules(m, graph).key_of)(costs[u]),
            ),
        route(trail_rules(m, graph), seed_nodes(seeds), path),
    ensures
        costs[path.last().0].at_most(path.last().1),
{
    lemma_route_costs(m, graph, seeds, costs, path, path.len() - 1);
}

/// No two nodes of a graph are the same to the whole meter.
pub proof fn nodes_are_distinct<M: Math>(m: &M, legs: Seq<Leg>, i: int, j: int)
    requires
        0 <= i < j < nodes_of(m, legs).len(),
    ensures
        node_key(m, nodes_of(m, legs)[i]) != node_key(m, nodes_of(m, legs)[j]),
    decreases legs.len(),
{
    if legs.len() > 0 {
        let before = nodes_of(m, legs.drop_last());
        let mid = enter(m, before, legs.last().0);
        if j < before.len() {
            nodes_are_distinct(m, legs.drop_last(), i, j);
        } else if j < mid.len() {
            assert(mid[i] == before[i]);
        } else {
            assert(nodes_of(m, legs)[i] == mid[i]);
        }
    }
}

/// Whether trail node `i` was reached and lies in this cell.
pub open spec fn node_in_cell<M: Math>(
    m: &M,
    graph: &TrailGraph,
    dem: &Dem,
    costs: Seq<Single>,
    i: int,
    cell: CellIdx,
) -> bool {
    costs[i].finite() && lv95_to_cell(m, dem, graph.node_pos@[i].0, graph.node_pos@[i].1) == Some(
        cell,
    )
}

/// Whether `cost` is the cost of one of the first `n` trail nodes that lies in
/// this cell.
pub open spec fn cost_in_cell<M: Math>(
    m: &M,
    graph: &TrailGraph,
    dem: &Dem,
    costs: Seq<Single>,
    n: int,
    cell: CellIdx,
    cost: Single,
) -> bool {
    exists|i: int|
        0 <= i < n && #[trigger] node_in_cell(m, graph, dem, costs, i, cell) && costs[i] == cost
}

/// Whether one of the seeds is this cell, at no more than this cost.
pub open spec fn seeded_within(seeds: Seq<(CellIdx, Single)>, cell: CellIdx, cost: Single) -> bool {
    exists|a: int|
        0 <= a < seeds.len() && (#[trigger] seeds[a]).0 == cell && seeds[a].1.at_most(cost)
}

/// Whether the seeds are the cells that the first `n` trail nodes lie in, each
/// once, at the least cost of its nodes.
pub open spec fn is_projection<M: Math>(
    m: &M,
    graph: &TrailGraph,
    dem: &Dem,
    costs: Seq<Single>,
    n: int,
    seeds: Seq<(CellIdx, Single)>,
) -> bool {
    &&& forall|a: int, b: int|
        0 <= a < b < seeds.len() ==> (#[trigger] seeds[a]).0 != (#[trigger] seeds[b]).0
    &&& forall|a: int|
        0 <= a < seeds.len() ==> cost_in_cell(
            m,
            graph,
            dem,
            costs,
            n,
            (#[trigger] seeds[a]).0,
            seeds[a].1,
        )
    &&& forall|i: int, cell: CellIdx|
        0 <= i < n && #[trigger] node_in_cell(m, graph, dem, costs, i, cell) ==> seeded_within(
            seeds,
            cell,
            costs[i],
        )
}

spec fn cell_code(cell: CellIdx) -> int {
    cell.row * 0x1_0000_0000 + cell.col
}

/// Whether the index finds every seed by its cell, and nothing else.
spec fn indexes_cells(index: Map<u64, usize>, seeds: Seq<(CellIdx, Single)>) -> bool {
    &&& forall|a: int|
        0 <= a < seeds.len() ==> index.contains_key(
            cell_code((#[trigger] seeds[a]).0) as u64,
        ) && index[cell_code(seeds[a].0) as u64] == a
    &&& forall|c: u64| #[trigger]
        index.contains_key(c) ==> index[c] < seeds.len() && cell_code(seeds[index[c] as int].0) == c
}

/// Project the trail costs back onto DEM cells, returning seeds suitable for
/// `hike_field`. Multiple trail nodes may map to the same DEM cell; we keep the
/// minimum cost.
pub fn project_to_dem_seeds<M: Math>(
    m: &M,
    graph: &TrailGraph,
    dem: &Dem,
    trail_cost: &[Single],
) -> (r: Vec<(CellIdx, Single)>)
    requires
        steady(m),
        trail_cost@.len() <= graph.node_pos@.len(),
    ensures
        is_projection(m, graph, dem, trail_cost@, trail_cost@.len() as int, r@),
{
    broadcast use vstd::std_specs::hash::group_hash_axioms;

    let mut index: HashMap<u64, usize> = HashMap::new();
    let mut seeds: Vec<(CellIdx, Single)> = Vec::new();
    let ghost costs = trail_cost@;
    let mut i: usize = 0;
    while i < trail_cost.len()
        invariant
            steady(m),
            costs == trail_cost@,
            costs.len() <= graph.node_pos@.len(),
            i <= costs.len(),
            indexes_cells(index@, seeds@),
            is_projection(m, graph, dem, costs, i as int, seeds@),
        decreases costs.len() - i,
    {
        let c = trail_cost[i];
        let ghost seeds0 = seeds@;
        let ghost index0 = index@;
        let (e, n) = graph.node_pos[i];
        if c.is_finite() {
            if let Some(cell) = lv95_to_cell(m, dem, e, n) {
                let key: u64 = cell.row as u64 * 0x1_0000_0000 + cell.col as u64;
                assert(node_in_cell(m, graph, dem, costs, i as int, cell));
                match index.get(&key) {
                    Some(a) => {
                        let a: usize = *a;
                        assert(seeds@[a as int].0 == cell);
                        let best = seeds[a].1;
                        proof {
                            let w = choose|w: int|
                                0 <= w < i && #[trigger] node_in_cell(m, graph, dem, costs, w, cell)
                                    && costs[w] == best;
                            assert(costs[w].finite());
                        }
                        if c.lt(&best) {
                            seeds[a] = (cell, c);
                        }
                    },
                    None => {
                        index.insert(key, seeds.len());
                        seeds.push((cell, c));
                    },
                }
                proof {
                    lemma_projection_step(m, graph, dem, costs, i as int, seeds0, seeds@, cell);
                    assert(indexes_cells(index@, seeds@)) by {
                        assert forall|a: int| 0 <= a < seeds@.len() implies index@.contains_key(
                            cell_code((#[trigger] seeds@[a]).0) as u64,
                        ) && index@[cell_code(seeds@[a].0) as u64] == a by {
                            if a < seeds0.len() {
                                assert(seeds@[a].0 == seeds0[a].0);
                                assert(index0.contains_key(cell_code(seeds0[a].0) as u64));
                            }
                        }
                        assert forall|d: u64| #[trigger] index@.contains_key(d) implies index@[d]
                            < seeds@.len() && cell_code(seeds@[index@[d] as int].0) == d by {
                            if d != key {
                                assert(index0.contains_key(d));
                                assert(seeds@[index@[d] as int].0 == seeds0[index0[d] as int].0);
                            }
                        }
                    }
                }
            } else {
                proof {
                    lemma_projection_skip(m, graph, dem, costs, i as int, seeds@);
                }
            }
        } else {
            proof {
                lemma_projection_skip(m, graph, dem, costs, i as int, seeds@);
            }
        }
        i = i + 1;
    }
    seeds
}

proof fn lemma_projection_skip<M: Math>(
    m: &M,
    graph: &TrailGraph,
    dem: &Dem,
    costs: Seq<Single>,
    i: int,
    seeds: Seq<(CellIdx, Single)>,
)
    requires
        0 <= i < costs.len(),
        is_projection(m, graph, dem, costs, i, seeds),
        forall|cell: CellIdx| !#[trigger] node_in_cell(m, graph, dem, costs, i, cell),
    ensures
        is_projection(m, graph, dem, costs, i + 1, seeds),
{
    assert forall|a: int| 0 <= a < seeds.len() implies cost_in_cell(
        m,
        graph,
        dem,
        costs,
        i + 1,
        (#[trigger] seeds[a]).0,
        seeds[a].1,
    ) by {
        let w = choose|w: int|
            0 <= w < i && #[trigger] node_in_cell(m, graph, dem, costs, w, seeds[a].0) && costs[w]
                == seeds[a].1;
        assert(node_in_cell(m, graph, dem, costs, w, seeds[a].0));
    }
}

/// Whether `after` is `before` with a cost for a cell taken in: added where the
/// cell is new, put in place of a greater cost, or left out.
spec fn takes_in(
    before: Seq<(CellIdx, Single)>,
    after: Seq<(CellIdx, Single)>,
    cell: CellIdx,
    cost: Single,
) -> bool {
    ||| after == before.push((cell, cost)) && forall|a: int|
        0 <= a < before.len() ==> (#[trigger] before[a]).0 != cell
    ||| exists|a: int|
        0 <= a < before.len() && (#[trigger] before[a]).0 == cell && after == before.update(
            a,
            (cell, cost),
        ) && cost.below(before[a].1)
    ||| after == before && exists|a: int|
        0 <= a < before.len() && (#[trigger] before[a]).0 == cell && before[a].1.at_most(cost)
}

/// Taking trail node `i` in keeps the seeds right.
proof fn lemma_projection_step<M: Math>(
    m: &M,
    graph: &TrailGraph,
    dem: &Dem,
    costs: Seq<Single>,
    i: int,
    before: Seq<(CellIdx, Single)>,
    after: Seq<(CellIdx, Single)>,
    cell: CellIdx,
)
    requires
        0 <= i < costs.len(),
        is_projection(m, graph, dem, costs, i, before),
        node_in_cell(m, graph, dem, costs, i, cell),
        takes_in(before, after, cell, costs[i]),
    ensures
        is_projection(m, graph, dem, costs, i + 1, after),
{
    let cost = costs[i];
    lemma_takes_in(before, after, cell, cost);
    assert forall|a: int| 0 <= a < after.len() implies cost_in_cell(
        m,
        graph,
        dem,
        costs,
        i + 1,
        (#[trigger] after[a]).0,
        after[a].1,
    ) by {
        if after[a] == (cell, cost) {
            assert(node_in_cell(m, graph, dem, costs, i, after[a].0));
        } else {
            assert(cost_in_cell(m, graph, dem, costs, i, before[a].0, before[a].1));
            let w = choose|w: int|
                0 <= w < i && #[trigger] node_in_cell(m, graph, dem, costs, w, before[a].0)
                    && costs[w] == before[a].1;
            assert(node_in_cell(m, graph, dem, costs, w, after[a].0));
        }
    }
    assert forall|j: int, other: CellIdx|
        0 <= j < i + 1 && #[trigger] node_in_cell(
            m,
            graph,
            dem,
            costs,
            j,
            other,
        ) implies seeded_within(after, other, costs[j]) by {
        if j < i {
            assert(seeded_within(before, other, costs[j]));
        } else {
            assert(other == cell);
        }
    }
}

/// Taking a cost in keeps cells apart, keeps what the seeds cover, and covers
/// the cost.
proof fn lemma_takes_in(
    before: Seq<(CellIdx, Single)>,
    after: Seq<(CellIdx, Single)>,
    cell: CellIdx,
    cost: Single,
)
    requires
        takes_in(before, after, cell, cost),
        cost.finite(),
        forall|a: int, b: int|
            0 <= a < b < before.len() ==> (#[trigger] before[a]).0 != (#[trigger] before[b]).0,
    ensures
        forall|a: int, b: int|
            0 <= a < b < after.len() ==> (#[trigger] after[a]).0 != (#[trigger] after[b]).0,
        forall|a: int|
            0 <= a < after.len() ==> #[trigger] after[a] == (cell, cost) || (a < before.len()
                && after[a] == before[a]),
        forall|other: CellIdx, c: Single|
            seeded_within(before, other, c) ==> #[trigger] seeded_within(after, other, c),
        seeded_within(after, cell, cost),
{
    assert forall|other: CellIdx, c: Single| seeded_within(before, other, c) implies #[trigger]
    seeded_within(after, other, c) by {
        let a = choose|a: int|
            0 <= a < before.len() && (#[trigger] before[a]).0 == other && before[a].1.at_most(c);
        assert(after[a].0 == other);
        assert(after[a].1.at_most(c));
    }
    if after.len() > before.len() {
        assert(after[before.len() as int] == (cell, cost));
    } else {
        let a = choose|a: int| 0 <= a < before.len() && (#[trigger] before[a]).0 == cell;
        assert(after[a].0 == cell);
        assert(after[a].1.at_most(cost));
    }
}

/// How much higher a leg ends than it starts, in meters.
pub open spec fn rise_of<M: Math>(m: &M, dem: &Dem, leg: Leg) -> real {
    value(altitude_or_zero(m, dem, leg.1)) - value(altitude_or_zero(m, dem, leg.0))
}

/// Whether a leg is one that terrain can have: less than a thousand kilometers
/// long, between altitudes of less than 65 kilometers.
pub open spec fn is_leg<M: Math>(m: &M, dem: &Dem, leg: Leg) -> bool {
    let (from, to) = (altitude_or_zero(m, dem, leg.0), altitude_or_zero(m, dem, leg.1));
    &&& leg_length(m, leg).finite()
    &&& 0real <= value(leg_length(m, leg)) <= 1_000_000real
    &&& from.finite() && -65_000real <= value(from) <= 65_000real
    &&& to.finite() && -65_000real <= value(to) <= 65_000real
}

proof fn lemma_rates()
    ensures
        (Single { bits: 0x457a_0000 }).finite() && value(Single { bits: 0x457a_0000 }) == 4000real,
        (Single { bits: 0x43c8_0000 }).finite() && value(Single { bits: 0x43c8_0000 }) == 400real,
        (Single { bits: 0x4416_0000 }).finite() && value(Single { bits: 0x4416_0000 }) == 600real,
        (Single { bits: 0x4561_0000 }).finite() && value(Single { bits: 0x4561_0000 }) == 3600real,
{
    lemma2_to64();
    digits_bound_the_value(Single { bits: 0x457a_0000 }, 138, 0xfa_0000, 0x1000, 4000real, 4000real);
    digits_bound_the_value(Single { bits: 0x43c8_0000 }, 135, 0xc8_0000, 0x8000, 400real, 400real);
    digits_bound_the_value(Single { bits: 0x4416_0000 }, 136, 0x96_0000, 0x4000, 600real, 600real);
    digits_bound_the_value(Single { bits: 0x4561_0000 }, 138, 0xe1_0000, 0x1000, 3600real, 3600real);
}

/// The hours that a leg takes for its length and for its height.
spec fn leg_hours<M: Math>(m: &M, dem: &Dem, leg: Leg) -> (Single, Single) {
    let dz = minus(m, altitude_or_zero(m, dem, leg.1), altitude_or_zero(m, dem, leg.0));
    (
        over(m, leg_length(m, leg), Single { bits: 0x457a_0000 }),
        if (Single { bits: 0 }).at_most(dz) {
            over(m, dz, Single { bits: 0x43c8_0000 })
        } else {
            over(m, dz.neg(), Single { bits: 0x4416_0000 })
        },
    )
}

/// What the hours of a leg come to together.
spec fn joined_hours<M: Math>(m: &M, x: Single, y: Single) -> Single {
    plus(m, x.max(y), times(m, x.min(y), Single { bits: 0x3f00_0000 }))
}

proof fn lemma_leg<M: Math>(m: &M, rnd: spec_fn(real) -> int, dem: &Dem, leg: Leg)
    requires
        rounds(m, rnd),
        is_leg(m, dem, leg),
    ensures
        ({
            let (x, y) = leg_hours(m, dem, leg);
            let dz = minus(m, altitude_or_zero(m, dem, leg.1), altitude_or_zero(m, dem, leg.0));
            &&& x.finite() && 0real <= value(x) <= 65_536real
            &&& y.finite() && 0real <= value(y) <= 65_536real
            &&& stands_for(x, rnd(value(leg_length(m, leg)) / 4000real))
            &&& dz.finite()
            &&& stands_for(dz, rnd(rise_of(m, dem, leg)))
            &&& 0real <= rise_of(m, dem, leg) ==> 0real <= value(dz)
            &&& rise_of(m, dem, leg) < 0real ==> value(dz) <= 0real
            &&& stands_for(
                y,
                if 0real <= value(dz) {
                    rnd(value(dz) / 400real)
                } else {
                    rnd(-value(dz) / 600real)
                },
            )
            &&& leg_seconds(m, dem, leg) == times(
                m,
                times(m, joined_hours(m, x, y), Single { bits: 0x4561_0000 }),
                Single { bits: 0x3f80_0000 },
            )
        }),
{
    lemma_rates();
    powers_of_two();
    zero_is_nothing();
    let (from, to) = (altitude_or_zero(m, dem, leg.0), altitude_or_zero(m, dem, leg.1));
    let dz = minus(m, to, from);
    let bound = Single { bits: 0x4800_0000 };
    differences_stay_within(m, rnd, to, from, bound);
    let zero = Single { bits: 0 };
    rounding_keeps_sides(m, rnd, dz, rise_of(m, dem, leg), zero);
    values_are_in_order(zero, dz);
    values_are_in_order(dz, zero);
    negation_is_exact(dz);
    let (x, y) = leg_hours(m, dem, leg);
    let l = leg_length(m, leg);
    let hi = Single { bits: 0x4780_0000 };
    assert(0real <= value(l) / 4000real <= 65_536real);
    rounding_stays_between(m, rnd, x, value(l) / 4000real, zero, hi);
    let v = if 0real <= value(dz) {
        value(dz) / 400real
    } else {
        -value(dz) / 600real
    };
    assert(0real <= v <= 65_536real);
    rounding_stays_between(m, rnd, y, v, zero, hi);
}

proof fn lemma_joined_hours<M: Math>(m: &M, rnd: spec_fn(real) -> int, x: Single, y: Single)
    requires
        rounds(m, rnd),
        x.finite() && 0real <= value(x) <= 65_536real,
        y.finite() && 0real <= value(y) <= 65_536real,
    ensures
        ({
            let half = times(m, x.min(y), Single { bits: 0x3f00_0000 });
            &&& x.max(y).finite() && x.min(y).finite()
            &&& half.finite() && 0real <= value(half) <= 65_536real
            &&& stands_for(half, rnd(value(x.min(y)) / 2real))
            &&& joined_hours(m, x, y).finite()
            &&& 0real <= value(joined_hours(m, x, y)) <= 131_072real
            &&& stands_for(joined_hours(m, x, y), rnd(value(x.max(y)) + value(half)))
        }),
{
    powers_of_two();
    zero_is_nothing();
    picks_are_exact(x, y);
    let h = Single { bits: 0x3f00_0000 };
    let low = x.min(y);
    let half = times(m, low, h);
    assert(value(low) * value(h) == value(low) / 2real) by (nonlinear_arith)
        requires
            value(h) == 1real / 2real,
    ;
    let zero = Single { bits: 0 };
    rounding_stays_between(m, rnd, half, value(low) / 2real, zero, Single { bits: 0x4780_0000 });
    rounding_stays_between(
        m,
        rnd,
        joined_hours(m, x, y),
        value(x.max(y)) + value(half),
        zero,
        Single { bits: 0x4800_0000 },
    );
}

/// A leg takes the longer of two times and half the shorter: that of its length,
/// at 4 km/h, and that of its height, at 400 m/h up and 600 m/h down. `level` and
/// `steep` are the two in hours, and `seconds` what they come to, wherever these
/// are numbers.
pub proof fn signposts_tell_the_time<M: Math>(
    m: &M,
    rnd: spec_fn(real) -> int,
    dem: &Dem,
    leg: Leg,
    height: Single,
    level: Single,
    steep: Single,
    half: Single,
    hours: Single,
    seconds: Single,
)
    requires
        rounds(m, rnd),
        is_leg(m, dem, leg),
        height.finite(),
        level.finite(),
        steep.finite(),
        half.finite(),
        hours.finite(),
        seconds.finite(),
        value(height) == rise_of(m, dem, leg),
        4000real * value(level) == value(leg_length(m, leg)),
        if value(height) < 0real {
            600real * value(steep) == -value(height)
        } else {
            400real * value(steep) == value(height)
        },
        2real * value(half) == if value(level) < value(steep) {
            value(level)
        } else {
            value(steep)
        },
        value(hours) == value(half) + if value(level) < value(steep) {
            value(steep)
        } else {
            value(level)
        },
        value(seconds) == 3600real * value(hours),
    ensures
        leg_seconds(m, dem, leg).finite(),
        value(leg_seconds(m, dem, leg)) == value(seconds),
{
    lemma_rates();
    powers_of_two();
    lemma_leg(m, rnd, dem, leg);
    let (x, y) = leg_hours(m, dem, leg);
    let dz = minus(m, altitude_or_zero(m, dem, leg.1), altitude_or_zero(m, dem, leg.0));
    rounding_keeps_sides(m, rnd, dz, value(height), height);
    rounding_keeps_sides(m, rnd, x, value(level), level);
    rounding_keeps_sides(m, rnd, y, value(steep), steep);
    lemma_joined_hours(m, rnd, x, y);
    picks_are_exact(x, y);
    let h = times(m, x.min(y), Single { bits: 0x3f00_0000 });
    rounding_keeps_sides(m, rnd, h, value(half), half);
    let t = joined_hours(m, x, y);
    rounding_keeps_sides(m, rnd, t, value(hours), hours);
    let inner = times(m, t, Single { bits: 0x4561_0000 });
    assert(value(t) * 3600real == value(seconds));
    rounding_keeps_sides(m, rnd, inner, value(seconds), seconds);
    assert(value(inner) * 1real == value(inner));
    rounding_keeps_sides(m, rnd, leg_seconds(m, dem, leg), value(seconds), seconds);
}

/// A leg that is no shorter than another and climbs no less, or one that falls no
/// less, takes no less time.
pub proof fn longer_and_steeper_legs_take_longer<M: Math>(
    m: &M,
    rnd: spec_fn(real) -> int,
    dem: &Dem,
    easy: Leg,
    hard: Leg,
)
    requires
        rounds(m, rnd),
        is_leg(m, dem, easy),
        is_leg(m, dem, hard),
        value(leg_length(m, easy)) <= value(leg_length(m, hard)),
        0real <= rise_of(m, dem, easy) <= rise_of(m, dem, hard) || rise_of(m, dem, hard) <= rise_of(
            m,
            dem,
            easy,
        ) < 0real,
    ensures
        leg_seconds(m, dem, easy).at_most(leg_seconds(m, dem, hard)),
{
    lemma_rates();
    powers_of_two();
    zero_is_nothing();
    lemma_leg(m, rnd, dem, easy);
    lemma_leg(m, rnd, dem, hard);
    let (x1, y1) = leg_hours(m, dem, easy);
    let (x2, y2) = leg_hours(m, dem, hard);
    let d1 = minus(m, altitude_or_zero(m, dem, easy.1), altitude_or_zero(m, dem, easy.0));
    let d2 = minus(m, altitude_or_zero(m, dem, hard.1), altitude_or_zero(m, dem, hard.0));
    values_are_in_order(d1, d2);
    values_are_in_order(d2, d1);
    rounding_keeps_order(
        m,
        rnd,
        x1,
        value(leg_length(m, easy)) / 4000real,
        x2,
        value(leg_length(m, hard)) / 4000real,
    );
    values_are_in_order(x1, x2);
    let rate = if 0real <= rise_of(m, dem, easy) {
        400real
    } else {
        600real
    };
    if 0real <= rise_of(m, dem, easy) {
        assert(value(d1) <= value(d2));
        rounding_keeps_order(m, rnd, y1, value(d1) / 400real, y2, value(d2) / 400real);
    } else {
        assert(value(d2) <= value(d1));
        if value(d2) == 0real {
            assert(value(d1) == 0real);
        } else if value(d1) == 0real {
            rounding_keeps_sides(m, rnd, y1, 0real, Single { bits: 0 });
        } else {
            rounding_keeps_order(m, rnd, y1, -value(d1) / 600real, y2, -value(d2) / 600real);
        }
    }
    values_are_in_order(y1, y2);
    assert(value(y1) <= value(y2));
    lemma_hours_grow(m, rnd, x1, y1, x2, y2);
}

proof fn lemma_hours_grow<M: Math>(
    m: &M,
    rnd: spec_fn(real) -> int,
    x1: Single,
    y1: Single,
    x2: Single,
    y2: Single,
)
    requires
        rounds(m, rnd),
        x1.finite() && y1.finite() && x2.finite() && y2.finite(),
        0real <= value(x1) <= value(x2) <= 65_536real,
        0real <= value(y1) <= value(y2) <= 65_536real,
    ensures
        times(
            m,
            times(m, joined_hours(m, x1, y1), Single { bits: 0x4561_0000 }),
            Single { bits: 0x3f80_0000 },
        ).at_most(
            times(
                m,
                times(m, joined_hours(m, x2, y2), Single { bits: 0x4561_0000 }),
                Single { bits: 0x3f80_0000 },
            ),
        ),
{
    lemma_rates();
    powers_of_two();
    zero_is_nothing();
    lemma_joined_hours(m, rnd, x1, y1);
    lemma_joined_hours(m, rnd, x2, y2);
    picks_are_exact(x1, y1);
    picks_are_exact(x2, y2);
    let (h1, h2) = (
        times(m, x1.min(y1), Single { bits: 0x3f00_0000 }),
        times(m, x2.min(y2), Single { bits: 0x3f00_0000 }),
    );
    values_are_in_order(h1, h2);
    rounding_keeps_order(m, rnd, h1, value(x1.min(y1)) / 2real, h2, value(x2.min(y2)) / 2real);
    let (t1, t2) = (joined_hours(m, x1, y1), joined_hours(m, x2, y2));
    values_are_in_order(t1, t2);
    rounding_keeps_order(
        m,
        rnd,
        t1,
        value(x1.max(y1)) + value(h1),
        t2,
        value(x2.max(y2)) + value(h2),
    );
    let hour = Single { bits: 0x4561_0000 };
    let (s1, s2) = (times(m, t1, hour), times(m, t2, hour));
    let far = Single { bits: 0x4f00_0000 };
    two_to_the_31st();
    let zero = Single { bits: 0 };
    assert(0real <= value(t1) * value(hour) <= value(far));
    assert(0real <= value(t2) * value(hour) <= value(far));
    rounding_stays_between(m, rnd, s1, value(t1) * value(hour), zero, far);
    rounding_stays_between(m, rnd, s2, value(t2) * value(hour), zero, far);
    rounding_keeps_order(m, rnd, s1, value(t1) * value(hour), s2, value(t2) * value(hour));
    values_are_in_order(s1, s2);
    let one = Single { bits: 0x3f80_0000 };
    rounding_keeps_order(
        m,
        rnd,
        times(m, s1, one),
        value(s1) * value(one),
        times(m, s2, one),
        value(s2) * value(one),
    );
}

/// A leg from one end to the other, this far east and this far north.
pub open spec fn leads(leg: Leg, east: real, north: real) -> bool {
    &&& leg.0.0.finite() && leg.0.1.finite() && leg.1.0.finite() && leg.1.1.finite()
    &&& value_d(leg.1.0) - value_d(leg.0.0) == east
    &&& value_d(leg.1.1) - value_d(leg.0.1) == north
}

/// What a leg's length is the root of.
spec fn squared_length<M: Math>(m: &M, leg: Leg) -> Double {
    let dx = minus_d(m, leg.1.0, leg.0.0);
    let dy = minus_d(m, leg.1.1, leg.0.1);
    plus_d(m, times_d(m, dx, dx), times_d(m, dy, dy))
}

proof fn lemma_squared_length<M: Math>(
    m: &M,
    rnd: spec_fn(real) -> int,
    leg: Leg,
    east: int,
    north: int,
)
    requires
        rounds_d(m, rnd),
        leads(leg, east as real, north as real),
        -0x100_0000 <= east <= 0x100_0000,
        -0x100_0000 <= north <= 0x100_0000,
    ensures
        squared_length(m, leg).finite(),
        value_d(squared_length(m, leg)) == (east * east + north * north) as real,
{
    let x = wide_whole_numbers_are_exact(m, rnd, east);
    let y = wide_whole_numbers_are_exact(m, rnd, north);
    let (dx, dy) = (minus_d(m, leg.1.0, leg.0.0), minus_d(m, leg.1.1, leg.0.1));
    wide_rounding_keeps_sides(m, rnd, dx, east as real, x);
    wide_rounding_keeps_sides(m, rnd, dy, north as real, y);
    wide_squares_are_exact(m, rnd, dx, east);
    wide_squares_are_exact(m, rnd, dy, north);
    let sum = wide_whole_numbers_are_exact(m, rnd, east * east + north * north);
    wide_rounding_keeps_sides(
        m,
        rnd,
        squared_length(m, leg),
        (east * east) as real + (north * north) as real,
        sum,
    );
}

/// A leg is as long as the straight line between its ends: where the squares of
/// its extents add up to that of a whole number of meters, it has this length.
pub proof fn legs_are_straight_lines<M: Math>(
    m: &M,
    rnd: spec_fn(real) -> int,
    wide: spec_fn(real) -> int,
    leg: Leg,
    east: int,
    north: int,
    length: int,
)
    requires
        rounds(m, rnd),
        rounds_d(m, wide),
        converts(m, rnd),
        leads(leg, east as real, north as real),
        -0x100_0000 <= east <= 0x100_0000,
        -0x100_0000 <= north <= 0x100_0000,
        0 <= length <= 0x100_0000,
        east * east + north * north == length * length,
    ensures
        leg_length(m, leg).finite(),
        value(leg_length(m, leg)) == length as real,
{
    lemma_squared_length(m, wide, leg, east, north);
    let c = wide_whole_numbers_are_exact(m, wide, length);
    let a = squared_length(m, leg);
    assert((length * length) as real == (length as real) * (length as real)) by (nonlinear_arith);
    wide_roots_keep_sides(m, wide, a, c, a);
    let r = whole_numbers_are_exact(m, rnd, length);
    rounding_keeps_sides(m, rnd, leg_length(m, leg), length as real, r);
}

proof fn lemma_squares_of_lengths<M: Math>(
    m: &M,
    wide: spec_fn(real) -> int,
    leg: Leg,
    other: Leg,
    by: (real, real),
    other_by: (real, real),
)
    requires
        rounds_d(m, wide),
        leads(leg, by.0, by.1),
        leads(other, other_by.0, other_by.1),
        size(by.0) <= size(other_by.0) <= 16_777_216real,
        size(by.1) <= size(other_by.1) <= 16_777_216real,
    ensures
        squared_length(m, leg).finite(),
        squared_length(m, other).finite(),
        0real <= value_d(squared_length(m, leg)) <= value_d(squared_length(m, other))
            <= 1_125_899_906_842_624real,
{
    let (a, b) = (squared_length(m, leg), squared_length(m, other));
    lemma_bounded_square(m, wide, leg.1.0, leg.0.0, by.0);
    lemma_bounded_square(m, wide, leg.1.1, leg.0.1, by.1);
    lemma_bounded_square(m, wide, other.1.0, other.0.0, other_by.0);
    lemma_bounded_square(m, wide, other.1.1, other.0.1, other_by.1);
    let (dx, dy) = (minus_d(m, leg.1.0, leg.0.0), minus_d(m, leg.1.1, leg.0.1));
    let (ex, ey) = (minus_d(m, other.1.0, other.0.0), minus_d(m, other.1.1, other.0.1));
    lemma_squares_grow(m, wide, dx, by.0, ex, other_by.0);
    lemma_squares_grow(m, wide, dy, by.1, ey, other_by.1);
    let (p, q, r, s) = (
        times_d(m, dx, dx),
        times_d(m, dy, dy),
        times_d(m, ex, ex),
        times_d(m, ey, ey),
    );
    let zero = wide_whole_numbers_are_exact(m, wide, 0);
    let top = wide_whole_numbers_are_exact(m, wide, 0x4_0000_0000_0000);
    wide_rounding_stays_between(m, wide, a, value_d(p) + value_d(q), zero, top);
    wide_rounding_stays_between(m, wide, b, value_d(r) + value_d(s), zero, top);
    wide_values_are_in_order(a, b);
}

/// A leg that reaches no less far in both directions is no shorter.
#[verifier::spinoff_prover]
pub proof fn legs_that_reach_further_are_longer<M: Math>(
    m: &M,
    rnd: spec_fn(real) -> int,
    wide: spec_fn(real) -> int,
    leg: Leg,
    other: Leg,
    by: (real, real),
    other_by: (real, real),
)
    requires
        rounds(m, rnd),
        rounds_d(m, wide),
        converts(m, rnd),
        leads(leg, by.0, by.1),
        leads(other, other_by.0, other_by.1),
        size(by.0) <= size(other_by.0) <= 16_777_216real,
        size(by.1) <= size(other_by.1) <= 16_777_216real,
    ensures
        leg_length(m, leg).at_most(leg_length(m, other)),
{
    lemma_squares_of_lengths(m, wide, leg, other, by, other_by);
    wide_roots_grow(m, wide, squared_length(m, leg), squared_length(m, other));
    let (u, v) = (sqrt_d(m, squared_length(m, leg)), sqrt_d(m, squared_length(m, other)));
    rounding_keeps_order(m, rnd, narrow(m, u), value_d(u), narrow(m, v), value_d(v));
}

proof fn lemma_bounded_square<M: Math>(
    m: &M,
    wide: spec_fn(real) -> int,
    x: Double,
    y: Double,
    by: real,
)
    requires
        rounds_d(m, wide),
        x.finite() && y.finite(),
        value_d(x) - value_d(y) == by,
        size(by) <= 16_777_216real,
    ensures
        minus_d(m, x, y).finite(),
        times_d(m, minus_d(m, x, y), minus_d(m, x, y)).finite(),
        0real <= value_d(times_d(m, minus_d(m, x, y), minus_d(m, x, y)))
            <= 281_474_976_710_656real,
{
    let low = wide_whole_numbers_are_exact(m, wide, -0x100_0000);
    let high = wide_whole_numbers_are_exact(m, wide, 0x100_0000);
    let d = minus_d(m, x, y);
    wide_rounding_stays_between(m, wide, d, by, low, high);
    let v = value_d(d);
    assert(0real <= v * v <= 281_474_976_710_656real) by (nonlinear_arith)
        requires
            -16_777_216real <= v <= 16_777_216real,
    ;
    let zero = wide_whole_numbers_are_exact(m, wide, 0);
    let top = wide_whole_numbers_are_exact(m, wide, 0x1_0000_0000_0000);
    wide_rounding_stays_between(m, wide, times_d(m, d, d), v * v, zero, top);
}

proof fn lemma_squares_grow<M: Math>(
    m: &M,
    wide: spec_fn(real) -> int,
    d: Double,
    by: real,
    e: Double,
    other_by: real,
)
    requires
        rounds_d(m, wide),
        d.finite() && e.finite(),
        stands_for_d(d, wide(by)),
        stands_for_d(e, wide(other_by)),
        size(by) <= size(other_by),
        times_d(m, d, d).finite(),
        times_d(m, e, e).finite(),
    ensures
        value_d(times_d(m, d, d)) <= value_d(times_d(m, e, e)),
{
    wide_rounding_keeps_sizes(m, wide, d, by, e, other_by);
    let (v, w) = (value_d(d), value_d(e));
    assert(v * v <= w * w) by (nonlinear_arith)
        requires
            size(v) <= size(w),
    ;
    wide_values_are_in_order(times_d(m, d, d), times_d(m, e, e));
}

/// Whether a raster's cells are so many meters wide, and the center of its first
/// one is at these coordinates, all whole.
pub open spec fn lies_at(dem: &Dem, e: int, n: int, side: int) -> bool {
    &&& 1 <= side <= 0x10_0000
    &&& -0x100_0000_0000 <= e <= 0x100_0000_0000
    &&& -0x100_0000_0000 <= n <= 0x100_0000_0000
    &&& dem.cell_size_m.finite() && value(dem.cell_size_m) == side as real
    &&& dem.origin.e.finite() && value_d(dem.origin.e) == e as real
    &&& dem.origin.n.finite() && value_d(dem.origin.n) == n as real
}

/// Columns lie to the east of the first one and rows to the south, each by the
/// side of a cell.
pub proof fn cells_lie_side_by_side<M: Math>(
    m: &M,
    rnd: spec_fn(real) -> int,
    wide: spec_fn(real) -> int,
    dem: &Dem,
    e: int,
    n: int,
    side: int,
    cell: CellIdx,
)
    requires
        rounds_d(m, wide),
        converts(m, rnd),
        lies_at(dem, e, n, side),
        cell.row <= 0x10_0000 && cell.col <= 0x10_0000,
    ensures
        ({
            let at = cell_to_lv95(m, dem, cell);
            &&& at.0.finite() && value_d(at.0) == (e + cell.col * side) as real
            &&& at.1.finite() && value_d(at.1) == (n - cell.row * side) as real
        }),
{
    let cs = widen(m, dem.cell_size_m);
    let c = wide_whole_numbers_are_exact(m, wide, cell.col as int);
    let r = wide_whole_numbers_are_exact(m, wide, cell.row as int);
    let (x, y, s) = (cell.col as int, cell.row as int, side);
    assert(0 <= x * s <= 0x100_0000_0000 && 0 <= y * s <= 0x100_0000_0000) by (nonlinear_arith)
        requires
            0 <= x <= 0x10_0000,
            0 <= y <= 0x10_0000,
            1 <= s <= 0x10_0000,
    ;
    assert((x * s) as real == (x as real) * (s as real)) by (nonlinear_arith);
    assert((y * s) as real == (y as real) * (s as real)) by (nonlinear_arith);
    let p = wide_whole_numbers_are_exact(m, wide, x * s);
    let q = wide_whole_numbers_are_exact(m, wide, y * s);
    wide_rounding_keeps_sides(m, wide, times_d(m, c, cs), (x * s) as real, p);
    wide_rounding_keeps_sides(m, wide, times_d(m, r, cs), (y * s) as real, q);
    let a = wide_whole_numbers_are_exact(m, wide, e + x * s);
    let b = wide_whole_numbers_are_exact(m, wide, n - y * s);
    let at = cell_to_lv95(m, dem, cell);
    wide_rounding_keeps_sides(m, wide, at.0, (e + x * s) as real, a);
    wide_rounding_keeps_sides(m, wide, at.1, (n - y * s) as real, b);
}

/// Of a distance between half a side before and a quarter of a side behind the
/// `k`th center, in sides and rounded to whole ones: `k`.
proof fn lemma_nearest_center<M: Math>(
    m: &M,
    wide: spec_fn(real) -> int,
    far: Double,
    d: real,
    cs: Double,
    side: int,
    k: int,
)
    requires
        rounds_d(m, wide),
        steps_d(m),
        stands_for_d(far, wide(d)),
        cs.finite() && value_d(cs) == side as real,
        1 <= side <= 0x10_0000,
        -0x10_0000 <= k <= 0x10_0000,
        (4 * k * side - 2 * side) as real / 4real <= d <= (4 * k * side + side) as real / 4real,
    ensures
        to_int_d(
            m,
            floor_d(m, plus_d(m, over_d(m, far, cs), Double { bits: 0x3fe0_0000_0000_0000 })),
        ) == k,
{
    wide_one_and_half();
    let half = Double { bits: 0x3fe0_0000_0000_0000 };
    assert(-0x400_0000_0000 <= 4 * k * side <= 0x400_0000_0000) by (nonlinear_arith)
        requires
            1 <= side <= 0x10_0000,
            -0x10_0000 <= k <= 0x10_0000,
    ;
    let lo = wide_quarters_are_exact(m, wide, 4 * k * side - 2 * side);
    let hi = wide_quarters_are_exact(m, wide, 4 * k * side + side);
    wide_rounding_stays_between(m, wide, far, d, lo, hi);
    let a = wide_quarters_are_exact(m, wide, 4 * k - 2);
    let b = wide_quarters_are_exact(m, wide, 4 * k + 1);
    let (v, s, c) = (value_d(far), side as real, k as real);
    assert((4 * k * side - 2 * side) as real == 4real * c * s - 2real * s && (4 * k * side
        + side) as real == 4real * c * s + s) by (nonlinear_arith)
        requires
            s == side as real,
            c == k as real,
    ;
    assert(c - 1real / 2real <= v / s <= c + 1real / 4real) by (nonlinear_arith)
        requires
            1real <= s,
            (4real * c * s - 2real * s) / 4real <= v <= (4real * c * s + s) / 4real,
    ;
    let q = over_d(m, far, cs);
    wide_rounding_stays_between(m, wide, q, v / s, a, b);
    let x = wide_quarters_are_exact(m, wide, 4 * k);
    let y = wide_quarters_are_exact(m, wide, 4 * k + 3);
    let sum = plus_d(m, q, half);
    wide_rounding_stays_between(m, wide, sum, value_d(q) + 1real / 2real, x, y);
    assert(is_floor_d(sum, k));
    assert(is_integer_d(floor_d(m, sum), k));
}

/// A point lies in the cell whose center is nearest, if the raster has it. Stated
/// of points up to half a side west and north of a center, and a quarter of a
/// side east and south of it.
pub proof fn points_lie_in_the_nearest_cell<M: Math>(
    m: &M,
    rnd: spec_fn(real) -> int,
    wide: spec_fn(real) -> int,
    dem: &Dem,
    origin: (int, int),
    side: int,
    e: Double,
    n: Double,
    row: int,
    col: int,
)
    requires
        rounds_d(m, wide),
        converts(m, rnd),
        steps_d(m),
        lies_at(dem, origin.0, origin.1, side),
        dem.rows <= i32::MAX && dem.cols <= i32::MAX,
        e.finite() && n.finite(),
        -0x10_0000 <= row <= 0x10_0000,
        -0x10_0000 <= col <= 0x10_0000,
        (4 * col * side - 2 * side) as real / 4real <= value_d(e) - origin.0 as real <= (4 * col
            * side + side) as real / 4real,
        (4 * row * side - 2 * side) as real / 4real <= origin.1 as real - value_d(n) <= (4 * row
            * side + side) as real / 4real,
    ensures
        lv95_to_cell(m, dem, e, n) == if dem.has(row, col) {
            Some(CellIdx { row: row as u32, col: col as u32 })
        } else {
            None
        },
{
    let cs = widen(m, dem.cell_size_m);
    lemma_nearest_center(
        m,
        wide,
        minus_d(m, e, dem.origin.e),
        value_d(e) - origin.0 as real,
        cs,
        side,
        col,
    );
    lemma_nearest_center(
        m,
        wide,
        minus_d(m, dem.origin.n, n),
        origin.1 as real - value_d(n),
        cs,
        side,
        row,
    );
}

/// The center of a cell lies in the cell.
pub proof fn centers_lie_in_their_cells<M: Math>(
    m: &M,
    rnd: spec_fn(real) -> int,
    wide: spec_fn(real) -> int,
    dem: &Dem,
    e: int,
    n: int,
    side: int,
    cell: CellIdx,
)
    requires
        rounds_d(m, wide),
        converts(m, rnd),
        steps_d(m),
        lies_at(dem, e, n, side),
        dem.rows <= 0x10_0000 && dem.cols <= 0x10_0000,
        dem.has_cell(cell),
    ensures
        ({
            let at = cell_to_lv95(m, dem, cell);
            lv95_to_cell(m, dem, at.0, at.1) == Some(cell)
        }),
{
    cells_lie_side_by_side(m, rnd, wide, dem, e, n, side, cell);
    let at = cell_to_lv95(m, dem, cell);
    let (x, y) = (cell.col as int, cell.row as int);
    assert(4 * x * side == 4 * (x * side) && 4 * y * side == 4 * (y * side)) by (nonlinear_arith);
    points_lie_in_the_nearest_cell(m, rnd, wide, dem, (e, n), side, at.0, at.1, y, x);
}

/// Points in the same meter, to the east and to the north, are one node.
pub proof fn points_are_told_apart_by_the_meter<M: Math>(
    m: &M,
    p: (Double, Double),
    e: int,
    n: int,
)
    requires
        steps_d(m),
        p.0.finite() && is_nearest_d(p.0, e) && -0x1_0000_0000 <= e <= 0x1_0000_0000,
        p.1.finite() && is_nearest_d(p.1, n) && -0x1_0000_0000 <= n <= 0x1_0000_0000,
    ensures
        node_key(m, p) == (e as i64, n as i64),
{
    assert(is_integer_d(round_d(m, p.0), e));
    assert(is_integer_d(round_d(m, p.1), n));
}

/// Whether an edge joins the nodes at a leg's ends, at the leg's cost.
pub open spec fn joins<M: Math>(
    m: &M,
    dem: &Dem,
    nodes: Seq<(Double, Double)>,
    edge: (u32, u32, Single),
    leg: Leg,
) -> bool {
    &&& edge.0 < nodes.len() && node_key(m, nodes[edge.0 as int]) == node_key(m, leg.0)
    &&& edge.1 < nodes.len() && node_key(m, nodes[edge.1 as int]) == node_key(m, leg.1)
    &&& edge.2 == leg_seconds(m, dem, leg)
}

/// Whether a leg leads from one node to another and is at least half a meter long.
pub open spec fn leads_on<M: Math>(m: &M, leg: Leg) -> bool {
    node_key(m, leg.0) != node_key(m, leg.1) && !leg_length(m, leg).below(
        Single { bits: 0x3f00_0000 },
    )
}

proof fn lemma_last_edge<M: Math>(m: &M, dem: &Dem, legs: Seq<Leg>)
    requires
        0 < legs.len() <= 0x7fff_ffff,
    ensures
        match edge_of(m, dem, nodes_of(m, legs), legs.last()) {
            Some(edge) => leads_on(m, legs.last()) && joins(
                m,
                dem,
                nodes_of(m, legs),
                edge,
                legs.last(),
            ),
            None => !leads_on(m, legs.last()),
        },
{
    lemma_counts(m, dem, legs);
    let nodes = nodes_of(m, legs);
    let before = nodes_of(m, legs.drop_last());
    let mid = enter(m, before, legs.last().0);
    let leg = legs.last();
    assert(has_node(m, mid, leg.0)) by {
        if !has_node(m, before, leg.0) {
            assert(mid[before.len() as int] == leg.0);
        }
    }
    assert(has_node(m, nodes, leg.0)) by {
        let i = node_of(m, mid, leg.0);
        assert(nodes[i] == mid[i]);
    }
    assert(has_node(m, nodes, leg.1)) by {
        if !has_node(m, mid, leg.1) {
            assert(nodes[mid.len() as int] == leg.1);
        }
    }
    let (a, b) = (node_of(m, nodes, leg.0), node_of(m, nodes, leg.1));
    assert(node_key(m, nodes[a]) == node_key(m, leg.0));
    assert(node_key(m, nodes[b]) == node_key(m, leg.1));
    if a != b && node_key(m, leg.0) == node_key(m, leg.1) {
        if a < b {
            nodes_are_distinct(m, legs, a, b);
        } else {
            nodes_are_distinct(m, legs, b, a);
        }
    }
}

/// Nodes that are there stay where they are as legs are added.
proof fn lemma_nodes_stay<M: Math>(m: &M, legs: Seq<Leg>)
    requires
        0 < legs.len(),
    ensures
        nodes_of(m, legs.drop_last()).len() <= nodes_of(m, legs).len(),
        forall|i: int|
            0 <= i < nodes_of(m, legs.drop_last()).len() ==> #[trigger] nodes_of(m, legs)[i]
                == nodes_of(m, legs.drop_last())[i],
{
}

/// Every leg that leads from one node to another makes an edge between the two,
/// which takes as long as the leg.
pub proof fn legs_make_edges<M: Math>(m: &M, dem: &Dem, legs: Seq<Leg>, k: int) -> (j: int)
    requires
        legs.len() <= 0x7fff_ffff,
        0 <= k < legs.len(),
        leads_on(m, legs[k]),
    ensures
        0 <= j < edges_of(m, dem, legs).len(),
        joins(m, dem, nodes_of(m, legs), edges_of(m, dem, legs)[j], legs[k]),
    decreases legs.len(),
{
    lemma_last_edge(m, dem, legs);
    let before = legs.drop_last();
    if k == legs.len() - 1 {
        edges_of(m, dem, before).len() as int
    } else {
        let j = legs_make_edges(m, dem, before, k);
        lemma_nodes_stay(m, legs);
        assert(edges_of(m, dem, legs)[j] == edges_of(m, dem, before)[j]);
        let edge = edges_of(m, dem, before)[j];
        assert(nodes_of(m, legs)[edge.0 as int] == nodes_of(m, before)[edge.0 as int]);
        assert(nodes_of(m, legs)[edge.1 as int] == nodes_of(m, before)[edge.1 as int]);
        j
    }
}

/// Every edge is made by a leg that leads from one node to another.
pub proof fn edges_come_from_legs<M: Math>(m: &M, dem: &Dem, legs: Seq<Leg>, j: int) -> (k: int)
    requires
        legs.len() <= 0x7fff_ffff,
        0 <= j < edges_of(m, dem, legs).len(),
    ensures
        0 <= k < legs.len(),
        leads_on(m, legs[k]),
        joins(m, dem, nodes_of(m, legs), edges_of(m, dem, legs)[j], legs[k]),
    decreases legs.len(),
{
    lemma_last_edge(m, dem, legs);
    let before = legs.drop_last();
    if j < edges_of(m, dem, before).len() {
        let k = edges_come_from_legs(m, dem, before, j);
        lemma_nodes_stay(m, legs);
        assert(edges_of(m, dem, legs)[j] == edges_of(m, dem, before)[j]);
        let edge = edges_of(m, dem, before)[j];
        assert(nodes_of(m, legs)[edge.0 as int] == nodes_of(m, before)[edge.0 as int]);
        assert(nodes_of(m, legs)[edge.1 as int] == nodes_of(m, before)[edge.1 as int]);
        k
    } else {
        legs.len() - 1
    }
}

/// A node knows an edge exactly where the edge starts or ends there.
pub proof fn nodes_know_their_edges(edges: Seq<(u32, u32, Single)>, u: int, id: u32)
    requires
        edges.len() <= u32::MAX,
    ensures
        touching(edges, u).contains(id) <==> id < edges.len() && (edges[id as int].0 == u
            || edges[id as int].1 == u),
    decreases edges.len(),
{
    if edges.len() > 0 {
        let before = touching(edges.drop_last(), u);
        nodes_know_their_edges(edges.drop_last(), u, id);
        let last = (edges.len() - 1) as u32;
        assert(forall|x: u32| #[trigger]
            before.push(last).contains(x) <==> before.contains(x) || x == last) by {
            assert forall|x: u32| #[trigger]
                before.push(last).contains(x) <==> before.contains(x) || x == last by {
                assert(before.push(last)[before.len() as int] == last);
                if before.contains(x) {
                    let i = choose|i: int| 0 <= i < before.len() && before[i] == x;
                    assert(before.push(last)[i] == x);
                }
            }
        }
        let once = before.push(last);
        assert(forall|x: u32| #[trigger]
            once.push(last).contains(x) <==> once.contains(x) || x == last) by {
            assert forall|x: u32| #[trigger]
                once.push(last).contains(x) <==> once.contains(x) || x == last by {
                assert(once.push(last)[once.len() as int] == last);
                if once.contains(x) {
                    let i = choose|i: int| 0 <= i < once.len() && once[i] == x;
                    assert(once.push(last)[i] == x);
                }
            }
        }
    }
}

/// Whether nodes are at these whole coordinates, within a square of which a point
/// is the middle.
pub open spec fn lie_at(
    nodes: Seq<(Double, Double)>,
    places: Seq<(int, int)>,
    x: int,
    y: int,
) -> bool {
    &&& nodes.len() == places.len()
    &&& forall|j: int|
        0 <= j < nodes.len() ==> {
            let (node, place) = (#[trigger] nodes[j], places[j]);
            &&& node.0.finite() && value_d(node.0) == place.0 as real
            &&& node.1.finite() && value_d(node.1) == place.1 as real
            &&& -0x100_0000 <= place.0 - x <= 0x100_0000
            &&& -0x100_0000 <= place.1 - y <= 0x100_0000
        }
}

/// Square of the distance of a place from a point.
pub open spec fn off(place: (int, int), x: int, y: int) -> int {
    (place.0 - x) * (place.0 - x) + (place.1 - y) * (place.1 - y)
}

/// The nearest node is within the radius and no node is nearer; there is none
/// only where all nodes are further off than the radius.
pub proof fn nearest_nodes_are_in_reach<M: Math>(
    m: &M,
    rnd: spec_fn(real) -> int,
    wide: spec_fn(real) -> int,
    nodes: Seq<(Double, Double)>,
    places: Seq<(int, int)>,
    e: Double,
    n: Double,
    x: int,
    y: int,
    max_radius_m: Single,
    radius: int,
)
    requires
        rounds(m, rnd),
        rounds_d(m, wide),
        converts(m, rnd),
        e.finite() && value_d(e) == x as real,
        n.finite() && value_d(n) == y as real,
        lie_at(nodes, places, x, y),
        max_radius_m.finite() && value(max_radius_m) == radius as real,
        0 <= radius <= 4096,
    ensures
        match nearest_of(m, nodes, e, n, radius2(m, max_radius_m)) {
            Some(i) => {
                &&& 0 <= i < nodes.len()
                &&& off(places[i], x, y) <= radius * radius
                &&& forall|j: int|
                    0 <= j < nodes.len() ==> off(places[i], x, y) <= off(#[trigger] places[j], x, y)
            },
            None => forall|j: int|
                0 <= j < nodes.len() ==> radius * radius < off(#[trigger] places[j], x, y),
        },
{
    let r2 = radius2(m, max_radius_m);
    assert(0 <= radius * radius <= 0x100_0000) by (nonlinear_arith)
        requires
            0 <= radius <= 4096,
    ;
    let c = whole_numbers_are_exact(m, rnd, radius * radius);
    let r = radius as real;
    assert((radius * radius) as real == r * r) by (nonlinear_arith)
        requires
            r == radius as real,
    ;
    rounding_keeps_sides(m, rnd, times(m, max_radius_m, max_radius_m), r * r, c);
    assert forall|j: int| 0 <= j < nodes.len() implies distance2(
        m,
        #[trigger] nodes[j],
        e,
        n,
    ).finite() && value_d(distance2(m, nodes[j], e, n)) == off(places[j], x, y) as real by {
        let leg: Leg = ((e, n), nodes[j]);
        lemma_squared_length(m, wide, leg, places[j].0 - x, places[j].1 - y);
    }
    nearest_is_nearest(m, nodes, e, n, r2);
    match nearest_of(m, nodes, e, n, r2) {
        Some(i) => {
            wide_values_are_in_order(distance2(m, nodes[i], e, n), r2);
            assert forall|j: int| 0 <= j < nodes.len() implies off(places[i], x, y) <= off(
                #[trigger] places[j],
                x,
                y,
            ) by {
                wide_values_are_in_order(
                    distance2(m, nodes[i], e, n),
                    distance2(m, nodes[j], e, n),
                );
            }
        },
        None => {
            assert forall|j: int| 0 <= j < nodes.len() implies radius * radius < off(
                #[trigger] places[j],
                x,
                y,
            ) by {
                wide_values_are_in_order(r2, distance2(m, nodes[j], e, n));
            }
        },
    }
}

/// Costs along trails are queued within a millisecond of what they are.
pub proof fn queued_trail_costs_are_close<M: Math>(
    m: &M,
    rnd: spec_fn(real) -> int,
    graph: &TrailGraph,
    cost: Single,
    whole: int,
    c: Single,
)
    requires
        rounds(m, rnd),
        truncates(m),
        cost.finite() && c.finite(),
        0real <= value(cost) <= 16_000real,
        whole as real <= 1000real * value(cost) < (whole as real) + 1real,
    ensures
        1000real * value(c) <= 1000real * value(cost) - 1real ==> c.at_most(
            queued_cost(m, (trail_rules(m, graph).key_of)(cost)),
        ),
        1000real * value(cost) + 1real <= 1000real * value(c) ==> queued_cost(
            m,
            (trail_rules(m, graph).key_of)(cost),
        ).at_most(c),
{
    let ms = milliseconds_read_back(m, rnd, cost, whole, c);
    assert((trail_rules(m, graph).key_of)(cost) == -ms);
}

/// An edge leads from either of its ends to the other, and takes its time in both
/// directions alike.
pub proof fn edges_lead_both_ways<M: Math>(
    m: &M,
    graph: &TrailGraph,
    u: int,
    k: int,
    v: int,
    l: int,
    key: i128,
)
    requires
        graph.adj@[u]@[k] == graph.adj@[v]@[l],
        ({
            let edge = graph.edges@[graph.adj@[u]@[k] as int];
            edge.0 == u && edge.1 == v && u != v
        }),
    ensures
        ({
            let (there, back) = (
                (trail_rules(m, graph).offer)(u, k, key),
                (trail_rules(m, graph).offer)(v, l, key),
            );
            &&& there is Some && (there->0).0 == v
            &&& back is Some && (back->0).0 == u
            &&& (there->0).1 == (back->0).1
            &&& (there->0).1 == plus(
                m,
                queued_cost(m, key),
                graph.edges@[graph.adj@[u]@[k] as int].2,
            )
        }),
{
}

} // verus!
