//! Finding terrain near a point.

use crate::dem::Dem;
use crate::exact::{
    counts, digits_bound_the_value, is_ceil, is_integer, rounding_stays_between, rounds,
    sixteenths_are_exact, steps, steps_up, value, values_are_in_order, whole_numbers_are_exact,
    zero_is_nothing,
};
use crate::geom::CellIdx;
use crate::lifts::Lift;
use crate::math::{ceil, over, steady, to_i32, to_int, Math};
use crate::scalar::{Double, Single};
use crate::trail_graph::lv95_to_cell;
use vstd::arithmetic::power2::lemma2_to64;
use vstd::prelude::*;

verus! {

/// 600: how far from a lift's end its terrain may lie.
pub const LIFT_SNAP_RADIUS: u32 = 0x4416_0000;

/// Number of steps on the walk round the square ring at distance `r`.
pub open spec fn ring_len(r: int) -> int {
    4 * (2 * r + 1)
}

/// Row and column offset of the `k`-th step on the walk round the square ring at
/// distance `r`: first down its west and east edges, then along its north and
/// south edges, on both at a time.
pub open spec fn ring_step(r: int, k: int) -> (int, int) {
    let half = 2 * (2 * r + 1);
    if k < half {
        (k / 2 - r, if k % 2 == 0 { -r } else { r })
    } else {
        (if (k - half) % 2 == 0 { -r } else { r }, (k - half) / 2 - r)
    }
}

/// Whether the `k`-th step on the ring round `cell` lands on terrain.
pub open spec fn lands(dem: &Dem, cell: CellIdx, r: int, k: int) -> bool {
    let (dr, dc) = ring_step(r, k);
    dem.known(cell.row + dr, cell.col + dc)
}

/// The terrain that the `k`-th step on the ring round `cell` lands on.
pub open spec fn landing(dem: &Dem, cell: CellIdx, r: int, k: int) -> (CellIdx, Single) {
    let (dr, dc) = ring_step(r, k);
    (
        CellIdx { row: (cell.row + dr) as u32, col: (cell.col + dc) as u32 },
        dem.at(cell.row + dr, cell.col + dc),
    )
}

/// Square of the distance between a cell and another, in cells.
pub open spec fn dist2(a: CellIdx, row: int, col: int) -> int {
    (row - a.row) * (row - a.row) + (col - a.col) * (col - a.col)
}

/// The nearest terrain on the rings round `cell` before ring `r` and on the
/// first `k` steps of ring `r`; of equally near terrain the first on the walk.
pub open spec fn nearest_before(dem: &Dem, cell: CellIdx, r: int, k: int) -> Option<
    (CellIdx, Single),
>
    decreases r, k,
{
    if r < 1 {
        None
    } else if k <= 0 {
        nearest_before(dem, cell, r - 1, ring_len(r - 1))
    } else {
        let before = nearest_before(dem, cell, r, k - 1);
        if lands(dem, cell, r, k - 1) && closer(
            cell,
            landing(dem, cell, r, k - 1),
            before,
        ) {
            Some(landing(dem, cell, r, k - 1))
        } else {
            before
        }
    }
}

/// Whether terrain is nearer than what was found before.
pub open spec fn closer(
    cell: CellIdx,
    found: (CellIdx, Single),
    before: Option<(CellIdx, Single)>,
) -> bool {
    match before {
        Some((c, _)) => dist2(cell, found.0.row as int, found.0.col as int) < dist2(
            cell,
            c.row as int,
            c.col as int,
        ),
        None => true,
    }
}

/// How many rings fit into a radius.
pub open spec fn ring_count<M: Math>(m: &M, dem: &Dem, max_radius_m: Single) -> int {
    to_i32(to_int(m, ceil(m, over(m, max_radius_m, dem.cell_size_m)))) as int
}

/// The terrain at a point or, where there is none, the nearest on the rings
/// round it.
pub open spec fn spec_snap_to_finite_cell<M: Math>(
    m: &M,
    dem: &Dem,
    e: Double,
    n: Double,
    max_radius_m: Single,
) -> Option<(CellIdx, Single)> {
    match lv95_to_cell(m, dem, e, n) {
        None => None,
        Some(cell) => if dem.known(cell.row as int, cell.col as int) {
            Some((cell, dem.at(cell.row as int, cell.col as int)))
        } else {
            nearest_before(dem, cell, ring_count(m, dem, max_radius_m) + 1, 0)
        },
    }
}

/// Distance between two cells, counted in rings.
pub open spec fn rings_apart(a: CellIdx, row: int, col: int) -> int {
    let dr = if row < a.row {
        a.row - row
    } else {
        row - a.row
    };
    let dc = if col < a.col {
        a.col - col
    } else {
        col - a.col
    };
    if dr < dc {
        dc
    } else {
        dr
    }
}

/// Whether `found` is the nearest terrain to `cell` within `last` rings: no other
/// terrain there is nearer, and only where there is none, none is found.
pub open spec fn is_nearest(
    dem: &Dem,
    cell: CellIdx,
    last: int,
    found: Option<(CellIdx, Single)>,
) -> bool {
    match found {
        Some((c, z)) => {
            &&& dem.known(c.row as int, c.col as int)
            &&& z == dem.at(c.row as int, c.col as int)
            &&& c == cell || rings_apart(cell, c.row as int, c.col as int) <= last
            &&& forall|row: int, col: int| #[trigger]
                dem.known(row, col) && rings_apart(cell, row, col) <= last ==> dist2(
                    cell,
                    c.row as int,
                    c.col as int,
                ) <= dist2(cell, row, col)
        },
        None => forall|row: int, col: int| #[trigger]
            dem.known(row, col) ==> last < rings_apart(cell, row, col),
    }
}

proof fn lemma_ring_covers(r: int, dr: int, dc: int)
    requires
        0 < r,
        -r <= dr <= r,
        -r <= dc <= r,
        dr == r || dr == -r || dc == r || dc == -r,
    ensures
        exists|k: int| 0 <= k < ring_len(r) && #[trigger] ring_step(r, k) == (dr, dc),
{
    let half = 2 * (2 * r + 1);
    if dc == r || dc == -r {
        let k = 2 * (dr + r) + if dc == r { 1int } else { 0int };
        assert(ring_step(r, k) == (dr, dc));
    } else {
        let k = half + 2 * (dc + r) + if dr == r { 1int } else { 0int };
        assert(ring_step(r, k) == (dr, dc));
    }
}

/// No cell on a ring is nearer than the ring.
proof fn lemma_ring_dist(r: int, k: int)
    requires
        0 < r,
        0 <= k < ring_len(r),
    ensures
        ({
            let (dr, dc) = ring_step(r, k);
            &&& -r <= dr <= r
            &&& -r <= dc <= r
            &&& dr == r || dr == -r || dc == r || dc == -r
            &&& r * r <= dr * dr + dc * dc
        }),
{
    let (dr, dc) = ring_step(r, k);
    assert(r * r <= dr * dr + dc * dc) by (nonlinear_arith)
        requires
            dr == r || dr == -r || dc == r || dc == -r,
    ;
}

/// What has been found on the walk is the nearest of what was passed.
proof fn lemma_nearest_before(dem: &Dem, cell: CellIdx, r: int, k: int)
    requires
        0 <= r,
        0 <= k <= ring_len(r),
    ensures
        nearest_before(dem, cell, r, k) matches Some((c, z)) ==> dem.known(
            c.row as int,
            c.col as int,
        ) && z == dem.at(c.row as int, c.col as int) && (rings_apart(
            cell,
            c.row as int,
            c.col as int,
        ) < r || k > 0 && rings_apart(cell, c.row as int, c.col as int) <= r),
        forall|row: int, col: int| #[trigger]
            dem.known(row, col) && 1 <= rings_apart(cell, row, col) < r ==> !closer(
                cell,
                (CellIdx { row: row as u32, col: col as u32 }, dem.at(row, col)),
                nearest_before(dem, cell, r, k),
            ),
        forall|j: int|
            0 <= j < k && 0 < r && #[trigger] lands(dem, cell, r, j) ==> !closer(
                cell,
                landing(dem, cell, r, j),
                nearest_before(dem, cell, r, k),
            ),
    decreases r, k,
{
    if r >= 1 {
        let now = nearest_before(dem, cell, r, k);
        if k <= 0 {
            lemma_nearest_before(dem, cell, r - 1, ring_len(r - 1));
            assert forall|row: int, col: int| #[trigger]
                dem.known(row, col) && 1 <= rings_apart(cell, row, col) < r implies !closer(
                cell,
                (CellIdx { row: row as u32, col: col as u32 }, dem.at(row, col)),
                now,
            ) by {
                if rings_apart(cell, row, col) == r - 1 {
                    lemma_ring_covers(r - 1, row - cell.row, col - cell.col);
                    let j = choose|j: int|
                        0 <= j < ring_len(r - 1) && #[trigger] ring_step(r - 1, j) == (
                            row - cell.row,
                            col - cell.col,
                        );
                    assert(lands(dem, cell, r - 1, j));
                }
            }
        } else {
            lemma_nearest_before(dem, cell, r, k - 1);
            lemma_ring_dist(r, k - 1);
        }
    }
}

/// Farther rings hold nothing nearer than what is at most as far as the ring.
proof fn lemma_rings_beyond(dem: &Dem, cell: CellIdx, r: int, last: int, k: int)
    requires
        1 <= r <= last,
        0 <= k <= ring_len(last),
        nearest_before(dem, cell, r, 0) matches Some((c, _)) && dist2(
            cell,
            c.row as int,
            c.col as int,
        ) <= r * r,
    ensures
        nearest_before(dem, cell, last, k) == nearest_before(dem, cell, r, 0),
    decreases last, k,
{
    if k > 0 {
        lemma_rings_beyond(dem, cell, r, last, k - 1);
        lemma_ring_dist(last, k - 1);
        assert(r * r <= last * last) by (nonlinear_arith)
            requires
                1 <= r <= last,
        ;
    } else if last > r {
        lemma_rings_beyond(dem, cell, r, last - 1, ring_len(last - 1));
    }
}

/// Walks a ring in search of nearer terrain than `before`.
fn search_ring(dem: &Dem, cell: CellIdx, r: i64, before: Option<(CellIdx, Single)>) -> (found:
    Option<(CellIdx, Single)>)
    requires
        dem.wf(),
        1 <= r <= i32::MAX,
        before == nearest_before(dem, cell, r as int, 0),
    ensures
        found == nearest_before(dem, cell, r + 1, 0),
{
    let half: i64 = 2 * (2 * r + 1);
    let mut best = before;
    let mut k: i64 = 0;
    while k < 2 * half
        invariant
            dem.wf(),
            1 <= r <= i32::MAX,
            half == 2 * (2 * r + 1),
            0 <= k <= 2 * half,
            best == nearest_before(dem, cell, r as int, k as int),
        decreases 2 * half - k,
    {
        let (dr, dc): (i64, i64) = if k < half {
            (k / 2 - r, if k % 2 == 0 { -r } else { r })
        } else {
            (if (k - half) % 2 == 0 { -r } else { r }, (k - half) / 2 - r)
        };
        assert((dr as int, dc as int) == ring_step(r as int, k as int));
        let row: i64 = cell.row as i64 + dr;
        let col: i64 = cell.col as i64 + dc;
        if 0 <= row && row < dem.rows as i64 && 0 <= col && col < dem.cols as i64 {
            if let Some(z) = dem.get(row as u32, col as u32) {
                let at = CellIdx::new(row as u32, col as u32);
                let near: bool = match best {
                    Some((c, _)) => squared(cell, at) < squared(cell, c),
                    None => true,
                };
                if near {
                    best = Some((at, z));
                }
            }
        }
        k = k + 1;
    }
    best
}

/// Square of the distance between two cells.
fn squared(a: CellIdx, b: CellIdx) -> (r: i128)
    ensures
        r == dist2(a, b.row as int, b.col as int),
{
    let dr: i128 = b.row as i128 - a.row as i128;
    let dc: i128 = b.col as i128 - a.col as i128;
    assert(0 <= dr * dr <= 0x1_0000_0000 * 0x1_0000_0000 && 0 <= dc * dc <= 0x1_0000_0000
        * 0x1_0000_0000) by (nonlinear_arith)
        requires
            -0x1_0000_0000 <= dr <= 0x1_0000_0000,
            -0x1_0000_0000 <= dc <= 0x1_0000_0000,
    ;
    dr * dr + dc * dc
}

/// Project an LV95 point and, if the projected cell is NaN (outside any
/// fetched peak region), search outward ring by ring, up to `max_radius_m`, for
/// the nearest cell with finite terrain. Lets lift endpoints in valley areas not
/// yet covered by peak bboxes still anchor to a nearby DEM cell.
#[verifier::when_used_as_spec(spec_snap_to_finite_cell)]
pub fn snap_to_finite_cell<M: Math>(
    m: &M,
    dem: &Dem,
    e: Double,
    n: Double,
    max_radius_m: Single,
) -> (found: Option<(CellIdx, Single)>)
    requires
        steady(m),
        dem.wf(),
    ensures
        found == snap_to_finite_cell(m, dem, e, n, max_radius_m),
        match lv95_to_cell(m, dem, e, n) {
            Some(cell) => is_nearest(dem, cell, ring_count(m, dem, max_radius_m), found),
            None => found is None,
        },
{
    proof {
        snapped_terrain_is_nearest(m, dem, e, n, max_radius_m);
    }
    let cell = match lv95_to_cell(m, dem, e, n) {
        Some(cell) => cell,
        None => {
            return None;
        },
    };
    if let Some(z) = dem.get(cell.row, cell.col) {
        return Some((cell, z));
    }
    let last: i64 = to_i32(to_int(m, ceil(m, over(m, max_radius_m, dem.cell_size_m)))) as i64;
    let mut best: Option<(CellIdx, Single)> = None;
    let mut r: i64 = 1;
    assert(best == nearest_before(dem, cell, 1, 0)) by {
        reveal_with_fuel(nearest_before, 2);
    }
    while r <= last
        invariant
            dem.wf(),
            1 <= r,
            r <= last + 1 || r == 1,
            last == ring_count(m, dem, max_radius_m),
            lv95_to_cell(m, dem, e, n) == Some(cell),
            last <= i32::MAX,
            is_nearest(dem, cell, last as int, snap_to_finite_cell(m, dem, e, n, max_radius_m)),
            best == nearest_before(dem, cell, r as int, 0),
            snap_to_finite_cell(m, dem, e, n, max_radius_m) == nearest_before(
                dem,
                cell,
                last + 1,
                0,
            ),
        decreases last + 1 - r,
    {
        if let Some((c, _)) = best {
            // No cell on this ring or beyond is nearer than the ring.
            assert(0 <= r * r <= 0x8000_0000 * 0x8000_0000) by (nonlinear_arith)
                requires
                    1 <= r <= 0x8000_0000,
            ;
            if squared(cell, c) <= r as i128 * r as i128 {
                proof {
                    lemma_rings_beyond(dem, cell, r as int, last + 1, 0);
                }
                return best;
            }
        }
        best = search_ring(dem, cell, r, best);
        r = r + 1;
    }
    best
}

/// A lift's two ends on the terrain: its lower and its upper end, and the
/// altitude there.
pub open spec fn spec_lift_endpoints_to_cells<M: Math>(m: &M, dem: &Dem, lift: &Lift) -> Option<
    (CellIdx, CellIdx, Single, Single),
> {
    let radius = Single { bits: LIFT_SNAP_RADIUS };
    match (
        snap_to_finite_cell(m, dem, lift.lower.e, lift.lower.n, radius),
        snap_to_finite_cell(m, dem, lift.upper.e, lift.upper.n, radius),
    ) {
        (Some((lo, lo_alt)), Some((hi, hi_alt))) => Some((lo, hi, lo_alt, hi_alt)),
        _ => None,
    }
}

/// Map a lift's two LV95 endpoints onto DEM cells, each with the nearest
/// terrain.
#[verifier::when_used_as_spec(spec_lift_endpoints_to_cells)]
pub fn lift_endpoints_to_cells<M: Math>(m: &M, dem: &Dem, lift: &Lift) -> (r: Option<
    (CellIdx, CellIdx, Single, Single),
>)
    requires
        steady(m),
        dem.wf(),
    ensures
        r == lift_endpoints_to_cells(m, dem, lift),
{
    let radius = Single { bits: LIFT_SNAP_RADIUS };
    let (lo, lo_alt) = match snap_to_finite_cell(m, dem, lift.lower.e, lift.lower.n, radius) {
        Some(found) => found,
        None => {
            return None;
        },
    };
    let (hi, hi_alt) = match snap_to_finite_cell(m, dem, lift.upper.e, lift.upper.n, radius) {
        Some(found) => found,
        None => {
            return None;
        },
    };
    Some((lo, hi, lo_alt, hi_alt))
}

/// The terrain found for a point is the nearest within the radius, and a point
/// finds terrain if there is some within the radius.
pub proof fn snapped_terrain_is_nearest<M: Math>(
    m: &M,
    dem: &Dem,
    e: Double,
    n: Double,
    max_radius_m: Single,
)
    ensures
        match lv95_to_cell(m, dem, e, n) {
            Some(cell) => is_nearest(
                dem,
                cell,
                ring_count(m, dem, max_radius_m),
                snap_to_finite_cell(m, dem, e, n, max_radius_m),
            ),
            None => snap_to_finite_cell(m, dem, e, n, max_radius_m) is None,
        },
{
    if let Some(cell) = lv95_to_cell(m, dem, e, n) {
        let last = ring_count(m, dem, max_radius_m);
        let found = snap_to_finite_cell(m, dem, e, n, max_radius_m);
        if dem.known(cell.row as int, cell.col as int) {
            assert forall|row: int, col: int| 0 <= #[trigger] dist2(cell, row, col) by {
                lemma_dist2(cell, row, col);
            }
        } else {
            assert forall|row: int, col: int| #[trigger] dem.known(row, col) implies 1
                <= rings_apart(cell, row, col) by {}
            if 0 <= last {
                lemma_nearest_before(dem, cell, last + 1, 0);
                assert forall|row: int, col: int| #[trigger] dem.known(row, col) && rings_apart(
                    cell,
                    row,
                    col,
                ) <= last implies !closer(
                    cell,
                    (CellIdx { row: row as u32, col: col as u32 }, dem.at(row, col)),
                    found,
                ) by {}
            }
        }
    }
}

proof fn lemma_dist2(a: CellIdx, row: int, col: int)
    ensures
        0 <= dist2(a, row, col),
{
    let dr = row - a.row;
    let dc = col - a.col;
    assert(0 <= dr * dr && 0 <= dc * dc) by (nonlinear_arith);
}

/// Terrain is looked for on as many rings as it takes to reach the radius: one
/// more than there are whole cells in it, if any of it is left.
pub proof fn rings_reach_the_radius<M: Math>(
    m: &M,
    rnd: spec_fn(real) -> int,
    dem: &Dem,
    max_radius_m: Single,
    rings: int,
)
    requires
        rounds(m, rnd),
        steps(m),
        steps_up(m),
        dem.cell_size_m.finite() && 0real < value(dem.cell_size_m),
        max_radius_m.finite(),
        1 <= rings <= 0x8_0000,
        (16real * rings as real - 15real) * value(dem.cell_size_m) <= 16real * value(max_radius_m),
        value(max_radius_m) <= rings as real * value(dem.cell_size_m),
    ensures
        ring_count(m, dem, max_radius_m) == rings,
{
    let (r, s, k) = (value(max_radius_m), value(dem.cell_size_m), rings as real);
    assert(k - 15real / 16real <= r / s <= k) by (nonlinear_arith)
        requires
            0real < s,
            (16real * k - 15real) * s <= 16real * r,
            r <= k * s,
    ;
    let q = over(m, max_radius_m, dem.cell_size_m);
    let hi = whole_numbers_are_exact(m, rnd, rings);
    if rings == 1 {
        lemma_sixteenth();
        rounding_stays_between(m, rnd, q, r / s, Single { bits: 0x3d80_0000 }, hi);
    } else {
        let lo = sixteenths_are_exact(m, rnd, 16 * rings - 15);
        rounding_stays_between(m, rnd, q, r / s, lo, hi);
    }
    assert(is_ceil(q, rings));
    assert(is_integer(ceil(m, q), rings));
}

proof fn lemma_sixteenth()
    ensures
        (Single { bits: 0x3d80_0000 }).finite(),
        value(Single { bits: 0x3d80_0000 }) == 1real / 16real,
{
    lemma2_to64();
    digits_bound_the_value(
        Single { bits: 0x3d80_0000 },
        123,
        0x80_0000,
        0x800_0000,
        1real / 16real,
        1real / 16real,
    );
}

/// The ends of a lift are on the nearest terrain within 600 meters, and a lift
/// that has none at one of its ends has no ends.
pub proof fn lift_ends_are_within_600_meters<M: Math>(
    m: &M,
    dem: &Dem,
    lift: &Lift,
    radius: Single,
)
    requires
        counts(radius, 600),
    ensures
        match lift_endpoints_to_cells(m, dem, lift) {
            Some((lo, hi, lo_alt, hi_alt)) => {
                &&& snap_to_finite_cell(m, dem, lift.lower.e, lift.lower.n, radius) == Some(
                    (lo, lo_alt),
                )
                &&& snap_to_finite_cell(m, dem, lift.upper.e, lift.upper.n, radius) == Some(
                    (hi, hi_alt),
                )
            },
            None => snap_to_finite_cell(m, dem, lift.lower.e, lift.lower.n, radius) is None
                || snap_to_finite_cell(m, dem, lift.upper.e, lift.upper.n, radius) is None,
        },
{
    lemma2_to64();
    zero_is_nothing();
    let r = Single { bits: 0x4416_0000 };
    digits_bound_the_value(r, 136, 0x96_0000, 0x4000, 600real, 600real);
    values_are_in_order(r, radius);
    values_are_in_order(Single { bits: 0 }, radius);
    assert(r == radius);
}

} // verus!
