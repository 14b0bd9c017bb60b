//! Terrain operations: slope, aspect, roughness from a DEM.
//!
//! All grids returned are row-major, same shape as the input DEM. Edge cells and
//! cells whose 3x3 neighborhood contains nodata are NaN.

use crate::dem::{lemma_flat_in_range, Dem};
use crate::exact::{
    counts, differences_stay_within, digits_bound_the_value, negation_is_exact, powers_of_two,
    rounding_keeps_order, rounding_keeps_sides, rounding_keeps_sizes, rounding_stays_between,
    roots_keep_sides, rounds, size, stands_for, sums_stay_within, two_to_the_28th,
    two_to_the_31st, value, values_are_in_order,
    whole_arithmetic_is_exact, whole_numbers_are_exact, zero_is_nothing,
};
use crate::exact_wide::{
    converts, holds, rounds_d, value_d, wide_nine, wide_one_and_half, wide_roots_keep_sides,
    wide_values_are_in_order, wide_whole_arithmetic_is_exact, wide_whole_numbers_are_exact,
    wide_whole_quotients_are_exact, wide_zero_is_nothing,
};
use crate::geom::{turns_in_degrees, FULL_TURN};
use crate::math::{
    atan, atan2, degrees, minus, minus_d, narrow, over, over_d, plus, plus_d, single, sqrt, sqrt_d,
    steady, times, times_d, widen, Math,
};
use crate::scalar::{Double, Single};
use vstd::arithmetic::power2::{lemma2_to64, lemma2_to64_rest};
use vstd::prelude::*;

verus! {

/// 8, the weight of the cells in Horn's gradient.
pub const HORN_WEIGHT: u32 = 0x4100_0000;

/// 2.
pub const TWO: u32 = 0x4000_0000;

/// 0.000001: gradients below count as level ground.
pub const LEVEL: u32 = 0x3586_37bd;

/// 9 in double precision.
pub const NINE_D: u64 = 0x4022_0000_0000_0000;

/// 0.000000000001 in double precision.
pub const SINGULAR_D: u64 = 0x3d71_9799_812d_ea11;

/// Per-cell slope and aspect computed via Horn's 3x3 method.
#[derive(Debug)]
pub struct SlopeAspect {
    /// Slope angle in degrees [0, 90).
    pub slope_deg: Vec<Single>,
    /// Compass aspect of the downhill direction, degrees from N [0, 360).
    /// NaN where slope is effectively zero (no defined aspect).
    pub aspect_deg: Vec<Single>,
}

/// Whether the 3x3 neighborhood of (row, col) lies in the raster and holds
/// data.
pub open spec fn surrounded(dem: &Dem, row: int, col: int) -> bool {
    forall|dr: int, dc: int|
        -1 <= dr <= 1 && -1 <= dc <= 1 ==> #[trigger] dem.known(row + dr, col + dc)
}

/// Whether the 3x3 neighborhood of (row, col) lies in the raster and holds
/// data.
fn is_surrounded(dem: &Dem, row: u32, col: u32) -> (r: bool)
    requires
        dem.wf(),
        dem.has(row as int, col as int),
    ensures
        r == surrounded(dem, row as int, col as int),
{
    if row == 0 || col == 0 || row == dem.rows - 1 || col == dem.cols - 1 {
        assert(!dem.known(row + -1, col + -1) || !dem.known(row + 1, col + 1));
        return false;
    }
    assert(dem.known(row - 1, col - 1) == dem.known(row + -1, col + -1));
    let r = dem.get(row - 1, col - 1).is_some() && dem.get(row - 1, col).is_some() && dem.get(
        row - 1,
        col + 1,
    ).is_some() && dem.get(row, col - 1).is_some() && dem.get(row, col).is_some() && dem.get(
        row,
        col + 1,
    ).is_some() && dem.get(row + 1, col - 1).is_some() && dem.get(row + 1, col).is_some()
        && dem.get(row + 1, col + 1).is_some();
    proof {
        if surrounded(dem, row as int, col as int) {
            assert(dem.known(row + -1, col + -1) && dem.known(row + -1, col + 0) && dem.known(
                row + -1,
                col + 1,
            ));
            assert(dem.known(row + 0, col + -1) && dem.known(row + 0, col + 0) && dem.known(
                row + 0,
                col + 1,
            ));
            assert(dem.known(row + 1, col + -1) && dem.known(row + 1, col + 0) && dem.known(
                row + 1,
                col + 1,
            ));
        }
    }
    r
}

/// The rise of the terrain eastward and northward at (row, col), by Horn's
/// weighted differences over the eight neighbors.
pub open spec fn gradient<M: Math>(m: &M, dem: &Dem, row: int, col: int) -> (Single, Single) {
    let two = Single { bits: TWO };
    let denom = times(m, Single { bits: HORN_WEIGHT }, dem.cell_size_m);
    let nw = dem.at(row - 1, col - 1);
    let n = dem.at(row - 1, col);
    let ne = dem.at(row - 1, col + 1);
    let w = dem.at(row, col - 1);
    let e = dem.at(row, col + 1);
    let sw = dem.at(row + 1, col - 1);
    let s = dem.at(row + 1, col);
    let se = dem.at(row + 1, col + 1);
    let east = plus(m, plus(m, ne, times(m, two, e)), se);
    let west = plus(m, plus(m, nw, times(m, two, w)), sw);
    let north = plus(m, plus(m, nw, times(m, two, n)), ne);
    let south = plus(m, plus(m, sw, times(m, two, s)), se);
    (over(m, minus(m, east, west), denom), over(m, minus(m, north, south), denom))
}

/// Steepness of a gradient.
pub open spec fn steepness<M: Math>(m: &M, g: (Single, Single)) -> Single {
    sqrt(m, plus(m, times(m, g.0, g.0), times(m, g.1, g.1)))
}

/// Slope angle at (row, col) in degrees.
pub open spec fn slope_at<M: Math>(m: &M, dem: &Dem, row: int, col: int) -> Single {
    if surrounded(dem, row, col) {
        degrees(m, atan(m, steepness(m, gradient(m, dem, row, col))))
    } else {
        Single { bits: 0x7fc0_0000 }
    }
}

/// Compass direction that a gradient falls in.
pub open spec fn downhill<M: Math>(m: &M, g: (Single, Single)) -> Single {
    let deg = degrees(m, atan2(m, g.0.neg(), g.1.neg()));
    let turned = if deg.below(Single { bits: 0 }) {
        plus(m, deg, Single { bits: FULL_TURN })
    } else {
        deg
    };
    if (Single { bits: FULL_TURN }).at_most(turned) {
        Single { bits: 0 }
    } else {
        turned
    }
}

/// The direction of a gradient is in [0, 360), wherever the angle is a number
/// and a full turn makes it positive.
pub proof fn downhill_is_in_range<M: Math>(m: &M, g: (Single, Single))
    requires
        ({
            let deg = degrees(m, atan2(m, g.0.neg(), g.1.neg()));
            !deg.nan() && (deg.below(Single { bits: 0 }) ==> (Single { bits: 0 }).at_most(
                plus(m, deg, Single { bits: FULL_TURN }),
            ))
        }),
    ensures
        (Single { bits: 0 }).at_most(downhill(m, g)),
        downhill(m, g).below(Single { bits: FULL_TURN }),
{
}

/// Compass direction that the terrain faces at (row, col); none on level
/// ground.
pub open spec fn aspect_at<M: Math>(m: &M, dem: &Dem, row: int, col: int) -> Single {
    let g = gradient(m, dem, row, col);
    if surrounded(dem, row, col) && !steepness(m, g).below(Single { bits: LEVEL }) {
        downhill(m, g)
    } else {
        Single { bits: 0x7fc0_0000 }
    }
}

/// Slope angle and aspect of one cell.
fn slope_and_aspect<M: Math>(m: &M, dem: &Dem, row: u32, col: u32) -> (r: (Single, Single))
    requires
        steady(m),
        dem.wf(),
        dem.has(row as int, col as int),
    ensures
        r.0 == slope_at(m, dem, row as int, col as int),
        r.1 == aspect_at(m, dem, row as int, col as int),
{
    if !is_surrounded(dem, row, col) {
        return (Single::missing(), Single::missing());
    }
    proof {
        assert(dem.known(row + -1, col + -1));
        assert(dem.known(row + 1, col + 1));
        lemma_flat_in_range(dem.rows as int, dem.cols as int, row - 1, col - 1);
        lemma_flat_in_range(dem.rows as int, dem.cols as int, row - 1, col as int);
        lemma_flat_in_range(dem.rows as int, dem.cols as int, row - 1, col + 1);
        lemma_flat_in_range(dem.rows as int, dem.cols as int, row as int, col - 1);
        lemma_flat_in_range(dem.rows as int, dem.cols as int, row as int, col + 1);
        lemma_flat_in_range(dem.rows as int, dem.cols as int, row + 1, col - 1);
        lemma_flat_in_range(dem.rows as int, dem.cols as int, row + 1, col as int);
        lemma_flat_in_range(dem.rows as int, dem.cols as int, row + 1, col + 1);
    }
    // Row 0 is northernmost; row+1 is south of row.
    let nw = dem.data[dem.idx(row - 1, col - 1)];
    let n = dem.data[dem.idx(row - 1, col)];
    let ne = dem.data[dem.idx(row - 1, col + 1)];
    let w = dem.data[dem.idx(row, col - 1)];
    let e = dem.data[dem.idx(row, col + 1)];
    let sw = dem.data[dem.idx(row + 1, col - 1)];
    let s = dem.data[dem.idx(row + 1, col)];
    let se = dem.data[dem.idx(row + 1, col + 1)];

    let two = Single { bits: TWO };
    let denom = times(m, Single { bits: HORN_WEIGHT }, dem.cell_size_m);
    let east = plus(m, plus(m, ne, times(m, two, e)), se);
    let west = plus(m, plus(m, nw, times(m, two, w)), sw);
    let north = plus(m, plus(m, nw, times(m, two, n)), ne);
    let south = plus(m, plus(m, sw, times(m, two, s)), se);
    let dz_dx = over(m, minus(m, east, west), denom);
    let dz_dn = over(m, minus(m, north, south), denom);

    let mag = sqrt(m, plus(m, times(m, dz_dx, dz_dx), times(m, dz_dn, dz_dn)));
    let slope = degrees(m, atan(m, mag));
    if mag.lt(&Single { bits: LEVEL }) {
        return (slope, Single::missing());
    }
    let turn = Single { bits: FULL_TURN };
    let deg = degrees(m, atan2(m, dz_dx.neg(), dz_dn.neg()));
    let turned = if deg.lt(&Single::zero()) {
        plus(m, deg, turn)
    } else {
        deg
    };
    let aspect = if turn.le(&turned) {
        Single::zero()
    } else {
        turned
    };
    (slope, aspect)
}

/// Compute slope and aspect grids using Horn (1981).
///
/// Aspect convention: 0 = north, 90 = east, 180 = south, 270 = west: the
/// compass direction the slope FACES (i.e., the downhill direction).
pub fn slope_aspect<M: Math>(m: &M, dem: &Dem) -> (r: SlopeAspect)
    requires
        steady(m),
        dem.wf(),
    ensures
        r.slope_deg@.len() == dem.data@.len(),
        r.aspect_deg@.len() == dem.data@.len(),
        forall|u: int|
            0 <= u < dem.data@.len() ==> #[trigger] r.slope_deg@[u] == slope_at(
                m,
                dem,
                dem.cell_of(u).row as int,
                dem.cell_of(u).col as int,
            ),
        forall|u: int|
            0 <= u < dem.data@.len() ==> #[trigger] r.aspect_deg@[u] == aspect_at(
                m,
                dem,
                dem.cell_of(u).row as int,
                dem.cell_of(u).col as int,
            ),
{
    let n: usize = dem.data.len();
    let mut slope_deg: Vec<Single> = Vec::new();
    let mut aspect_deg: Vec<Single> = Vec::new();
    let mut u: usize = 0;
    while u < n
        invariant
            steady(m),
            dem.wf(),
            n == dem.data@.len(),
            u <= n,
            slope_deg@.len() == u,
            aspect_deg@.len() == u,
            forall|v: int|
                0 <= v < u ==> #[trigger] slope_deg@[v] == slope_at(
                    m,
                    dem,
                    dem.cell_of(v).row as int,
                    dem.cell_of(v).col as int,
                ),
            forall|v: int|
                0 <= v < u ==> #[trigger] aspect_deg@[v] == aspect_at(
                    m,
                    dem,
                    dem.cell_of(v).row as int,
                    dem.cell_of(v).col as int,
                ),
        decreases n - u,
    {
        let cell = dem.cell_at(u);
        let (slope, aspect) = slope_and_aspect(m, dem, cell.row, cell.col);
        slope_deg.push(slope);
        aspect_deg.push(aspect);
        u = u + 1;
    }
    SlopeAspect { slope_deg, aspect_deg }
}

/// Whether `m` knows compass directions: of the way `x` east and `y` north, in
/// degrees from the north, clockwise to the east.
pub open spec fn knows_directions<M: Math>(m: &M) -> bool {
    forall|x: Single, y: Single|
        !x.nan() && !y.nan() && !(x.rank() == 0 && y.rank() == 0) ==> is_direction(
            x,
            y,
            #[trigger] degrees(m, atan2(m, x, y)),
        )
}

/// Whether `deg` is in the quarter that the way `x` east and `y` north leads to.
pub open spec fn is_direction(x: Single, y: Single, deg: Single) -> bool {
    &&& deg.finite()
    &&& -180real <= value(deg) <= 180real
    &&& 0 < x.rank() ==> 0real <= value(deg)
    &&& x.rank() < 0 ==> value(deg) <= 0real
    &&& 0 <= y.rank() ==> -90real <= value(deg) <= 90real
    &&& y.rank() <= 0 ==> value(deg) <= -90real || 90real <= value(deg)
    &&& x.rank() == 0 && 0 < y.rank() ==> value(deg) == 0real
    &&& x.rank() == 0 && y.rank() < 0 ==> value(deg) == 180real || value(deg) == -180real
}

/// Whether the terrain round (row, col) is known, and no higher or lower than
/// mountains are.
pub open spec fn is_ground(dem: &Dem, row: int, col: int) -> bool {
    &&& surrounded(dem, row, col)
    &&& forall|dr: int, dc: int|
        -1 <= dr <= 1 && -1 <= dc <= 1 ==> -65_000real <= value(#[trigger] dem.at(row + dr, col + dc))
            <= 65_000real
    &&& dem.cell_size_m.finite()
    &&& 1real / 1000real <= value(dem.cell_size_m) <= 65_000real
}

/// Whether the terrain is nowhere higher in column `col + a` than in column
/// `col + b`, of the three rows round `row`.
pub open spec fn column_below(dem: &Dem, row: int, col: int, a: int, b: int) -> bool {
    forall|dr: int|
        -1 <= dr <= 1 ==> value(#[trigger] dem.at(row + dr, col + a)) <= value(
            dem.at(row + dr, col + b),
        )
}

/// Whether the terrain is nowhere higher in row `row + a` than in row `row + b`,
/// of the three columns round `col`.
pub open spec fn row_below(dem: &Dem, row: int, col: int, a: int, b: int) -> bool {
    forall|dc: int|
        -1 <= dc <= 1 ==> value(#[trigger] dem.at(row + a, col + dc)) <= value(
            dem.at(row + b, col + dc),
        )
}

/// Horn's sum of three altitudes, the middle one twice.
spec fn horn<M: Math>(m: &M, a: Single, b: Single, c: Single) -> Single {
    plus(m, plus(m, a, times(m, Single { bits: 0x4000_0000 }, b)), c)
}

spec fn is_altitude(z: Single) -> bool {
    z.finite() && -65_000real <= value(z) <= 65_000real
}

proof fn lemma_horn<M: Math>(m: &M, rnd: spec_fn(real) -> int, a: Single, b: Single, c: Single) -> (
    r: (Single, Single))
    requires
        rounds(m, rnd),
        is_altitude(a) && is_altitude(b) && is_altitude(c),
    ensures
        r.0.finite() && r.1.finite() && horn(m, a, b, c).finite(),
        -524_288real <= value(horn(m, a, b, c)) <= 524_288real,
        stands_for(r.0, rnd(2real * value(b))),
        stands_for(r.1, rnd(value(a) + value(r.0))),
        stands_for(horn(m, a, b, c), rnd(value(r.1) + value(c))),
{
    powers_of_two();
    let two = Single { bits: 0x4000_0000 };
    let twice = times(m, two, b);
    let bound = Single { bits: 0x4800_0000 };
    negation_is_exact(bound);
    rounding_stays_between(m, rnd, twice, value(two) * value(b), bound.neg(), bound);
    sums_stay_within(m, rnd, a, twice, Single { bits: 0x4880_0000 });
    let sum = plus(m, a, twice);
    sums_stay_within(m, rnd, sum, c, Single { bits: 0x4900_0000 });
    (twice, sum)
}

proof fn lemma_horn_grows<M: Math>(
    m: &M,
    rnd: spec_fn(real) -> int,
    a: Single,
    b: Single,
    c: Single,
    x: Single,
    y: Single,
    z: Single,
)
    requires
        rounds(m, rnd),
        is_altitude(a) && is_altitude(b) && is_altitude(c),
        is_altitude(x) && is_altitude(y) && is_altitude(z),
        value(a) <= value(x),
        value(b) <= value(y),
        value(c) <= value(z),
    ensures
        value(horn(m, a, b, c)) <= value(horn(m, x, y, z)),
{
    let (p, q) = lemma_horn(m, rnd, a, b, c);
    let (r, s) = lemma_horn(m, rnd, x, y, z);
    rounding_keeps_order(m, rnd, p, 2real * value(b), r, 2real * value(y));
    values_are_in_order(p, r);
    rounding_keeps_order(m, rnd, q, value(a) + value(p), s, value(x) + value(r));
    values_are_in_order(q, s);
    rounding_keeps_order(
        m,
        rnd,
        horn(m, a, b, c),
        value(q) + value(c),
        horn(m, x, y, z),
        value(s) + value(z),
    );
    values_are_in_order(horn(m, a, b, c), horn(m, x, y, z));
}

/// The rise from the sum `b` to the sum `a`, over a distance, has the sign that
/// it should.
proof fn lemma_rise<M: Math>(m: &M, rnd: spec_fn(real) -> int, a: Single, b: Single, denom: Single)
    requires
        rounds(m, rnd),
        a.finite() && -524_288real <= value(a) <= 524_288real,
        b.finite() && -524_288real <= value(b) <= 524_288real,
        denom.finite() && 1real / 1000real <= value(denom) <= 1_048_576real,
    ensures
        !over(m, minus(m, a, b), denom).nan(),
        over(m, minus(m, a, b), denom).finite(),
        value(a) <= value(b) ==> over(m, minus(m, a, b), denom).rank() <= 0,
        value(b) <= value(a) ==> over(m, minus(m, a, b), denom).rank() >= 0,
{
    powers_of_two();
    two_to_the_31st();
    zero_is_nothing();
    let zero = Single { bits: 0 };
    let diff = minus(m, a, b);
    differences_stay_within(m, rnd, a, b, Single { bits: 0x4980_0000 });
    rounding_keeps_sides(m, rnd, diff, value(a) - value(b), zero);
    values_are_in_order(diff, zero);
    let q = over(m, diff, denom);
    let (v, d) = (value(diff), value(denom));
    assert(v <= 0real ==> v / d <= 0real) by (nonlinear_arith)
        requires
            d > 0real,
    ;
    assert(0real <= v ==> 0real <= v / d) by (nonlinear_arith)
        requires
            d > 0real,
    ;
    let far = Single { bits: 0x4f00_0000 };
    negation_is_exact(far);
    assert(-2_147_483_648real <= v / d <= 2_147_483_648real) by (nonlinear_arith)
        requires
            d >= 1real / 1000real,
            -1_048_576real <= v <= 1_048_576real,
    ;
    rounding_keeps_sides(m, rnd, q, v / d, zero);
    rounding_stays_between(m, rnd, q, v / d, far.neg(), far);
}

/// The direction that a gradient falls in.
proof fn lemma_downhill<M: Math>(m: &M, rnd: spec_fn(real) -> int, g: (Single, Single))
    requires
        rounds(m, rnd),
        knows_directions(m),
        g.0.finite() && g.1.finite(),
        !(g.0.rank() == 0 && g.1.rank() == 0),
    ensures
        downhill(m, g).finite(),
        0real <= value(downhill(m, g)) < 360real,
        g.0.rank() <= 0 ==> value(downhill(m, g)) <= 180real,
        0 <= g.0.rank() ==> value(downhill(m, g)) == 0real || 180real <= value(downhill(m, g)),
        g.1.rank() <= 0 ==> value(downhill(m, g)) <= 90real || 270real <= value(downhill(m, g)),
        0 <= g.1.rank() ==> 90real <= value(downhill(m, g)) <= 270real,
{
    turns_in_degrees();
    zero_is_nothing();
    negation_is_exact(g.0);
    negation_is_exact(g.1);
    let zero = Single { bits: 0 };
    let turn = Single { bits: 0x43b4_0000 };
    let (x, y) = (g.0.neg(), g.1.neg());
    let deg = degrees(m, atan2(m, x, y));
    assert(is_direction(x, y, deg));
    values_are_in_order(deg, zero);
    values_are_in_order(turn, deg);
    if value(deg) < 0real {
        let turned = plus(m, deg, turn);
        let v = value(deg) + 360real;
        let half = Single { bits: 0x4334_0000 };
        rounding_stays_between(m, rnd, turned, v, half, turn);
        lemma_three_quarters();
        let three = Single { bits: 0x4387_0000 };
        rounding_keeps_sides(m, rnd, turned, v, three);
        values_are_in_order(turned, three);
        values_are_in_order(three, turned);
        values_are_in_order(turn, turned);
    }
}

proof fn lemma_three_quarters()
    ensures
        (Single { bits: 0x4387_0000 }).finite(),
        value(Single { bits: 0x4387_0000 }) == 270real,
{
    lemma2_to64();
    digits_bound_the_value(Single { bits: 0x4387_0000 }, 135, 0x87_0000, 0x8000, 270real, 270real);
}

proof fn lemma_level<M: Math>(m: &M, rnd: spec_fn(real) -> int, g: (Single, Single))
    requires
        rounds(m, rnd),
        g.0.finite() && g.1.finite(),
        g.0.rank() == 0 && g.1.rank() == 0,
    ensures
        steepness(m, g).below(Single { bits: LEVEL }),
{
    zero_is_nothing();
    let zero = Single { bits: 0 };
    values_are_in_order(g.0, zero);
    values_are_in_order(g.1, zero);
    let (a, b) = (times(m, g.0, g.0), times(m, g.1, g.1));
    rounding_keeps_sides(m, rnd, a, 0real, zero);
    rounding_keeps_sides(m, rnd, b, 0real, zero);
    let sum = plus(m, a, b);
    rounding_keeps_sides(m, rnd, sum, 0real, zero);
    assert(stands_for(sqrt(m, sum), rnd(0real)));
    rounding_keeps_sides(m, rnd, sqrt(m, sum), 0real, zero);
}

proof fn lemma_altitude(dem: &Dem, row: int, col: int, dr: int, dc: int)
    requires
        is_ground(dem, row, col),
        -1 <= dr <= 1,
        -1 <= dc <= 1,
    ensures
        is_altitude(dem.at(row + dr, col + dc)),
{
    assert(dem.known(row + dr, col + dc));
    assert(-65_000real <= value(dem.at(row + dr, col + dc)) <= 65_000real);
}

/// Which way the terrain rises at (row, col).
#[verifier::spinoff_prover]
proof fn lemma_gradient<M: Math>(
    m: &M,
    rnd: spec_fn(real) -> int,
    dem: &Dem,
    row: int,
    col: int,
)
    requires
        rounds(m, rnd),
        is_ground(dem, row, col),
    ensures
        ({
            let g = gradient(m, dem, row, col);
            &&& g.0.finite() && g.1.finite()
            &&& column_below(dem, row, col, 1, -1) ==> g.0.rank() <= 0
            &&& column_below(dem, row, col, -1, 1) ==> 0 <= g.0.rank()
            &&& row_below(dem, row, col, -1, 1) ==> g.1.rank() <= 0
            &&& row_below(dem, row, col, 1, -1) ==> 0 <= g.1.rank()
        }),
{
    let nw = dem.at(row + -1, col + -1);
    let n = dem.at(row + -1, col + 0);
    let ne = dem.at(row + -1, col + 1);
    let w = dem.at(row + 0, col + -1);
    let e = dem.at(row + 0, col + 1);
    let sw = dem.at(row + 1, col + -1);
    let s = dem.at(row + 1, col + 0);
    let se = dem.at(row + 1, col + 1);
    lemma_altitude(dem, row, col, -1, -1);
    lemma_altitude(dem, row, col, -1, 0);
    lemma_altitude(dem, row, col, -1, 1);
    lemma_altitude(dem, row, col, 0, -1);
    lemma_altitude(dem, row, col, 0, 1);
    lemma_altitude(dem, row, col, 1, -1);
    lemma_altitude(dem, row, col, 1, 0);
    lemma_altitude(dem, row, col, 1, 1);
    let denom = times(m, Single { bits: 0x4100_0000 }, dem.cell_size_m);
    lemma_denominator(m, rnd, dem.cell_size_m);
    let (east, west) = (horn(m, ne, e, se), horn(m, nw, w, sw));
    let (north, south) = (horn(m, nw, n, ne), horn(m, sw, s, se));
    assert(gradient(m, dem, row, col) == (
        over(m, minus(m, east, west), denom),
        over(m, minus(m, north, south), denom),
    ));
    lemma_compared(m, rnd, ne, e, se, nw, w, sw, denom);
    lemma_compared(m, rnd, nw, n, ne, sw, s, se, denom);
}

proof fn lemma_denominator<M: Math>(m: &M, rnd: spec_fn(real) -> int, size: Single)
    requires
        rounds(m, rnd),
        size.finite(),
        1real / 1000real <= value(size) <= 65_000real,
    ensures
        ({
            let denom = times(m, Single { bits: 0x4100_0000 }, size);
            denom.finite() && 1real / 1000real <= value(denom) <= 1_048_576real
        }),
{
    powers_of_two();
    let eight = Single { bits: 0x4100_0000 };
    assert(value(eight) * value(size) == 8real * value(size));
    rounding_stays_between(
        m,
        rnd,
        times(m, eight, size),
        value(eight) * value(size),
        size,
        Single { bits: 0x4980_0000 },
    );
}

/// The rise from three altitudes to three others has the sign that it should.
proof fn lemma_compared<M: Math>(
    m: &M,
    rnd: spec_fn(real) -> int,
    a: Single,
    b: Single,
    c: Single,
    x: Single,
    y: Single,
    z: Single,
    denom: Single,
)
    requires
        rounds(m, rnd),
        is_altitude(a) && is_altitude(b) && is_altitude(c),
        is_altitude(x) && is_altitude(y) && is_altitude(z),
        denom.finite() && 1real / 1000real <= value(denom) <= 1_048_576real,
    ensures
        ({
            let rise = over(m, minus(m, horn(m, a, b, c), horn(m, x, y, z)), denom);
            &&& rise.finite()
            &&& value(a) <= value(x) && value(b) <= value(y) && value(c) <= value(z)
                ==> rise.rank() <= 0
            &&& value(x) <= value(a) && value(y) <= value(b) && value(z) <= value(c) ==> 0
                <= rise.rank()
        }),
{
    lemma_horn(m, rnd, a, b, c);
    lemma_horn(m, rnd, x, y, z);
    lemma_rise(m, rnd, horn(m, a, b, c), horn(m, x, y, z), denom);
    if value(a) <= value(x) && value(b) <= value(y) && value(c) <= value(z) {
        lemma_horn_grows(m, rnd, a, b, c, x, y, z);
    }
    if value(x) <= value(a) && value(y) <= value(b) && value(z) <= value(c) {
        lemma_horn_grows(m, rnd, x, y, z, a, b, c);
    }
}

/// A slope faces where the ground falls: east where the column to the east is
/// nowhere higher than the one to the west, and so on round the compass. Where
/// two of these meet, the aspect is that one direction: east of a slope that is
/// as high in the north as in the south is 90.
pub proof fn slopes_face_where_the_ground_falls<M: Math>(
    m: &M,
    rnd: spec_fn(real) -> int,
    dem: &Dem,
    row: int,
    col: int,
)
    requires
        rounds(m, rnd),
        knows_directions(m),
        is_ground(dem, row, col),
        !aspect_at(m, dem, row, col).nan(),
    ensures
        ({
            let aspect = value(aspect_at(m, dem, row, col));
            &&& aspect_at(m, dem, row, col).finite()
            &&& 0real <= aspect < 360real
            &&& column_below(dem, row, col, 1, -1) ==> aspect <= 180real
            &&& column_below(dem, row, col, -1, 1) ==> aspect == 0real || 180real <= aspect
            &&& row_below(dem, row, col, -1, 1) ==> aspect <= 90real || 270real <= aspect
            &&& row_below(dem, row, col, 1, -1) ==> 90real <= aspect <= 270real
        }),
{
    let g = gradient(m, dem, row, col);
    lemma_gradient(m, rnd, dem, row, col);
    if g.0.rank() == 0 && g.1.rank() == 0 {
        lemma_level(m, rnd, g);
    }
    lemma_downhill(m, rnd, g);
}

/// Sum of some numbers, added up in order.
pub open spec fn total<M: Math>(m: &M, terms: Seq<Double>) -> Double
    decreases terms.len(),
{
    if terms.len() == 0 {
        Double { bits: 0 }
    } else {
        plus_d(m, total(m, terms.drop_last()), terms.last())
    }
}

/// Products of the numbers of two lists, pair by pair.
pub open spec fn products<M: Math>(m: &M, a: Seq<Double>, b: Seq<Double>) -> Seq<Double> {
    Seq::new(a.len(), |i: int| times_d(m, a[i], b[i]))
}

fn sum<M: Math>(m: &M, a: &Vec<Double>) -> (r: Double)
    requires
        steady(m),
    ensures
        r == total(m, a@),
{
    let mut s = Double { bits: 0 };
    let mut i: usize = 0;
    while i < a.len()
        invariant
            steady(m),
            i <= a@.len(),
            s == total(m, a@.take(i as int)),
        decreases a@.len() - i,
    {
        assert(a@.take(i + 1).drop_last() =~= a@.take(i as int));
        s = plus_d(m, s, a[i]);
        i = i + 1;
    }
    assert(a@.take(a@.len() as int) =~= a@);
    s
}

fn dot<M: Math>(m: &M, a: &Vec<Double>, b: &Vec<Double>) -> (r: Double)
    requires
        steady(m),
        a@.len() == b@.len(),
    ensures
        r == total(m, products(m, a@, b@)),
{
    let ghost p = products(m, a@, b@);
    let mut s = Double { bits: 0 };
    let mut i: usize = 0;
    while i < a.len()
        invariant
            steady(m),
            a@.len() == b@.len(),
            p == products(m, a@, b@),
            i <= a@.len(),
            s == total(m, p.take(i as int)),
        decreases a@.len() - i,
    {
        assert(p.take(i + 1).drop_last() =~= p.take(i as int));
        s = plus_d(m, s, times_d(m, a[i], b[i]));
        i = i + 1;
    }
    assert(p.take(a@.len() as int) =~= p);
    s
}

/// `a * b - c * d`.
pub open spec fn cross<M: Math>(m: &M, a: Double, b: Double, c: Double, d: Double) -> Double {
    minus_d(m, times_d(m, a, b), times_d(m, c, d))
}

fn cross_of<M: Math>(m: &M, a: Double, b: Double, c: Double, d: Double) -> (r: Double)
    requires
        steady(m),
    ensures
        r == cross(m, a, b, c, d),
{
    minus_d(m, times_d(m, a, b), times_d(m, c, d))
}

/// `a * p - b * q + c * r`, the expansion of a determinant.
pub open spec fn expand<M: Math>(
    m: &M,
    a: Double,
    p: Double,
    b: Double,
    q: Double,
    c: Double,
    r: Double,
) -> Double {
    plus_d(m, minus_d(m, times_d(m, a, p), times_d(m, b, q)), times_d(m, c, r))
}

fn expand_of<M: Math>(
    m: &M,
    a: Double,
    p: Double,
    b: Double,
    q: Double,
    c: Double,
    r: Double,
) -> (s: Double)
    requires
        steady(m),
    ensures
        s == expand(m, a, p, b, q, c, r),
{
    plus_d(m, minus_d(m, times_d(m, a, p), times_d(m, b, q)), times_d(m, c, r))
}

/// The plane `a + b x + c y` nearest to nine points by least squares, if the
/// points determine one. Solves
///
/// ```text
/// | n   sx   sy  | |a|   |sz |
/// | sx  sxx  sxy | |b| = |sxz|
/// | sy  sxy  syy | |c|   |syz|
/// ```
pub open spec fn plane<M: Math>(m: &M, xs: Seq<Double>, ys: Seq<Double>, zs: Seq<Double>) -> Option<
    (Double, Double, Double),
> {
    let n = Double { bits: NINE_D };
    let sx = total(m, xs);
    let sy = total(m, ys);
    let sz = total(m, zs);
    let sxx = total(m, products(m, xs, xs));
    let syy = total(m, products(m, ys, ys));
    let sxy = total(m, products(m, xs, ys));
    let sxz = total(m, products(m, xs, zs));
    let syz = total(m, products(m, ys, zs));
    let det = expand(
        m,
        n,
        cross(m, sxx, syy, sxy, sxy),
        sx,
        cross(m, sx, syy, sxy, sy),
        sy,
        cross(m, sx, sxy, sxx, sy),
    );
    if det.abs().below(Double { bits: SINGULAR_D }) {
        None
    } else {
        let a = expand(
            m,
            sz,
            cross(m, sxx, syy, sxy, sxy),
            sx,
            cross(m, sxz, syy, sxy, syz),
            sy,
            cross(m, sxz, sxy, sxx, syz),
        );
        let b = expand(
            m,
            n,
            cross(m, sxz, syy, sxy, syz),
            sz,
            cross(m, sx, syy, sxy, sy),
            sy,
            cross(m, sx, syz, sxz, sy),
        );
        let c = expand(
            m,
            n,
            cross(m, sxx, syz, sxy, sxz),
            sx,
            cross(m, sx, syz, sxz, sy),
            sz,
            cross(m, sx, sxy, sxx, sy),
        );
        Some((over_d(m, a, det), over_d(m, b, det), over_d(m, c, det)))
    }
}

/// Fit z = a + b*x + c*y by least squares.
fn fit_plane<M: Math>(m: &M, xs: &Vec<Double>, ys: &Vec<Double>, zs: &Vec<Double>) -> (r: Option<
    (Double, Double, Double),
>)
    requires
        steady(m),
        xs@.len() == 9,
        ys@.len() == 9,
        zs@.len() == 9,
    ensures
        r == plane(m, xs@, ys@, zs@),
{
    let n = Double { bits: NINE_D };
    let sx = sum(m, xs);
    let sy = sum(m, ys);
    let sz = sum(m, zs);
    let sxx = dot(m, xs, xs);
    let syy = dot(m, ys, ys);
    let sxy = dot(m, xs, ys);
    let sxz = dot(m, xs, zs);
    let syz = dot(m, ys, zs);
    let det = expand_of(
        m,
        n,
        cross_of(m, sxx, syy, sxy, sxy),
        sx,
        cross_of(m, sx, syy, sxy, sy),
        sy,
        cross_of(m, sx, sxy, sxx, sy),
    );
    if det.abs().lt(&Double { bits: SINGULAR_D }) {
        return None;
    }
    let a = expand_of(
        m,
        sz,
        cross_of(m, sxx, syy, sxy, sxy),
        sx,
        cross_of(m, sxz, syy, sxy, syz),
        sy,
        cross_of(m, sxz, sxy, sxx, syz),
    );
    let b = expand_of(
        m,
        n,
        cross_of(m, sxz, syy, sxy, syz),
        sz,
        cross_of(m, sx, syy, sxy, sy),
        sy,
        cross_of(m, sx, syz, sxz, sy),
    );
    let c = expand_of(
        m,
        n,
        cross_of(m, sxx, syz, sxy, sxz),
        sx,
        cross_of(m, sx, syz, sxz, sy),
        sz,
        cross_of(m, sx, sxy, sxx, sy),
    );
    Some((over_d(m, a, det), over_d(m, b, det), over_d(m, c, det)))
}

/// East offsets of the nine cells of a neighborhood, in cells, row by row.
pub open spec fn east_offsets<M: Math>(m: &M) -> Seq<Double> {
    Seq::new(9, |k: int| widen(m, single(m, (k % 3 - 1) as i128)))
}

/// North offsets of the nine cells of a neighborhood, in cells, row by row.
pub open spec fn north_offsets<M: Math>(m: &M) -> Seq<Double> {
    Seq::new(9, |k: int| widen(m, single(m, (1 - k / 3) as i128)))
}

/// Altitudes of the nine cells of the neighborhood of (row, col), row by row.
pub open spec fn nine_altitudes<M: Math>(m: &M, dem: &Dem, row: int, col: int) -> Seq<Double> {
    Seq::new(9, |k: int| widen(m, dem.at(row + k / 3 - 1, col + k % 3 - 1)))
}

/// What a plane leaves of the altitudes of nine cells.
pub open spec fn residuals<M: Math>(
    m: &M,
    xs: Seq<Double>,
    ys: Seq<Double>,
    zs: Seq<Double>,
    plane: (Double, Double, Double),
) -> Seq<Double> {
    Seq::new(
        9,
        |k: int|
            minus_d(
                m,
                zs[k],
                plus_d(
                    m,
                    plus_d(m, plane.0, times_d(m, plane.1, xs[k])),
                    times_d(m, plane.2, ys[k]),
                ),
            ),
    )
}

/// Roughness at (row, col) in meters.
pub open spec fn roughness_at<M: Math>(m: &M, dem: &Dem, row: int, col: int) -> Single {
    let xs = east_offsets(m);
    let ys = north_offsets(m);
    let zs = nine_altitudes(m, dem, row, col);
    if surrounded(dem, row, col) {
        match plane(m, xs, ys, zs) {
            Some(p) => {
                let left = residuals(m, xs, ys, zs, p);
                narrow(
                    m,
                    sqrt_d(
                        m,
                        over_d(m, total(m, products(m, left, left)), Double { bits: NINE_D }),
                    ),
                )
            },
            None => Single { bits: 0x7fc0_0000 },
        }
    } else {
        Single { bits: 0x7fc0_0000 }
    }
}

/// The offsets of the nine cells of a neighborhood, east and north.
fn offsets<M: Math>(m: &M) -> (r: (Vec<Double>, Vec<Double>))
    requires
        steady(m),
    ensures
        r.0@ == east_offsets(m),
        r.1@ == north_offsets(m),
{
    let mut xs: Vec<Double> = Vec::new();
    let mut ys: Vec<Double> = Vec::new();
    let mut k: u8 = 0;
    while k < 9
        invariant
            steady(m),
            k <= 9,
            xs@ == east_offsets(m).take(k as int),
            ys@ == north_offsets(m).take(k as int),
        decreases 9 - k,
    {
        xs.push(widen(m, single(m, k as i128 % 3 - 1)));
        ys.push(widen(m, single(m, 1 - k as i128 / 3)));
        assert(xs@ =~= east_offsets(m).take(k + 1));
        assert(ys@ =~= north_offsets(m).take(k + 1));
        k = k + 1;
    }
    assert(east_offsets(m).take(9) =~= east_offsets(m));
    assert(north_offsets(m).take(9) =~= north_offsets(m));
    (xs, ys)
}

/// Roughness of one cell.
fn cell_roughness<M: Math>(
    m: &M,
    dem: &Dem,
    row: u32,
    col: u32,
    xs: &Vec<Double>,
    ys: &Vec<Double>,
) -> (r: Single)
    requires
        steady(m),
        dem.wf(),
        dem.has(row as int, col as int),
        xs@ == east_offsets(m),
        ys@ == north_offsets(m),
    ensures
        r == roughness_at(m, dem, row as int, col as int),
{
    if !is_surrounded(dem, row, col) {
        return Single::missing();
    }
    assert(dem.known(row + -1, col + -1));
    assert(dem.known(row + 1, col + 1));
    let ghost altitudes = nine_altitudes(m, dem, row as int, col as int);
    let mut zs: Vec<Double> = Vec::new();
    let mut k: u8 = 0;
    while k < 9
        invariant
            steady(m),
            dem.wf(),
            k <= 9,
            1 <= row < dem.rows - 1,
            1 <= col < dem.cols - 1,
            altitudes == nine_altitudes(m, dem, row as int, col as int),
            zs@ == altitudes.take(k as int),
        decreases 9 - k,
    {
        let r: u32 = row - 1 + (k / 3) as u32;
        let c: u32 = col - 1 + (k % 3) as u32;
        proof {
            lemma_flat_in_range(dem.rows as int, dem.cols as int, r as int, c as int);
        }
        zs.push(widen(m, dem.data[dem.idx(r, c)]));
        assert(zs@ =~= altitudes.take(k + 1));
        k = k + 1;
    }
    assert(altitudes.take(9) =~= altitudes);
    match fit_plane(m, xs, ys, &zs) {
        Some((a, b, c)) => {
            let ghost all = residuals(m, xs@, ys@, zs@, (a, b, c));
            let mut left: Vec<Double> = Vec::new();
            let mut i: usize = 0;
            while i < 9
                invariant
                    steady(m),
                    xs@.len() == 9,
                    ys@.len() == 9,
                    zs@.len() == 9,
                    all == residuals(m, xs@, ys@, zs@, (a, b, c)),
                    i <= 9,
                    left@ == all.take(i as int),
                decreases 9 - i,
            {
                let flat = plus_d(m, plus_d(m, a, times_d(m, b, xs[i])), times_d(m, c, ys[i]));
                left.push(minus_d(m, zs[i], flat));
                assert(left@ =~= all.take(i + 1));
                i = i + 1;
            }
            assert(all.take(9) =~= all);
            let sse = dot(m, &left, &left);
            narrow(m, sqrt_d(m, over_d(m, sse, Double { bits: NINE_D })))
        },
        None => Single::missing(),
    }
}

/// Roughness = RMS residual of the 3x3 neighborhood altitudes against the
/// best-fit plane through them. A planar slope yields ~0; bumpy or stepped
/// terrain yields larger values (meters).
///
/// Useful for filtering candidate launch sites: smooth slopes are safer to
/// inflate a wing on than bouldery / stepped ones.
pub fn roughness<M: Math>(m: &M, dem: &Dem) -> (r: Vec<Single>)
    requires
        steady(m),
        dem.wf(),
    ensures
        r@.len() == dem.data@.len(),
        forall|u: int|
            0 <= u < dem.data@.len() ==> #[trigger] r@[u] == roughness_at(
                m,
                dem,
                dem.cell_of(u).row as int,
                dem.cell_of(u).col as int,
            ),
{
    let n: usize = dem.data.len();
    let (xs, ys) = offsets(m);
    let mut out: Vec<Single> = Vec::new();
    let mut u: usize = 0;
    while u < n
        invariant
            steady(m),
            dem.wf(),
            n == dem.data@.len(),
            u <= n,
            xs@ == east_offsets(m),
            ys@ == north_offsets(m),
            out@.len() == u,
            forall|v: int|
                0 <= v < u ==> #[trigger] out@[v] == roughness_at(
                    m,
                    dem,
                    dem.cell_of(v).row as int,
                    dem.cell_of(v).col as int,
                ),
        decreases n - u,
    {
        let cell = dem.cell_at(u);
        out.push(cell_roughness(m, dem, cell.row, cell.col, &xs, &ys));
        u = u + 1;
    }
    out
}

/// All of some whole numbers together.
spec fn sum_of(numbers: Seq<int>) -> int
    decreases numbers.len(),
{
    if numbers.len() == 0 {
        0
    } else {
        sum_of(numbers.drop_last()) + numbers.last()
    }
}

/// Whether these are these whole numbers.
spec fn all_hold(terms: Seq<Double>, numbers: Seq<int>) -> bool {
    terms.len() == numbers.len() && forall|i: int|
        0 <= i < terms.len() ==> holds(#[trigger] terms[i], numbers[i])
}

proof fn lemma_total<M: Math>(
    m: &M,
    wide: spec_fn(real) -> int,
    terms: Seq<Double>,
    numbers: Seq<int>,
)
    requires
        rounds_d(m, wide),
        all_hold(terms, numbers),
        terms.len() <= 9,
        forall|i: int|
            0 <= i < numbers.len() ==> -0x100_0000_0000 <= #[trigger] numbers[i]
                <= 0x100_0000_0000,
    ensures
        holds(total(m, terms), sum_of(numbers)),
        -0x100_0000_0000 * terms.len() <= sum_of(numbers) <= 0x100_0000_0000 * terms.len(),
    decreases terms.len(),
{
    if terms.len() == 0 {
        wide_zero_is_nothing();
    } else {
        let (front, shorter) = (terms.drop_last(), numbers.drop_last());
        assert(all_hold(front, shorter)) by {
            assert forall|i: int| 0 <= i < front.len() implies holds(
                #[trigger] front[i],
                shorter[i],
            ) by {
                assert(holds(terms[i], numbers[i]));
            }
        }
        assert forall|i: int| 0 <= i < shorter.len() implies -0x100_0000_0000
            <= #[trigger] shorter[i] <= 0x100_0000_0000 by {
            assert(shorter[i] == numbers[i]);
        }
        lemma_total(m, wide, front, shorter);
        let k = terms.len() - 1;
        assert(holds(terms[k], numbers[k]));
        wide_whole_arithmetic_is_exact(
            m,
            wide,
            total(m, front),
            sum_of(shorter),
            terms[k],
            numbers[k],
        );
    }
}

/// Products of whole numbers, pair by pair.
spec fn pairwise(a: Seq<int>, b: Seq<int>) -> Seq<int> {
    Seq::new(a.len(), |i: int| a[i] * b[i])
}

proof fn lemma_signed(x: int, h: int)
    ensures
        x == 1 ==> x * h == h && h * x == h,
        x == -1 ==> x * h == -h && h * x == -h,
        x == 0 ==> x * h == 0 && h * x == 0,
{
}

/// Whether these are the numbers 1, 0 and -1.
spec fn are_signs(x: Seq<int>) -> bool {
    forall|k: int| 0 <= k < x.len() ==> #[trigger] x[k] == 1 || x[k] == 0 || x[k] == -1
}

proof fn lemma_pairwise(x: Seq<int>, h: Seq<int>)
    requires
        x.len() == h.len(),
        are_signs(x),
    ensures
        forall|k: int|
            0 <= k < x.len() ==> #[trigger] pairwise(x, h)[k] == if x[k] == 1 {
                h[k]
            } else if x[k] == -1 {
                -h[k]
            } else {
                0
            },
{
    assert forall|k: int| 0 <= k < x.len() implies #[trigger] pairwise(x, h)[k] == if x[k] == 1 {
        h[k]
    } else if x[k] == -1 {
        -h[k]
    } else {
        0
    } by {
        lemma_signed(x[k], h[k]);
        assert(x[k] == 1 || x[k] == 0 || x[k] == -1);
    }
}

proof fn lemma_products<M: Math>(
    m: &M,
    wide: spec_fn(real) -> int,
    a: Seq<Double>,
    i: Seq<int>,
    b: Seq<Double>,
    j: Seq<int>,
)
    requires
        rounds_d(m, wide),
        all_hold(a, i),
        all_hold(b, j),
        a.len() == b.len(),
        forall|k: int|
            0 <= k < a.len() ==> -0x100_0000_0000 <= #[trigger] pairwise(i, j)[k]
                <= 0x100_0000_0000,
    ensures
        all_hold(products(m, a, b), pairwise(i, j)),
{
    assert forall|k: int| 0 <= k < a.len() implies holds(
        #[trigger] products(m, a, b)[k],
        pairwise(i, j)[k],
    ) by {
        assert(holds(a[k], i[k]) && holds(b[k], j[k]));
        assert(-0x100_0000_0000 <= pairwise(i, j)[k] <= 0x100_0000_0000);
        wide_whole_arithmetic_is_exact(m, wide, a[k], i[k], b[k], j[k]);
    }
}

proof fn lemma_sum_of_nine(numbers: Seq<int>)
    requires
        numbers.len() == 9,
    ensures
        sum_of(numbers) == numbers[0] + numbers[1] + numbers[2] + numbers[3] + numbers[4]
            + numbers[5] + numbers[6] + numbers[7] + numbers[8],
{
    reveal_with_fuel(sum_of, 10);
}

/// East offsets of nine cells, as whole numbers.
spec fn easts() -> Seq<int> {
    seq![-1, 0, 1, -1, 0, 1, -1, 0, 1]
}

/// North offsets of nine cells, as whole numbers.
spec fn norths() -> Seq<int> {
    seq![1, 1, 1, 0, 0, 0, -1, -1, -1]
}

/// Altitude at some offset to the south and the east, in cells, on a plane that
/// rises by `east` and `north` from one cell to the next, warped so that its
/// corners are three times `warp` above it and below it in turn.
pub open spec fn warped(z: int, east: int, north: int, warp: int, dr: int, dc: int) -> int {
    z + east * dc - north * dr - 3 * warp * dr * dc
}

/// Whether the ground round (row, col) is such a plane, in whole meters.
pub open spec fn is_warped(
    dem: &Dem,
    row: int,
    col: int,
    z: int,
    east: int,
    north: int,
    warp: int,
) -> bool {
    &&& surrounded(dem, row, col)
    &&& forall|dr: int, dc: int|
        -1 <= dr <= 1 && -1 <= dc <= 1 ==> value(#[trigger] dem.at(row + dr, col + dc)) == warped(
            z,
            east,
            north,
            warp,
            dr,
            dc,
        ) as real
    &&& -10_000 <= z <= 10_000
    &&& -10_000 <= east <= 10_000
    &&& -10_000 <= north <= 10_000
    &&& -10_000 <= warp <= 10_000
}

/// The altitudes of nine cells, as whole numbers.
spec fn heights(z: int, east: int, north: int, warp: int) -> Seq<int> {
    seq![
        z - east + north - 3 * warp,
        z + north,
        z + east + north + 3 * warp,
        z - east,
        z,
        z + east,
        z - east - north + 3 * warp,
        z - north,
        z + east - north - 3 * warp,
    ]
}

proof fn lemma_offsets<M: Math>(m: &M, rnd: spec_fn(real) -> int, wide: spec_fn(real) -> int)
    requires
        rounds(m, rnd),
        rounds_d(m, wide),
        converts(m, rnd),
    ensures
        all_hold(east_offsets(m), easts()),
        all_hold(north_offsets(m), norths()),
{
    let (a, b, c) = (
        whole_numbers_are_exact(m, rnd, -1),
        whole_numbers_are_exact(m, rnd, 0),
        whole_numbers_are_exact(m, rnd, 1),
    );
    assert forall|k: int| 0 <= k < 9 implies holds(#[trigger] east_offsets(m)[k], easts()[k]) by {
        assert(k == 0 || k == 1 || k == 2 || k == 3 || k == 4 || k == 5 || k == 6 || k == 7 || k
            == 8);
    }
    assert forall|k: int| 0 <= k < 9 implies holds(#[trigger] north_offsets(m)[k], norths()[k]) by {
        assert(k == 0 || k == 1 || k == 2 || k == 3 || k == 4 || k == 5 || k == 6 || k == 7 || k
            == 8);
    }
}

proof fn lemma_heights<M: Math>(
    m: &M,
    rnd: spec_fn(real) -> int,
    dem: &Dem,
    row: int,
    col: int,
    z: int,
    east: int,
    north: int,
    warp: int,
)
    requires
        converts(m, rnd),
        is_warped(dem, row, col, z, east, north, warp),
    ensures
        all_hold(nine_altitudes(m, dem, row, col), heights(z, east, north, warp)),
{
    assert forall|k: int| 0 <= k < 9 implies holds(
        #[trigger] nine_altitudes(m, dem, row, col)[k],
        heights(z, east, north, warp)[k],
    ) by {
        let (dr, dc) = (k / 3 - 1, k % 3 - 1);
        assert(dem.known(row + dr, col + dc));
        let at = dem.at(row + dr, col + dc);
        assert(value(at) == warped(z, east, north, warp, dr, dc) as real);
        assert(k == 0 || k == 1 || k == 2 || k == 3 || k == 4 || k == 5 || k == 6 || k == 7 || k
            == 8);
        lemma_signed(dc, east);
        lemma_signed(dr, north);
        lemma_signed(dr, 3 * warp);
        lemma_signed(dc, 3 * warp * dr);
        assert(warped(z, east, north, warp, dr, dc) == heights(z, east, north, warp)[k]);
    }
}

/// The sums that the fit of a plane rests on.
proof fn lemma_sums<M: Math>(
    m: &M,
    wide: spec_fn(real) -> int,
    xs: Seq<Double>,
    ys: Seq<Double>,
    zs: Seq<Double>,
    z: int,
    east: int,
    north: int,
    warp: int,
)
    requires
        rounds_d(m, wide),
        all_hold(xs, easts()),
        all_hold(ys, norths()),
        all_hold(zs, heights(z, east, north, warp)),
        -10_000 <= z <= 10_000,
        -10_000 <= east <= 10_000,
        -10_000 <= north <= 10_000,
        -10_000 <= warp <= 10_000,
    ensures
        holds(total(m, xs), 0),
        holds(total(m, ys), 0),
        holds(total(m, zs), 9 * z),
        holds(total(m, products(m, xs, xs)), 6),
        holds(total(m, products(m, ys, ys)), 6),
        holds(total(m, products(m, xs, ys)), 0),
        holds(total(m, products(m, xs, zs)), 6 * east),
        holds(total(m, products(m, ys, zs)), 6 * north),
{
    let (x, y, h) = (easts(), norths(), heights(z, east, north, warp));
    assert forall|k: int| 0 <= k < 9 implies (#[trigger] x[k] == 1 || x[k] == 0 || x[k] == -1) by {
        assert(k == 0 || k == 1 || k == 2 || k == 3 || k == 4 || k == 5 || k == 6 || k == 7 || k
            == 8);
    }
    assert forall|k: int| 0 <= k < 9 implies (#[trigger] y[k] == 1 || y[k] == 0 || y[k] == -1) by {
        assert(k == 0 || k == 1 || k == 2 || k == 3 || k == 4 || k == 5 || k == 6 || k == 7 || k
            == 8);
    }
    assert forall|k: int| 0 <= k < 9 implies -0x100_0000_0000 <= #[trigger] h[k]
        <= 0x100_0000_0000 by {
        assert(k == 0 || k == 1 || k == 2 || k == 3 || k == 4 || k == 5 || k == 6 || k == 7 || k
            == 8);
    }
    lemma_pairwise(x, x);
    lemma_pairwise(y, y);
    lemma_pairwise(x, y);
    lemma_pairwise(x, h);
    lemma_pairwise(y, h);
    lemma_total(m, wide, xs, x);
    lemma_total(m, wide, ys, y);
    lemma_total(m, wide, zs, h);
    lemma_products(m, wide, xs, x, xs, x);
    lemma_products(m, wide, ys, y, ys, y);
    lemma_products(m, wide, xs, x, ys, y);
    lemma_products(m, wide, xs, x, zs, h);
    lemma_products(m, wide, ys, y, zs, h);
    lemma_total(m, wide, products(m, xs, xs), pairwise(x, x));
    lemma_total(m, wide, products(m, ys, ys), pairwise(y, y));
    lemma_total(m, wide, products(m, xs, ys), pairwise(x, y));
    lemma_total(m, wide, products(m, xs, zs), pairwise(x, h));
    lemma_total(m, wide, products(m, ys, zs), pairwise(y, h));
    lemma_sum_of_nine(x);
    lemma_sum_of_nine(y);
    lemma_sum_of_nine(h);
    lemma_sum_of_nine(pairwise(x, x));
    lemma_sum_of_nine(pairwise(y, y));
    lemma_sum_of_nine(pairwise(x, y));
    lemma_sum_of_nine(pairwise(x, h));
    lemma_sum_of_nine(pairwise(y, h));
}

proof fn lemma_cross<M: Math>(
    m: &M,
    wide: spec_fn(real) -> int,
    a: Double,
    i: int,
    b: Double,
    j: int,
    c: Double,
    k: int,
    d: Double,
    l: int,
)
    requires
        rounds_d(m, wide),
        holds(a, i) && holds(b, j) && holds(c, k) && holds(d, l),
        -0x100_0000_0000 <= i * j <= 0x100_0000_0000,
        -0x100_0000_0000 <= k * l <= 0x100_0000_0000,
    ensures
        holds(cross(m, a, b, c, d), i * j - k * l),
{
    wide_whole_arithmetic_is_exact(m, wide, a, i, b, j);
    wide_whole_arithmetic_is_exact(m, wide, c, k, d, l);
    wide_whole_arithmetic_is_exact(m, wide, times_d(m, a, b), i * j, times_d(m, c, d), k * l);
}

proof fn lemma_expand<M: Math>(
    m: &M,
    wide: spec_fn(real) -> int,
    a: Double,
    i: int,
    p: Double,
    j: int,
    b: Double,
    q: Double,
    k: int,
    c: Double,
    r: Double,
    l: int,
)
    requires
        rounds_d(m, wide),
        holds(a, i) && holds(p, j),
        holds(b, 0) && holds(q, k) || holds(b, k) && holds(q, 0),
        holds(c, 0) && holds(r, l) || holds(c, l) && holds(r, 0),
        -0x100_0000_0000 <= i * j <= 0x100_0000_0000,
    ensures
        holds(expand(m, a, p, b, q, c, r), i * j),
{
    assert(0 * k == 0 && k * 0 == 0 && 0 * l == 0 && l * 0 == 0) by (nonlinear_arith);
    wide_whole_arithmetic_is_exact(m, wide, a, i, p, j);
    if holds(b, 0) {
        wide_whole_arithmetic_is_exact(m, wide, b, 0, q, k);
    } else {
        wide_whole_arithmetic_is_exact(m, wide, b, k, q, 0);
    }
    if holds(c, 0) {
        wide_whole_arithmetic_is_exact(m, wide, c, 0, r, l);
    } else {
        wide_whole_arithmetic_is_exact(m, wide, c, l, r, 0);
    }
    let (x, y, w) = (times_d(m, a, p), times_d(m, b, q), times_d(m, c, r));
    assert(holds(x, i * j) && holds(y, 0) && holds(w, 0));
    wide_whole_arithmetic_is_exact(m, wide, x, i * j, y, 0);
    wide_whole_arithmetic_is_exact(m, wide, minus_d(m, x, y), i * j, w, 0);
}

/// The nine of double precision, and the bound for points that determine no plane.
proof fn lemma_nine<M: Math>(m: &M, wide: spec_fn(real) -> int)
    requires
        rounds_d(m, wide),
    ensures
        holds(Double { bits: 0x4022_0000_0000_0000 }, 9),
        (Double { bits: SINGULAR_D }).finite(),
        value_d(Double { bits: SINGULAR_D }) <= 1real,
{
    wide_one_and_half();
    wide_values_are_in_order(
        Double { bits: SINGULAR_D },
        Double { bits: 0x3ff0_0000_0000_0000 },
    );
    wide_nine();
}

/// The plane that is fitted is the one that was warped.
#[verifier::spinoff_prover]
proof fn lemma_plane<M: Math>(
    m: &M,
    wide: spec_fn(real) -> int,
    xs: Seq<Double>,
    ys: Seq<Double>,
    zs: Seq<Double>,
    z: int,
    east: int,
    north: int,
    warp: int,
)
    requires
        rounds_d(m, wide),
        all_hold(xs, easts()),
        all_hold(ys, norths()),
        all_hold(zs, heights(z, east, north, warp)),
        -10_000 <= z <= 10_000,
        -10_000 <= east <= 10_000,
        -10_000 <= north <= 10_000,
        -10_000 <= warp <= 10_000,
    ensures
        match plane(m, xs, ys, zs) {
            Some(p) => holds(p.0, z) && holds(p.1, east) && holds(p.2, north),
            None => false,
        },
{
    lemma_sums(m, wide, xs, ys, zs, z, east, north, warp);
    lemma_nine(m, wide);
    let n = Double { bits: 0x4022_0000_0000_0000 };
    let (sx, sy, sz) = (total(m, xs), total(m, ys), total(m, zs));
    let (sxx, syy, sxy) = (
        total(m, products(m, xs, xs)),
        total(m, products(m, ys, ys)),
        total(m, products(m, xs, ys)),
    );
    let (sxz, syz) = (total(m, products(m, xs, zs)), total(m, products(m, ys, zs)));
    let full = cross(m, sxx, syy, sxy, sxy);
    lemma_cross(m, wide, sxx, 6, syy, 6, sxy, 0, sxy, 0);
    let a1 = cross(m, sx, syy, sxy, sy);
    lemma_cross(m, wide, sx, 0, syy, 6, sxy, 0, sy, 0);
    let a2 = cross(m, sx, sxy, sxx, sy);
    lemma_cross(m, wide, sx, 0, sxy, 0, sxx, 6, sy, 0);
    let b1 = cross(m, sxz, syy, sxy, syz);
    lemma_cross(m, wide, sxz, 6 * east, syy, 6, sxy, 0, syz, 6 * north);
    let b2 = cross(m, sxz, sxy, sxx, syz);
    assert((6 * east) * 0 == 0) by (nonlinear_arith);
    lemma_cross(m, wide, sxz, 6 * east, sxy, 0, sxx, 6, syz, 6 * north);
    let c1 = cross(m, sxx, syz, sxy, sxz);
    lemma_cross(m, wide, sxx, 6, syz, 6 * north, sxy, 0, sxz, 6 * east);
    let c2 = cross(m, sx, syz, sxz, sy);
    lemma_cross(m, wide, sx, 0, syz, 6 * north, sxz, 6 * east, sy, 0);
    assert(holds(full, 36) && holds(a1, 0) && holds(a2, 0) && holds(b1, 36 * east) && holds(
        b2,
        -36 * north,
    ) && holds(c1, 36 * north) && holds(c2, 0));
    let det = expand(m, n, full, sx, a1, sy, a2);
    lemma_expand(m, wide, n, 9, full, 36, sx, a1, 0, sy, a2, 0);
    let a = expand(m, sz, full, sx, b1, sy, b2);
    lemma_expand(m, wide, sz, 9 * z, full, 36, sx, b1, 36 * east, sy, b2, -36 * north);
    let b = expand(m, n, b1, sz, a1, sy, c2);
    lemma_expand(m, wide, n, 9, b1, 36 * east, sz, a1, 9 * z, sy, c2, 0);
    let c = expand(m, n, c1, sx, c2, sz, a2);
    lemma_expand(m, wide, n, 9, c1, 36 * north, sx, c2, 0, sz, a2, 9 * z);
    assert(holds(det, 324) && holds(a, z * 324) && holds(b, east * 324) && holds(c, north * 324));
    wide_whole_quotients_are_exact(m, wide, a, det, z, 324);
    wide_whole_quotients_are_exact(m, wide, b, det, east, 324);
    wide_whole_quotients_are_exact(m, wide, c, det, north, 324);
    wide_zero_is_nothing();
    wide_values_are_in_order(det, Double { bits: 0 });
    assert(det.abs() == det);
    wide_values_are_in_order(det, Double { bits: SINGULAR_D });
}

/// What is left of the altitudes: the warp of the corners.
#[verifier::spinoff_prover]
proof fn lemma_residuals<M: Math>(
    m: &M,
    wide: spec_fn(real) -> int,
    xs: Seq<Double>,
    ys: Seq<Double>,
    zs: Seq<Double>,
    p: (Double, Double, Double),
    z: int,
    east: int,
    north: int,
    warp: int,
)
    requires
        rounds_d(m, wide),
        all_hold(xs, easts()),
        all_hold(ys, norths()),
        all_hold(zs, heights(z, east, north, warp)),
        holds(p.0, z) && holds(p.1, east) && holds(p.2, north),
        -10_000 <= z <= 10_000,
        -10_000 <= east <= 10_000,
        -10_000 <= north <= 10_000,
        -10_000 <= warp <= 10_000,
    ensures
        all_hold(
            residuals(m, xs, ys, zs, p),
            seq![-3 * warp, 0, 3 * warp, 0, 0, 0, 3 * warp, 0, -3 * warp],
        ),
{
    let left = seq![-3 * warp, 0, 3 * warp, 0, 0, 0, 3 * warp, 0, -3 * warp];
    assert forall|k: int| 0 <= k < 9 implies holds(
        #[trigger] residuals(m, xs, ys, zs, p)[k],
        left[k],
    ) by {
        let (x, y, h) = (easts()[k], norths()[k], heights(z, east, north, warp)[k]);
        assert(k == 0 || k == 1 || k == 2 || k == 3 || k == 4 || k == 5 || k == 6 || k == 7 || k
            == 8);
        assert(holds(xs[k], x) && holds(ys[k], y) && holds(zs[k], h));
        lemma_signed(x, east);
        lemma_signed(y, north);
        let (b, c) = (times_d(m, p.1, xs[k]), times_d(m, p.2, ys[k]));
        wide_whole_arithmetic_is_exact(m, wide, p.1, east, xs[k], x);
        wide_whole_arithmetic_is_exact(m, wide, p.2, north, ys[k], y);
        wide_whole_arithmetic_is_exact(m, wide, p.0, z, b, east * x);
        let sum = plus_d(m, p.0, b);
        wide_whole_arithmetic_is_exact(m, wide, sum, z + east * x, c, north * y);
        let at = plus_d(m, sum, c);
        wide_whole_arithmetic_is_exact(m, wide, zs[k], h, at, z + east * x + north * y);
    }
}

/// The root of the mean of the squares of what is left.
#[verifier::spinoff_prover]
proof fn lemma_mean_square<M: Math>(
    m: &M,
    wide: spec_fn(real) -> int,
    left: Seq<Double>,
    warp: int,
    r: int,
)
    requires
        rounds_d(m, wide),
        all_hold(left, seq![-3 * warp, 0, 3 * warp, 0, 0, 0, 3 * warp, 0, -3 * warp]),
        -10_000 <= warp <= 10_000,
        0 <= r,
        r == 2 * warp || r == -2 * warp,
    ensures
        holds(
            sqrt_d(
                m,
                over_d(m, total(m, products(m, left, left)), Double { bits: 0x4022_0000_0000_0000 }),
            ),
            r,
        ),
{
    let w = 3 * warp;
    let numbers = seq![-3 * warp, 0, 3 * warp, 0, 0, 0, 3 * warp, 0, -3 * warp];
    let squares = pairwise(numbers, numbers);
    assert(0 <= w * w <= 900_000_000 && (-w) * (-w) == w * w) by (nonlinear_arith)
        requires
            -30_000 <= w <= 30_000,
    ;
    assert forall|k: int| 0 <= k < 9 implies -0x100_0000_0000 <= #[trigger] squares[k]
        <= 0x100_0000_0000 && squares[k] == if k == 0 || k == 2 || k == 6 || k == 8 {
        w * w
    } else {
        0
    } by {
        assert(k == 0 || k == 1 || k == 2 || k == 3 || k == 4 || k == 5 || k == 6 || k == 7 || k
            == 8);
        assert(numbers[k] == w || numbers[k] == -w || numbers[k] == 0);
    }
    lemma_products(m, wide, left, numbers, left, numbers);
    lemma_total(m, wide, products(m, left, left), squares);
    lemma_sum_of_nine(squares);
    lemma_root_of_ninth(m, wide, total(m, products(m, left, left)), warp, w, r);
}

proof fn lemma_root_of_ninth<M: Math>(
    m: &M,
    wide: spec_fn(real) -> int,
    sum: Double,
    warp: int,
    w: int,
    r: int,
)
    requires
        rounds_d(m, wide),
        w == 3 * warp,
        holds(sum, 4 * (w * w)),
        -10_000 <= warp <= 10_000,
        0 <= r,
        r == 2 * warp || r == -2 * warp,
    ensures
        holds(sqrt_d(m, over_d(m, sum, Double { bits: 0x4022_0000_0000_0000 })), r),
{
    let n = Double { bits: 0x4022_0000_0000_0000 };
    wide_nine();
    assert(4 * (w * w) == (r * r) * 9 && 0 <= r * r <= 400_000_000) by (nonlinear_arith)
        requires
            w == 3 * warp,
            r == 2 * warp || r == -2 * warp,
            -10_000 <= warp <= 10_000,
    ;
    wide_whole_quotients_are_exact(m, wide, sum, n, r * r, 9);
    let mean = over_d(m, sum, n);
    let root = wide_whole_numbers_are_exact(m, wide, r);
    assert((r * r) as real == (r as real) * (r as real)) by (nonlinear_arith);
    wide_roots_keep_sides(m, wide, mean, root, mean);
}

/// A plane is smooth, however it slopes, and one whose corners are warped by three
/// times as much is as rough as twice the warp: roughness is the root of the mean
/// of the squares of what the nearest plane leaves.
#[verifier::spinoff_prover]
pub proof fn roughness_is_what_a_plane_leaves<M: Math>(
    m: &M,
    rnd: spec_fn(real) -> int,
    wide: spec_fn(real) -> int,
    dem: &Dem,
    row: int,
    col: int,
    z: int,
    east: int,
    north: int,
    warp: int,
)
    requires
        rounds(m, rnd),
        rounds_d(m, wide),
        converts(m, rnd),
        is_warped(dem, row, col, z, east, north, warp),
    ensures
        roughness_at(m, dem, row, col).finite(),
        value(roughness_at(m, dem, row, col)) == if warp < 0 {
            (-2 * warp) as real
        } else {
            (2 * warp) as real
        },
{
    let (xs, ys, zs) = (east_offsets(m), north_offsets(m), nine_altitudes(m, dem, row, col));
    lemma_offsets(m, rnd, wide);
    lemma_heights(m, rnd, dem, row, col, z, east, north, warp);
    lemma_plane(m, wide, xs, ys, zs, z, east, north, warp);
    let p = plane(m, xs, ys, zs)->0;
    lemma_residuals(m, wide, xs, ys, zs, p, z, east, north, warp);
    let left = residuals(m, xs, ys, zs, p);
    let r = if warp < 0 {
        -2 * warp
    } else {
        2 * warp
    };
    lemma_mean_square(m, wide, left, warp, r);
    let c = whole_numbers_are_exact(m, rnd, r);
    rounding_keeps_sides(m, rnd, roughness_at(m, dem, row, col), r as real, c);
}

proof fn lemma_whole_horn<M: Math>(
    m: &M,
    rnd: spec_fn(real) -> int,
    a: Single,
    i: int,
    b: Single,
    j: int,
    c: Single,
    k: int,
)
    requires
        rounds(m, rnd),
        counts(a, i) && counts(b, j) && counts(c, k),
        -100_000 <= i <= 100_000,
        -100_000 <= j <= 100_000,
        -100_000 <= k <= 100_000,
    ensures
        counts(horn(m, a, b, c), i + 2 * j + k),
{
    powers_of_two();
    let two = Single { bits: 0x4000_0000 };
    whole_arithmetic_is_exact(m, rnd, two, 2, b, j);
    whole_arithmetic_is_exact(m, rnd, a, i, times(m, two, b), 2 * j);
    whole_arithmetic_is_exact(m, rnd, plus(m, a, times(m, two, b)), i + 2 * j, c, k);
}

/// The altitudes of the eight cells round (row, col).
#[verifier::spinoff_prover]
proof fn lemma_rim(
    dem: &Dem,
    row: int,
    col: int,
    z: int,
    east: int,
    north: int,
    warp: int,
)
    requires
        is_warped(dem, row, col, z, east, north, warp),
    ensures
        counts(dem.at(row - 1, col - 1), z - east + north - 3 * warp),
        counts(dem.at(row - 1, col), z + north),
        counts(dem.at(row - 1, col + 1), z + east + north + 3 * warp),
        counts(dem.at(row, col - 1), z - east),
        counts(dem.at(row, col + 1), z + east),
        counts(dem.at(row + 1, col - 1), z - east - north + 3 * warp),
        counts(dem.at(row + 1, col), z - north),
        counts(dem.at(row + 1, col + 1), z + east - north - 3 * warp),
{
    assert forall|dr: int, dc: int| -1 <= dr <= 1 && -1 <= dc <= 1 implies counts(
        #[trigger] dem.at(row + dr, col + dc),
        warped(z, east, north, warp, dr, dc),
    ) by {
        assert(dem.known(row + dr, col + dc));
    }
    assert(counts(dem.at(row + -1, col + -1), warped(z, east, north, warp, -1, -1)));
    assert(counts(dem.at(row + -1, col + 0), warped(z, east, north, warp, -1, 0)));
    assert(counts(dem.at(row + -1, col + 1), warped(z, east, north, warp, -1, 1)));
    assert(counts(dem.at(row + 0, col + -1), warped(z, east, north, warp, 0, -1)));
    assert(counts(dem.at(row + 0, col + 1), warped(z, east, north, warp, 0, 1)));
    assert(counts(dem.at(row + 1, col + -1), warped(z, east, north, warp, 1, -1)));
    assert(counts(dem.at(row + 1, col + 0), warped(z, east, north, warp, 1, 0)));
    assert(counts(dem.at(row + 1, col + 1), warped(z, east, north, warp, 1, 1)));
}

/// The rise of two sums that are eight times `rise` apart.
proof fn lemma_rise_in_a_meter<M: Math>(
    m: &M,
    rnd: spec_fn(real) -> int,
    a: Single,
    i: int,
    b: Single,
    j: int,
    rise: int,
    cell: Single,
    side: int,
)
    requires
        rounds(m, rnd),
        counts(a, i) && counts(b, j) && counts(cell, side),
        1 <= side <= 65_000,
        i - j == 8 * rise,
        -10_000 <= rise <= 10_000,
    ensures
        stands_for(
            over(m, minus(m, a, b), times(m, Single { bits: 0x4100_0000 }, cell)),
            rnd(rise as real / side as real),
        ),
{
    powers_of_two();
    let eight = Single { bits: 0x4100_0000 };
    let denom = times(m, eight, cell);
    whole_arithmetic_is_exact(m, rnd, eight, 8, cell, side);
    whole_arithmetic_is_exact(m, rnd, a, i, b, j);
    lemma_eighths(rise as real, side as real);
}

/// Ground that rises by so many meters from one cell to the next, to the east and
/// to the north, has as gradient what that is in a meter: by the eight cells
/// round it, whatever the altitude and the warp.
#[verifier::spinoff_prover]
pub proof fn gradients_are_rises_in_a_meter<M: Math>(
    m: &M,
    rnd: spec_fn(real) -> int,
    dem: &Dem,
    row: int,
    col: int,
    z: int,
    east: int,
    north: int,
    warp: int,
    side: int,
)
    requires
        rounds(m, rnd),
        is_warped(dem, row, col, z, east, north, warp),
        dem.cell_size_m.finite() && value(dem.cell_size_m) == side as real,
        1 <= side <= 65_000,
    ensures
        stands_for(gradient(m, dem, row, col).0, rnd(east as real / side as real)),
        stands_for(gradient(m, dem, row, col).1, rnd(north as real / side as real)),
{
    let nw = dem.at(row - 1, col - 1);
    let n = dem.at(row - 1, col);
    let ne = dem.at(row - 1, col + 1);
    let w = dem.at(row, col - 1);
    let e = dem.at(row, col + 1);
    let sw = dem.at(row + 1, col - 1);
    let s = dem.at(row + 1, col);
    let se = dem.at(row + 1, col + 1);
    lemma_rim(dem, row, col, z, east, north, warp);
    let (a, b, c, d) = (
        z - east + north - 3 * warp,
        z + east + north + 3 * warp,
        z - east - north + 3 * warp,
        z + east - north - 3 * warp,
    );
    lemma_whole_horn(m, rnd, ne, b, e, z + east, se, d);
    lemma_whole_horn(m, rnd, nw, a, w, z - east, sw, c);
    lemma_whole_horn(m, rnd, nw, a, n, z + north, ne, b);
    lemma_whole_horn(m, rnd, sw, c, s, z - north, se, d);
    let cell = dem.cell_size_m;
    lemma_rise_in_a_meter(
        m,
        rnd,
        horn(m, ne, e, se),
        b + 2 * (z + east) + d,
        horn(m, nw, w, sw),
        a + 2 * (z - east) + c,
        east,
        cell,
        side,
    );
    lemma_rise_in_a_meter(
        m,
        rnd,
        horn(m, nw, n, ne),
        a + 2 * (z + north) + b,
        horn(m, sw, s, se),
        c + 2 * (z - north) + d,
        north,
        cell,
        side,
    );
}

proof fn lemma_eighths(a: real, b: real)
    requires
        0real < b,
    ensures
        (8real * a) / (8real * b) == a / b,
{
    assert((8real * a) / (8real * b) == a / b) by (nonlinear_arith)
        requires
            0real < b,
    ;
}

/// The square of how steep a gradient is.
spec fn squared_steepness<M: Math>(m: &M, g: (Single, Single)) -> Single {
    plus(m, times(m, g.0, g.0), times(m, g.1, g.1))
}

/// A gradient of whole numbers is as steep as the root of their squares.
proof fn lemma_whole_steepness<M: Math>(
    m: &M,
    rnd: spec_fn(real) -> int,
    g: (Single, Single),
    i: int,
    j: int,
    k: int,
)
    requires
        rounds(m, rnd),
        counts(g.0, i) && counts(g.1, j),
        -2_048 <= i <= 2_048,
        -2_048 <= j <= 2_048,
        0 <= k <= 4_096,
        i * i + j * j == k * k,
    ensures
        counts(steepness(m, g), k),
{
    assert(0 <= i * i <= 0x40_0000 && 0 <= j * j <= 0x40_0000) by (nonlinear_arith)
        requires
            -2_048 <= i <= 2_048,
            -2_048 <= j <= 2_048,
    ;
    whole_arithmetic_is_exact(m, rnd, g.0, i, g.0, i);
    whole_arithmetic_is_exact(m, rnd, g.1, j, g.1, j);
    whole_arithmetic_is_exact(m, rnd, times(m, g.0, g.0), i * i, times(m, g.1, g.1), j * j);
    let s = squared_steepness(m, g);
    let c = whole_numbers_are_exact(m, rnd, k);
    assert((k * k) as real == (k as real) * (k as real)) by (nonlinear_arith);
    roots_keep_sides(m, rnd, s, c, s);
}

/// Ground that rises to the east and to the north by whole multiples of the side
/// of a cell slopes by the angle of the grade straight up it: the root of the
/// squares of the two.
pub proof fn slopes_are_angles_of_the_grade<M: Math>(
    m: &M,
    rnd: spec_fn(real) -> int,
    dem: &Dem,
    row: int,
    col: int,
    z: int,
    to_the_east: int,
    to_the_north: int,
    warp: int,
    side: int,
    grade: Single,
    up: int,
)
    requires
        rounds(m, rnd),
        is_warped(dem, row, col, z, to_the_east * side, to_the_north * side, warp),
        dem.cell_size_m.finite() && value(dem.cell_size_m) == side as real,
        1 <= side <= 65_000,
        -2_048 <= to_the_east <= 2_048,
        -2_048 <= to_the_north <= 2_048,
        0 < up <= 4_096,
        to_the_east * to_the_east + to_the_north * to_the_north == up * up,
        counts(grade, up),
    ensures
        slope_at(m, dem, row, col) == degrees(m, atan(m, grade)),
{
    let (e, n) = (to_the_east, to_the_north);
    gradients_are_rises_in_a_meter(m, rnd, dem, row, col, z, e * side, n * side, warp, side);
    let g = gradient(m, dem, row, col);
    lemma_multiple(e, side);
    lemma_multiple(n, side);
    let (a, b) = (whole_numbers_are_exact(m, rnd, e), whole_numbers_are_exact(m, rnd, n));
    rounding_keeps_sides(m, rnd, g.0, e as real, a);
    rounding_keeps_sides(m, rnd, g.1, n as real, b);
    lemma_whole_steepness(m, rnd, g, e, n, up);
    let t = steepness(m, g);
    zero_is_nothing();
    values_are_in_order(t, grade);
    values_are_in_order(Single { bits: 0 }, grade);
    values_are_in_order(Single { bits: 0 }, t);
    assert(t == grade);
}

proof fn lemma_multiple(a: int, b: int)
    requires
        0 < b,
    ensures
        (a * b) as real / b as real == a as real,
{
    let (x, y, p) = (a as real, b as real, (a * b) as real);
    assert(p == x * y) by (nonlinear_arith)
        requires
            p == (a * b) as real,
            x == a as real,
            y == b as real,
    ;
    assert(p / y == x) by (nonlinear_arith)
        requires
            p == x * y,
            0real < y,
    ;
}

/// Whether angles grow with what they are angles of, in radians and in degrees.
pub open spec fn angles_grow<M: Math>(m: &M) -> bool {
    forall|a: Single, b: Single|
        (Single { bits: 0 }).at_most(a) && a.at_most(b) ==> (#[trigger] degrees(
            m,
            atan(m, a),
        )).at_most(#[trigger] degrees(m, atan(m, b)))
}

proof fn lemma_bounded_rise<M: Math>(
    m: &M,
    rnd: spec_fn(real) -> int,
    g: Single,
    rise: int,
    side: int,
)
    requires
        rounds(m, rnd),
        stands_for(g, rnd(rise as real / side as real)),
        1 <= side,
        -10_000 <= rise <= 10_000,
    ensures
        g.finite(),
        -16_384real <= value(g) <= 16_384real,
        times(m, g, g).finite(),
        0real <= value(times(m, g, g)) <= 268_435_456real,
        rise == 0 ==> value(g) == 0real && value(times(m, g, g)) == 0real,
{
    let lo = whole_numbers_are_exact(m, rnd, -16_384);
    let hi = whole_numbers_are_exact(m, rnd, 16_384);
    let zero = whole_numbers_are_exact(m, rnd, 0);
    let (r, s) = (rise as real, side as real);
    assert(-16_384real <= r / s <= 16_384real && (r == 0real ==> r / s == 0real)) by (
        nonlinear_arith)
        requires
            1real <= s,
            -10_000real <= r <= 10_000real,
    ;
    rounding_stays_between(m, rnd, g, r / s, lo, hi);
    let v = value(g);
    assert(0real <= v * v <= 268_435_456real && (v == 0real ==> v * v == 0real)) by (
        nonlinear_arith)
        requires
            -16_384real <= v <= 16_384real,
    ;
    two_to_the_28th();
    rounding_stays_between(m, rnd, times(m, g, g), v * v, zero, Single { bits: 0x4d80_0000 });
    if rise == 0 {
        rounding_keeps_sides(m, rnd, g, r / s, zero);
        rounding_keeps_sides(m, rnd, times(m, g, g), v * v, zero);
    }
}

/// A rise that is no less has a square that is no less.
proof fn lemma_rises_grow<M: Math>(
    m: &M,
    rnd: spec_fn(real) -> int,
    g: Single,
    rise: int,
    h: Single,
    other: int,
    side: int,
)
    requires
        rounds(m, rnd),
        stands_for(g, rnd(rise as real / side as real)),
        stands_for(h, rnd(other as real / side as real)),
        1 <= side,
        -10_000 <= rise <= 10_000,
        -10_000 <= other <= 10_000,
        size(rise as real) <= size(other as real),
    ensures
        value(times(m, g, g)) <= value(times(m, h, h)),
{
    lemma_bounded_rise(m, rnd, g, rise, side);
    lemma_bounded_rise(m, rnd, h, other, side);
    let (r, o, s) = (rise as real, other as real, side as real);
    assert(size(r / s) <= size(o / s)) by (nonlinear_arith)
        requires
            1real <= s,
            size(r) <= size(o),
    ;
    rounding_keeps_sizes(m, rnd, g, r / s, h, o / s);
    let (v, w) = (value(g), value(h));
    assert(v * v <= w * w) by (nonlinear_arith)
        requires
            size(v) <= size(w),
    ;
    rounding_keeps_order(m, rnd, times(m, g, g), v * v, times(m, h, h), w * w);
    values_are_in_order(times(m, g, g), times(m, h, h));
}

proof fn lemma_squares_add_up<M: Math>(m: &M, rnd: spec_fn(real) -> int, a: Single, b: Single)
    requires
        rounds(m, rnd),
        a.finite() && b.finite(),
        0real <= value(a) <= 268_435_456real,
        0real <= value(b) <= 268_435_456real,
    ensures
        plus(m, a, b).finite(),
        value(a) <= value(plus(m, a, b)),
        value(b) <= value(plus(m, a, b)),
        value(plus(m, a, b)) <= 2_147_483_648real,
        value(a) == 0real && value(b) == 0real ==> value(plus(m, a, b)) == 0real,
{
    two_to_the_31st();
    let top = Single { bits: 0x4f00_0000 };
    rounding_stays_between(m, rnd, plus(m, a, b), value(a) + value(b), a, top);
    rounding_stays_between(m, rnd, plus(m, a, b), value(a) + value(b), b, top);
    if value(a) == 0real && value(b) == 0real {
        rounding_keeps_sides(m, rnd, plus(m, a, b), value(a) + value(b), a);
    }
}

/// Ground that rises by no less to the east and to the north slopes no less,
/// whichever way it rises.
#[verifier::spinoff_prover]
pub proof fn steeper_ground_slopes_more<M: Math>(
    m: &M,
    rnd: spec_fn(real) -> int,
    dem: &Dem,
    at: (int, int),
    ground: (int, int, int, int),
    other: &Dem,
    other_at: (int, int),
    steeper: (int, int, int, int),
    side: int,
)
    requires
        rounds(m, rnd),
        angles_grow(m),
        is_warped(dem, at.0, at.1, ground.0, ground.1, ground.2, ground.3),
        is_warped(other, other_at.0, other_at.1, steeper.0, steeper.1, steeper.2, steeper.3),
        counts(dem.cell_size_m, side) && counts(other.cell_size_m, side),
        1 <= side <= 65_000,
        size(ground.1 as real) <= size(steeper.1 as real),
        size(ground.2 as real) <= size(steeper.2 as real),
    ensures
        slope_at(m, dem, at.0, at.1).at_most(slope_at(m, other, other_at.0, other_at.1)),
{
    let (g, h) = (gradient(m, dem, at.0, at.1), gradient(m, other, other_at.0, other_at.1));
    gradients_are_rises_in_a_meter(
        m, rnd, dem, at.0, at.1, ground.0, ground.1, ground.2, ground.3, side,
    );
    gradients_are_rises_in_a_meter(
        m, rnd, other, other_at.0, other_at.1, steeper.0, steeper.1, steeper.2, steeper.3, side,
    );
    lemma_bounded_rise(m, rnd, g.0, ground.1, side);
    lemma_bounded_rise(m, rnd, g.1, ground.2, side);
    lemma_bounded_rise(m, rnd, h.0, steeper.1, side);
    lemma_bounded_rise(m, rnd, h.1, steeper.2, side);
    lemma_rises_grow(m, rnd, g.0, ground.1, h.0, steeper.1, side);
    lemma_rises_grow(m, rnd, g.1, ground.2, h.1, steeper.2, side);
    let (a, b, c, d) = (
        times(m, g.0, g.0),
        times(m, g.1, g.1),
        times(m, h.0, h.0),
        times(m, h.1, h.1),
    );
    lemma_squares_add_up(m, rnd, a, b);
    lemma_squares_add_up(m, rnd, c, d);
    let (s, t) = (plus(m, a, b), plus(m, c, d));
    rounding_keeps_order(m, rnd, s, value(a) + value(b), t, value(c) + value(d));
    values_are_in_order(s, t);
    zero_is_nothing();
    let zero = Single { bits: 0 };
    assert(value(zero) == value(zero) * value(zero));
    roots_keep_sides(m, rnd, s, zero, zero);
    assert(sqrt(m, s).at_most(sqrt(m, t)));
}

/// Level ground faces nowhere; ground that rises by one in 512 or more, to the
/// east or to the north, faces somewhere.
pub proof fn slopes_face_somewhere<M: Math>(
    m: &M,
    rnd: spec_fn(real) -> int,
    dem: &Dem,
    row: int,
    col: int,
    z: int,
    east: int,
    north: int,
    warp: int,
    side: int,
)
    requires
        rounds(m, rnd),
        knows_directions(m),
        is_warped(dem, row, col, z, east, north, warp),
        counts(dem.cell_size_m, side),
        1 <= side <= 65_000,
    ensures
        east == 0 && north == 0 ==> aspect_at(m, dem, row, col).nan(),
        size(512real * east as real) >= side as real || size(512real * north as real)
            >= side as real ==> aspect_at(m, dem, row, col).finite(),
{
    gradients_are_rises_in_a_meter(m, rnd, dem, row, col, z, east, north, warp, side);
    let g = gradient(m, dem, row, col);
    lemma_bounded_rise(m, rnd, g.0, east, side);
    lemma_bounded_rise(m, rnd, g.1, north, side);
    let (a, b) = (times(m, g.0, g.0), times(m, g.1, g.1));
    lemma_squares_add_up(m, rnd, a, b);
    let s = plus(m, a, b);
    zero_is_nothing();
    let zero = Single { bits: 0 };
    assert(value(zero) == value(zero) * value(zero));
    roots_keep_sides(m, rnd, s, zero, zero);
    let t = steepness(m, g);
    if size(512real * east as real) >= side as real || size(512real * north as real)
        >= side as real {
        let (low, square) = (Single { bits: 0x3b00_0000 }, Single { bits: 0x3680_0000 });
        lemma_one_in_512();
        if size(512real * east as real) >= side as real {
            lemma_no_less_than(m, rnd, g.0, east, side);
        } else {
            lemma_no_less_than(m, rnd, g.1, north, side);
        }
        roots_keep_sides(m, rnd, s, low, square);
        assert(!t.below(Single { bits: 0x3586_37bd }));
        values_are_in_order(g.0, zero);
        values_are_in_order(g.1, zero);
        if g.0.rank() == 0 && g.1.rank() == 0 {
            rounding_keeps_sides(m, rnd, a, 0real, zero);
            rounding_keeps_sides(m, rnd, b, 0real, zero);
        }
        lemma_downhill(m, rnd, g);
    }
}

proof fn lemma_one_in_512()
    ensures
        (Single { bits: 0x3b00_0000 }).finite(),
        value(Single { bits: 0x3b00_0000 }) == 1real / 512real,
        (Single { bits: 0x3680_0000 }).finite(),
        value(Single { bits: 0x3680_0000 }) == 1real / 262_144real,
        value(Single { bits: 0x3680_0000 }) == value(Single { bits: 0x3b00_0000 }) * value(
            Single { bits: 0x3b00_0000 },
        ),
{
    lemma2_to64();
    lemma2_to64_rest();
    digits_bound_the_value(
        Single { bits: 0x3b00_0000 },
        118,
        0x80_0000,
        0x1_0000_0000,
        1real / 512real,
        1real / 512real,
    );
    digits_bound_the_value(
        Single { bits: 0x3680_0000 },
        109,
        0x80_0000,
        0x200_0000_0000,
        1real / 262_144real,
        1real / 262_144real,
    );
}

proof fn lemma_no_less_than<M: Math>(
    m: &M,
    rnd: spec_fn(real) -> int,
    g: Single,
    rise: int,
    side: int,
)
    requires
        rounds(m, rnd),
        stands_for(g, rnd(rise as real / side as real)),
        g.finite(),
        times(m, g, g).finite(),
        1 <= side <= 65_000,
        size(512real * rise as real) >= side as real,
    ensures
        1real / 262_144real <= value(times(m, g, g)),
{
    lemma_one_in_512();
    let low = Single { bits: 0x3b00_0000 };
    let (r, s) = (rise as real, side as real);
    negation_is_exact(low);
    assert(r / s >= 1real / 512real || r / s <= -(1real / 512real)) by (nonlinear_arith)
        requires
            1real <= s,
            size(512real * r) >= s,
    ;
    rounding_keeps_sides(m, rnd, g, r / s, low);
    rounding_keeps_sides(m, rnd, g, r / s, low.neg());
    values_are_in_order(g, low);
    values_are_in_order(low, g);
    values_are_in_order(g, low.neg());
    let v = value(g);
    assert(1real / 262_144real <= v * v) by (nonlinear_arith)
        requires
            v >= 1real / 512real || v <= -(1real / 512real),
    ;
    let square = Single { bits: 0x3680_0000 };
    rounding_keeps_sides(m, rnd, times(m, g, g), v * v, square);
    values_are_in_order(square, times(m, g, g));
}

} // verus!
