//! Positions: Swiss coordinates and raster cells.

use crate::exact::{
    counts, digits_bound_the_value, is_rest, powers_of_two, rounding_keeps_sides, rounds,
    size_is_exact, value, values_are_in_order, whole_arithmetic_is_exact, whole_numbers_are_exact,
    wraps, zero_is_nothing,
};
use crate::math::{minus, plus, rem_euclid, steady, times, Math};
use crate::scalar::{Double, Single};
use vstd::arithmetic::power2::lemma2_to64;
use vstd::prelude::*;

verus! {

/// Swiss LV95 coordinate (CH1903+ / EPSG:2056). Easting/northing in meters.
#[derive(Debug, Clone, Copy, PartialEq, Eq, Structural)]
pub struct LV95 {
    pub e: Double,
    pub n: Double,
}

impl LV95 {
    pub fn new(e: Double, n: Double) -> (r: Self)
        ensures
            r.e == e,
            r.n == n,
    {
        LV95 { e, n }
    }
}

/// Row/column index into a raster grid. (0,0) is top-left.
#[derive(Debug, Clone, Copy, PartialEq, Eq, Hash, Structural)]
pub struct CellIdx {
    pub row: u32,
    pub col: u32,
}

impl CellIdx {
    pub fn new(row: u32, col: u32) -> (r: Self)
        ensures
            r.row == row,
            r.col == col,
    {
        CellIdx { row, col }
    }
}

/// 360 degrees.
pub const FULL_TURN: u32 = 0x43b4_0000;

/// 180 degrees.
pub const HALF_TURN: u32 = 0x4334_0000;

/// One half.
pub const HALF: u32 = 0x3f00_0000;

pub open spec fn spec_norm_deg<M: Math>(m: &M, a: Single) -> Single {
    let r = rem_euclid(m, a, Single { bits: FULL_TURN });
    let r = if r.below(Single { bits: 0 }) {
        plus(m, r, Single { bits: FULL_TURN })
    } else {
        r
    };
    if (Single { bits: FULL_TURN }).at_most(r) {
        Single { bits: 0 }
    } else {
        r
    }
}

/// Normalize an angle in degrees to [0, 360).
///
/// The remainder of an angle just below a full turn may round up to the full
/// turn, which is 0.
#[verifier::when_used_as_spec(spec_norm_deg)]
pub fn norm_deg<M: Math>(m: &M, a: Single) -> (r: Single)
    requires
        steady(m),
    ensures
        r == spec_norm_deg(m, a),
{
    let turn = Single { bits: FULL_TURN };
    let r = rem_euclid(m, a, turn);
    let r = if r.lt(&Single::zero()) {
        plus(m, r, turn)
    } else {
        r
    };
    if turn.le(&r) {
        Single::zero()
    } else {
        r
    }
}

/// A normalized angle is in [0, 360), wherever the remainder is a number that
/// is not negative.
pub proof fn normalized_angles_are_in_range<M: Math>(m: &M, a: Single)
    requires
        (Single { bits: 0 }).at_most(rem_euclid(m, a, Single { bits: FULL_TURN })),
    ensures
        (Single { bits: 0 }).at_most(norm_deg(m, a)),
        norm_deg(m, a).below(Single { bits: FULL_TURN }),
{
}

pub open spec fn spec_angle_diff_deg<M: Math>(m: &M, a: Single, b: Single) -> Single {
    let d = norm_deg(m, minus(m, a, b));
    if (Single { bits: HALF_TURN }).below(d) {
        minus(m, d, Single { bits: FULL_TURN })
    } else {
        d
    }
}

/// Smallest signed difference `a - b` in degrees, in (-180, 180].
#[verifier::when_used_as_spec(spec_angle_diff_deg)]
pub fn angle_diff_deg<M: Math>(m: &M, a: Single, b: Single) -> (r: Single)
    requires
        steady(m),
    ensures
        r == spec_angle_diff_deg(m, a, b),
{
    let d = norm_deg(m, minus(m, a, b));
    let half = Single { bits: HALF_TURN };
    if half.lt(&d) {
        minus(m, d, Single { bits: FULL_TURN })
    } else {
        d
    }
}

/// Whether subtracting a full turn from more than half of one leaves less than
/// half a turn back: with rounding to nearest such a difference is exact.
pub open spec fn turns_back<M: Math>(m: &M) -> bool {
    forall|d: Single|
        (Single { bits: HALF_TURN }).below(d) && d.below(Single { bits: FULL_TURN }) ==> (Single {
            bits: HALF_TURN,
        }).neg().below(#[trigger] minus(m, d, Single { bits: FULL_TURN })) && minus(
            m,
            d,
            Single { bits: FULL_TURN },
        ).below(Single { bits: 0 })
}

/// A difference of angles is in (-180, 180], wherever the remainder is a number
/// that is not negative.
pub proof fn angle_differences_are_in_range<M: Math>(m: &M, a: Single, b: Single)
    requires
        turns_back(m),
        (Single { bits: 0 }).at_most(rem_euclid(m, minus(m, a, b), Single { bits: FULL_TURN })),
    ensures
        (Single { bits: HALF_TURN }).neg().below(angle_diff_deg(m, a, b)),
        angle_diff_deg(m, a, b).at_most(Single { bits: HALF_TURN }),
{
    normalized_angles_are_in_range(m, minus(m, a, b));
}

/// Value of `k` full turns.
pub open spec fn turns(k: int) -> int {
    k * (Single { bits: FULL_TURN }).scaled()
}

/// Whether two finite angles are a whole number of full turns apart.
pub open spec fn turns_apart(x: Single, y: Single) -> bool {
    exists|k: int| x.scaled() - y.scaled() == #[trigger] turns(k)
}

/// The difference of two angles is `a - b` but for full turns, wherever the
/// remainder is, at most a full turn, and subtracting a full turn is exact.
pub proof fn angle_differences_are_congruent<M: Math>(m: &M, a: Single, b: Single)
    requires
        ({
            let turn = Single { bits: FULL_TURN };
            let r = rem_euclid(m, minus(m, a, b), turn);
            &&& (Single { bits: 0 }).at_most(r)
            &&& r.at_most(turn)
            &&& turns_apart(r, minus(m, a, b))
            &&& (Single { bits: HALF_TURN }).below(r) ==> minus(m, r, turn).scaled() == r.scaled()
                - turn.scaled()
        }),
    ensures
        turns_apart(angle_diff_deg(m, a, b), minus(m, a, b)),
{
    let turn = Single { bits: FULL_TURN };
    let x = minus(m, a, b);
    let r = rem_euclid(m, x, turn);
    let d = angle_diff_deg(m, a, b);
    let k = choose|k: int| r.scaled() - x.scaled() == #[trigger] turns(k);
    assert(turns(k - 1) == turns(k) - turn.scaled()) by (nonlinear_arith)
        requires
            turns(k) == k * turn.scaled(),
            turns(k - 1) == (k - 1) * turn.scaled(),
    ;
    if turn.at_most(r) {
        assert(r.rank() == turn.rank());
        assert(r == turn);
        assert(d.bits == 0);
        assert(d.scaled() - x.scaled() == turns(k - 1));
    } else if d != r {
        assert(d.scaled() - x.scaled() == turns(k - 1));
    }
}

/// The difference of two angles changes sign when they are swapped, wherever it
/// is neither nothing nor half a turn and the arithmetic is exact on it: the two
/// differences add up to a full turn, on either side of half a turn, and the
/// larger one less a full turn is the smaller one negated.
pub proof fn swapped_angles_change_sign<M: Math>(m: &M, a: Single, b: Single)
    requires
        ({
            let half = Single { bits: HALF_TURN };
            let turn = Single { bits: FULL_TURN };
            let d = norm_deg(m, minus(m, a, b));
            let e = norm_deg(m, minus(m, b, a));
            ||| d.below(half) && half.below(e) && minus(m, e, turn) == d.neg()
            ||| e.below(half) && half.below(d) && minus(m, d, turn) == e.neg()
        }),
    ensures
        angle_diff_deg(m, b, a) == angle_diff_deg(m, a, b).neg(),
{
    let d = norm_deg(m, minus(m, a, b));
    let e = norm_deg(m, minus(m, b, a));
    assert(d.neg().neg() == d && e.neg().neg() == e);
}

/// Value of the angles that matter, in degrees.
pub proof fn turns_in_degrees()
    ensures
        (Single { bits: 0x43b4_0000 }).finite() && value(Single { bits: 0x43b4_0000 }) == 360real,
        (Single { bits: 0x4334_0000 }).finite() && value(Single { bits: 0x4334_0000 }) == 180real,
        (Single { bits: 0x42b4_0000 }).finite() && value(Single { bits: 0x42b4_0000 }) == 90real,
{
    lemma2_to64();
    digits_bound_the_value(Single { bits: 0x43b4_0000 }, 135, 0xb4_0000, 0x8000, 360real, 360real);
    digits_bound_the_value(Single { bits: 0x4334_0000 }, 134, 0xb4_0000, 0x1_0000, 180real, 180real);
    digits_bound_the_value(Single { bits: 0x42b4_0000 }, 133, 0xb4_0000, 0x2_0000, 90real, 90real);
}

/// The difference of two angles is the number in (-180, 180] that is whole turns
/// from `a - b`: `apart` is `a - b`, and `turns` full turns and `rest`; `up` is
/// `rest` and a full turn.
pub proof fn differences_are_short_ways_round<M: Math>(
    m: &M,
    rnd: spec_fn(real) -> int,
    a: Single,
    b: Single,
    apart: Single,
    turns: int,
    rest: Single,
    up: Single,
)
    requires
        rounds(m, rnd),
        wraps(m, rnd),
        a.finite() && b.finite() && apart.finite() && rest.finite() && up.finite(),
        value(apart) == value(a) - value(b),
        value(apart) == 360real * (turns as real) + value(rest),
        -180real < value(rest) <= 180real,
        value(up) == value(rest) + 360real,
    ensures
        angle_diff_deg(m, a, b).finite(),
        value(angle_diff_deg(m, a, b)) == value(rest),
{
    turns_in_degrees();
    zero_is_nothing();
    let turn = Single { bits: 0x43b4_0000 };
    let zero = Single { bits: 0 };
    let half = Single { bits: 0x4334_0000 };
    let x = minus(m, a, b);
    rounding_keeps_sides(m, rnd, x, value(apart), apart);
    let r = rem_euclid(m, x, turn);
    if 0real <= value(rest) {
        assert(is_rest(x, turn, turns, value(rest)));
        rounding_keeps_sides(m, rnd, r, value(rest), rest);
    } else {
        assert(((turns - 1) as real) == (turns as real) - 1real);
        assert(is_rest(x, turn, turns - 1, value(up)));
        rounding_keeps_sides(m, rnd, r, value(up), up);
    }
    values_are_in_order(r, zero);
    values_are_in_order(turn, r);
    values_are_in_order(half, r);
    if value(rest) < 0real {
        let d = minus(m, r, turn);
        rounding_keeps_sides(m, rnd, d, value(rest), rest);
    }
}

/// Middle of the arc that runs clockwise from `lo` to `hi`.
pub open spec fn arc_center<M: Math>(m: &M, lo: Single, hi: Single) -> Single {
    let half = Single { bits: HALF };
    if lo.at_most(hi) {
        norm_deg(m, times(m, plus(m, lo, hi), half))
    } else {
        norm_deg(m, plus(m, lo, times(m, norm_deg(m, minus(m, hi, lo)), half)))
    }
}

/// Whether `angle` is inside the arc `[lo, hi]` (allowing wraparound), with
/// `tolerance` degrees of slop: no further from the middle of the arc than half
/// its width and the tolerance.
pub fn angle_in_arc<M: Math>(
    m: &M,
    angle: Single,
    lo: Single,
    hi: Single,
    tolerance: Single,
) -> (r: bool)
    requires
        steady(m),
    ensures
        r == ({
            let width = norm_deg(m, minus(m, hi, lo));
            let half_width = plus(m, times(m, width, Single { bits: HALF }), tolerance);
            angle_diff_deg(m, angle, arc_center(m, lo, hi)).abs().at_most(half_width)
        }),
{
    let half = Single { bits: HALF };
    let width = norm_deg(m, minus(m, hi, lo));
    let center = if lo.le(&hi) {
        norm_deg(m, times(m, plus(m, lo, hi), half))
    } else {
        norm_deg(m, plus(m, lo, times(m, width, half)))
    };
    let half_width = plus(m, times(m, width, half), tolerance);
    angle_diff_deg(m, angle, center).abs().le(&half_width)
}

/// A normalized angle is whole turns from the angle, and from 0 up to a full turn.
pub proof fn normalized_angles_are_whole_turns_off<M: Math>(
    m: &M,
    rnd: spec_fn(real) -> int,
    a: Single,
    turns: int,
    rest: Single,
)
    requires
        rounds(m, rnd),
        wraps(m, rnd),
        a.finite() && rest.finite(),
        value(a) == 360real * (turns as real) + value(rest),
        0real <= value(rest) < 360real,
    ensures
        norm_deg(m, a).finite(),
        value(norm_deg(m, a)) == value(rest),
{
    turns_in_degrees();
    zero_is_nothing();
    let turn = Single { bits: 0x43b4_0000 };
    let r = rem_euclid(m, a, turn);
    assert(is_rest(a, turn, turns, value(rest)));
    rounding_keeps_sides(m, rnd, r, value(rest), rest);
    values_are_in_order(r, Single { bits: 0 });
    values_are_in_order(turn, r);
}

proof fn lemma_whole_norm<M: Math>(
    m: &M,
    rnd: spec_fn(real) -> int,
    x: Single,
    k: int,
    turns: int,
    rest: int,
)
    requires
        rounds(m, rnd),
        wraps(m, rnd),
        counts(x, k),
        k == 360 * turns + rest,
        0 <= rest < 360,
    ensures
        counts(norm_deg(m, x), rest),
{
    let c = whole_numbers_are_exact(m, rnd, rest);
    normalized_angles_are_whole_turns_off(m, rnd, x, turns, c);
}

/// Half of an even number.
proof fn lemma_half<M: Math>(m: &M, rnd: spec_fn(real) -> int, x: Single, k: int)
    requires
        rounds(m, rnd),
        counts(x, 2 * k),
        -0x10_0000 <= k <= 0x10_0000,
    ensures
        counts(times(m, x, Single { bits: 0x3f00_0000 }), k),
{
    powers_of_two();
    let c = whole_numbers_are_exact(m, rnd, k);
    rounding_keeps_sides(
        m,
        rnd,
        times(m, x, Single { bits: 0x3f00_0000 }),
        ((2 * k) as real) * (1real / 2real),
        c,
    );
}

/// An angle is in an arc exactly where it is no further from the middle, the
/// shorter way round, than half the arc is wide and the tolerance. The arc runs
/// clockwise from `lo` to `hi`, through north where `hi` is the smaller. Stated
/// of whole degrees and an even width.
pub proof fn arcs_reach_half_their_width_from_the_middle<M: Math>(
    m: &M,
    rnd: spec_fn(real) -> int,
    angle: Single,
    at: int,
    lo: Single,
    from: int,
    hi: Single,
    to: int,
    tolerance: Single,
    slop: int,
    half_width: int,
    turns: int,
    off: int,
    inside: bool,
)
    requires
        rounds(m, rnd),
        wraps(m, rnd),
        counts(angle, at) && -3_600 <= at <= 3_600,
        counts(lo, from) && 0 <= from < 360,
        counts(hi, to) && 0 <= to < 360,
        counts(tolerance, slop) && 0 <= slop <= 360,
        0 <= 2 * half_width < 360,
        to - from == 2 * half_width || to - from == 2 * half_width - 360 && to < from,
        at == from + half_width + 360 * turns + off,
        -180 < off <= 180,
        call_ensures(angle_in_arc::<M>, (m, angle, lo, hi, tolerance), inside),
    ensures
        inside <==> -half_width - slop <= off <= half_width + slop,
{
    let half = Single { bits: 0x3f00_0000 };
    whole_arithmetic_is_exact(m, rnd, hi, to, lo, from);
    values_are_in_order(lo, hi);
    let width = norm_deg(m, minus(m, hi, lo));
    if to < from {
        lemma_whole_norm(m, rnd, minus(m, hi, lo), to - from, -1, 2 * half_width);
    } else {
        lemma_whole_norm(m, rnd, minus(m, hi, lo), to - from, 0, 2 * half_width);
    }
    lemma_half(m, rnd, width, half_width);
    let center = arc_center(m, lo, hi);
    let middle = if from + half_width < 360 {
        from + half_width
    } else {
        from + half_width - 360
    };
    if from <= to {
        whole_arithmetic_is_exact(m, rnd, lo, from, hi, to);
        lemma_half(m, rnd, plus(m, lo, hi), from + half_width);
        lemma_whole_norm(
            m,
            rnd,
            times(m, plus(m, lo, hi), half),
            from + half_width,
            0,
            middle,
        );
    } else {
        let x = times(m, width, half);
        whole_arithmetic_is_exact(m, rnd, lo, from, x, half_width);
        if from + half_width < 360 {
            lemma_whole_norm(m, rnd, plus(m, lo, x), from + half_width, 0, middle);
        } else {
            lemma_whole_norm(m, rnd, plus(m, lo, x), from + half_width, 1, middle);
        }
    }
    assert(counts(center, middle));
    let rounds_off = if from + half_width < 360 {
        turns
    } else {
        turns + 1
    };
    let (apart, rest, up) = (
        whole_numbers_are_exact(m, rnd, at - middle),
        whole_numbers_are_exact(m, rnd, off),
        whole_numbers_are_exact(m, rnd, off + 360),
    );
    differences_are_short_ways_round(m, rnd, angle, center, apart, rounds_off, rest, up);
    let d = angle_diff_deg(m, angle, center);
    size_is_exact(d);
    let x = times(m, width, half);
    whole_arithmetic_is_exact(m, rnd, x, half_width, tolerance, slop);
    values_are_in_order(d.abs(), plus(m, x, tolerance));
}

} // verus!
