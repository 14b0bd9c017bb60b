//! Scoring & ranking.
//!
//! `score = glide_value / hike_cost^alpha * wind_factor`, with `wind_factor`
//! the cosine-softened mismatch between user wind and launch aspect, and
//! Pareto helpers for the (hike, glide) frontier so the user can pick a
//! preference along it instead of arguing with a single scalar.

use crate::exact::{
    differences_stay_within, negation_is_exact, picks_are_exact, powers_of_two, quotients_grow,
    rounding_keeps_order, rounding_keeps_sides, rounding_stays_between, rounds, size,
    size_is_exact, stands_for, value, values_are_in_order, wraps, zero_is_nothing,
};
use crate::geom::{angle_diff_deg, differences_are_short_ways_round, turns_in_degrees};
use crate::launch::Launch;
use crate::math::{cos, minus, narrow, over, powf, radians, steady, times, Math};
use crate::scalar::{Double, Single, ONE};
use crate::sort::{precedes, sorted_order};
use crate::wind::Wind;
use vstd::prelude::*;

verus! {

#[derive(Debug, Clone, Copy, PartialEq, Eq, Structural)]
pub enum GlideMetric {
    /// Maximum straight-line distance reachable from launch (meters).
    MaxDistanceM,
    /// Total reachable footprint area (m^2).
    AreaM2,
}

#[derive(Debug, Clone, Copy)]
pub struct ScoringParams {
    pub metric: GlideMetric,
    /// Exponent on hike cost. 1.0 = "minutes of flight per minute of hiking".
    pub alpha: Single,
    /// Half-width (deg) inside which the wind factor stays at full strength.
    pub wind_full_strength_deg: Single,
}

/// 15.
pub const FULL_STRENGTH: u32 = 0x4170_0000;

/// 90.
pub const RIGHT_ANGLE: u32 = 0x42b4_0000;

impl Default for ScoringParams {
    fn default() -> (r: Self)
        ensures
            r.metric == GlideMetric::MaxDistanceM,
            r.alpha.bits == ONE,
            r.wind_full_strength_deg.bits == FULL_STRENGTH,
    {
        ScoringParams {
            metric: GlideMetric::MaxDistanceM,
            alpha: Single { bits: ONE },
            wind_full_strength_deg: Single { bits: FULL_STRENGTH },
        }
    }
}

#[derive(Debug, Clone, Copy)]
pub struct GlideStats {
    pub max_distance_m: Single,
    pub area_m2: Double,
}

pub open spec fn spec_wind_factor<M: Math>(
    m: &M,
    launch_aspect_deg: Single,
    wind: Wind,
    full_strength_deg: Single,
) -> Single {
    let delta = angle_diff_deg(m, wind.from_deg, launch_aspect_deg).abs();
    let beyond = minus(m, delta, full_strength_deg);
    if delta.at_most(full_strength_deg) {
        Single { bits: ONE }
    } else if (Single { bits: RIGHT_ANGLE }).at_most(beyond) {
        Single { bits: 0 }
    } else {
        cos(m, radians(m, beyond)).max(Single { bits: 0 })
    }
}

/// Wind factor in [0, 1]. Within `full_strength_deg` it's 1; outside it falls
/// off as cos(delta - full_strength). Returns 0 once `delta` exceeds 90 + full.
#[verifier::when_used_as_spec(spec_wind_factor)]
pub fn wind_factor<M: Math>(
    m: &M,
    launch_aspect_deg: Single,
    wind: Wind,
    full_strength_deg: Single,
) -> (r: Single)
    requires
        steady(m),
    ensures
        r == wind_factor(m, launch_aspect_deg, wind, full_strength_deg),
{
    let delta = angle_diff_deg(m, wind.from_deg, launch_aspect_deg).abs();
    if delta.le(&full_strength_deg) {
        return Single { bits: ONE };
    }
    let beyond = minus(m, delta, full_strength_deg);
    if (Single { bits: RIGHT_ANGLE }).le(&beyond) {
        return Single::zero();
    }
    cos(m, radians(m, beyond)).max(Single::zero())
}

/// The wind factor is in [0, 1], wherever the cosine is at most 1.
pub proof fn wind_factor_is_in_range<M: Math>(
    m: &M,
    launch_aspect_deg: Single,
    wind: Wind,
    full_strength_deg: Single,
)
    requires
        forall|a: Single| (#[trigger] cos(m, a)).nan() || cos(m, a).at_most(Single { bits: ONE }),
    ensures
        (Single { bits: 0 }).at_most(wind_factor(m, launch_aspect_deg, wind, full_strength_deg)),
        wind_factor(m, launch_aspect_deg, wind, full_strength_deg).at_most(Single { bits: ONE }),
{
}

/// Whether the wind comes from `off` degrees to one side of the aspect: from
/// `aspect + off`, but for full turns. Asks that the angles are numbers.
pub open spec fn comes_from(aspect: Single, wind: Wind, off: Single) -> bool {
    &&& aspect.finite() && wind.from_deg.finite() && off.finite()
    &&& -180real < value(off) <= 180real
    &&& exists|turns: int, apart: Single, up: Single| #[trigger]
        is_bearing(aspect, wind, off, turns, apart, up)
}

/// Whether `apart` is how far the wind is from the aspect, `turns` full turns and
/// `off`, and `up` is `off` and a full turn.
pub open spec fn is_bearing(
    aspect: Single,
    wind: Wind,
    off: Single,
    turns: int,
    apart: Single,
    up: Single,
) -> bool {
    &&& apart.finite() && up.finite()
    &&& value(apart) == value(wind.from_deg) - value(aspect)
    &&& value(apart) == 360real * (turns as real) + value(off)
    &&& value(up) == value(off) + 360real
}

/// Whether the cosine falls from 0 to 90 degrees, and is at most 1.
pub open spec fn cosine_falls<M: Math>(m: &M) -> bool {
    &&& forall|a: Single, b: Single|
        (Single { bits: 0 }).at_most(a) && a.at_most(b) && b.at_most(Single { bits: 0x42b4_0000 })
            ==> (#[trigger] cos(m, radians(m, b))).at_most(#[trigger] cos(m, radians(m, a)))
    &&& forall|a: Single|
        (Single { bits: 0 }).at_most(a) ==> (#[trigger] cos(m, radians(m, a))).at_most(
            Single { bits: 0x3f80_0000 },
        )
}

/// How far off the wind is, whichever side it comes from.
proof fn lemma_delta<M: Math>(
    m: &M,
    rnd: spec_fn(real) -> int,
    aspect: Single,
    wind: Wind,
    off: Single,
) -> (delta: Single)
    requires
        rounds(m, rnd),
        wraps(m, rnd),
        comes_from(aspect, wind, off),
    ensures
        delta == angle_diff_deg(m, wind.from_deg, aspect).abs(),
        delta.finite(),
        delta.bits < 0x8000_0000,
        value(delta) == if value(off) < 0real {
            -value(off)
        } else {
            value(off)
        },
{
    let (turns, apart, up) = choose|turns: int, apart: Single, up: Single| #[trigger]
        is_bearing(aspect, wind, off, turns, apart, up);
    differences_are_short_ways_round(m, rnd, wind.from_deg, aspect, apart, turns, off, up);
    size_is_exact(angle_diff_deg(m, wind.from_deg, aspect));
    angle_diff_deg(m, wind.from_deg, aspect).abs()
}

/// Wind from one side counts as much as wind that is as far off on the other.
pub proof fn winds_count_alike_on_both_sides<M: Math>(
    m: &M,
    rnd: spec_fn(real) -> int,
    aspect: Single,
    left: Wind,
    right: Wind,
    off: Single,
    full_strength_deg: Single,
)
    requires
        rounds(m, rnd),
        wraps(m, rnd),
        comes_from(aspect, left, off),
        comes_from(aspect, right, off.neg()),
    ensures
        wind_factor(m, aspect, left, full_strength_deg) == wind_factor(
            m,
            aspect,
            right,
            full_strength_deg,
        ),
{
    let a = lemma_delta(m, rnd, aspect, left, off);
    let b = lemma_delta(m, rnd, aspect, right, off.neg());
    negation_is_exact(off);
    values_are_in_order(a, b);
    assert(a == b);
}

/// Wind within the full strength counts fully, and wind from a right angle beyond
/// it, on whichever side, does not count.
pub proof fn winds_count_by_how_far_they_are_off<M: Math>(
    m: &M,
    rnd: spec_fn(real) -> int,
    aspect: Single,
    wind: Wind,
    off: Single,
    full_strength_deg: Single,
)
    requires
        rounds(m, rnd),
        wraps(m, rnd),
        comes_from(aspect, wind, off),
        full_strength_deg.finite(),
    ensures
        -value(full_strength_deg) <= value(off) <= value(full_strength_deg) ==> value(
            wind_factor(m, aspect, wind, full_strength_deg),
        ) == 1real,
        90real + value(full_strength_deg) <= value(off) && 0real <= value(full_strength_deg)
            ==> value(wind_factor(m, aspect, wind, full_strength_deg)) == 0real,
        value(off) <= -90real - value(full_strength_deg) && 0real <= value(full_strength_deg)
            ==> value(wind_factor(m, aspect, wind, full_strength_deg)) == 0real,
{
    powers_of_two();
    zero_is_nothing();
    turns_in_degrees();
    let delta = lemma_delta(m, rnd, aspect, wind, off);
    values_are_in_order(delta, full_strength_deg);
    let beyond = minus(m, delta, full_strength_deg);
    let right = Single { bits: 0x42b4_0000 };
    rounding_keeps_sides(m, rnd, beyond, value(delta) - value(full_strength_deg), right);
}

/// Wind that is further off, on whichever side, counts no more.
pub proof fn winds_further_off_count_no_more<M: Math>(
    m: &M,
    rnd: spec_fn(real) -> int,
    aspect: Single,
    near: Wind,
    near_off: Single,
    far: Wind,
    far_off: Single,
    full_strength_deg: Single,
)
    requires
        rounds(m, rnd),
        wraps(m, rnd),
        cosine_falls(m),
        comes_from(aspect, near, near_off),
        comes_from(aspect, far, far_off),
        full_strength_deg.finite(),
        0real <= value(full_strength_deg) <= 360real,
        -value(far_off) <= value(near_off) <= value(far_off) || value(far_off) <= value(near_off)
            <= -value(far_off),
    ensures
        wind_factor(m, aspect, far, full_strength_deg).at_most(
            wind_factor(m, aspect, near, full_strength_deg),
        ),
{
    powers_of_two();
    zero_is_nothing();
    turns_in_degrees();
    let a = lemma_delta(m, rnd, aspect, near, near_off);
    let b = lemma_delta(m, rnd, aspect, far, far_off);
    values_are_in_order(a, full_strength_deg);
    values_are_in_order(b, full_strength_deg);
    let zero = Single { bits: 0 };
    let turn = Single { bits: 0x43b4_0000 };
    let (x, y) = (minus(m, a, full_strength_deg), minus(m, b, full_strength_deg));
    differences_stay_within(m, rnd, a, full_strength_deg, turn);
    differences_stay_within(m, rnd, b, full_strength_deg, turn);
    rounding_keeps_order(
        m,
        rnd,
        x,
        value(a) - value(full_strength_deg),
        y,
        value(b) - value(full_strength_deg),
    );
    rounding_keeps_sides(m, rnd, x, value(a) - value(full_strength_deg), zero);
    rounding_keeps_sides(m, rnd, y, value(b) - value(full_strength_deg), zero);
}

/// Wind that is `beyond` degrees past the full strength counts as much as wind
/// that is `beyond` degrees off where nothing else has full strength.
pub proof fn full_strength_widens_the_window<M: Math>(
    m: &M,
    rnd: spec_fn(real) -> int,
    aspect: Single,
    wind: Wind,
    off: Single,
    other: Wind,
    beyond: Single,
    full_strength_deg: Single,
)
    requires
        rounds(m, rnd),
        wraps(m, rnd),
        comes_from(aspect, wind, off),
        comes_from(aspect, other, beyond),
        full_strength_deg.finite(),
        0real <= value(full_strength_deg),
        0real < value(beyond),
        value(off) == value(beyond) + value(full_strength_deg),
    ensures
        wind_factor(m, aspect, wind, full_strength_deg) == wind_factor(
            m,
            aspect,
            other,
            Single { bits: 0 },
        ),
{
    zero_is_nothing();
    let a = lemma_delta(m, rnd, aspect, wind, off);
    let b = lemma_delta(m, rnd, aspect, other, beyond);
    let zero = Single { bits: 0 };
    let (x, y) = (minus(m, a, full_strength_deg), minus(m, b, zero));
    rounding_keeps_sides(m, rnd, x, value(beyond), beyond);
    rounding_keeps_sides(m, rnd, y, value(beyond), beyond);
    values_are_in_order(a, full_strength_deg);
    values_are_in_order(b, zero);
    values_are_in_order(x, y);
    values_are_in_order(x, zero);
    assert(x == y);
}

#[derive(Debug)]
pub struct Scored<'a> {
    pub launch: &'a Launch,
    pub glide_value: Single,
    pub hike_seconds: Single,
    pub wind_factor: Single,
    pub score: Single,
}

/// What counts of a glide.
pub open spec fn glide_value_of<M: Math>(m: &M, glide: &GlideStats, metric: GlideMetric) -> Single {
    match metric {
        GlideMetric::MaxDistanceM => glide.max_distance_m,
        GlideMetric::AreaM2 => narrow(m, glide.area_m2),
    }
}

/// Factor of an optional wind: 1 where there is none.
pub open spec fn factor_of<M: Math>(
    m: &M,
    launch: &Launch,
    wind: Option<Wind>,
    p: &ScoringParams,
) -> Single {
    match wind {
        Some(w) => wind_factor(m, launch.aspect_deg, w, p.wind_full_strength_deg),
        None => Single { bits: ONE },
    }
}

pub fn score_launch<'a, M: Math>(
    m: &M,
    launch: &'a Launch,
    glide: &GlideStats,
    hike_seconds: Single,
    wind: Option<Wind>,
    p: &ScoringParams,
) -> (r: Scored<'a>)
    requires
        steady(m),
    ensures
        r.launch == launch,
        r.glide_value == glide_value_of(m, glide, p.metric),
        r.hike_seconds == hike_seconds,
        r.wind_factor == factor_of(m, launch, wind, p),
        r.score == times(
            m,
            over(
                m,
                glide_value_of(m, glide, p.metric),
                powf(m, hike_seconds.max(Single { bits: ONE }), p.alpha),
            ),
            factor_of(m, launch, wind, p),
        ),
{
    let glide_value = match p.metric {
        GlideMetric::MaxDistanceM => glide.max_distance_m,
        GlideMetric::AreaM2 => narrow(m, glide.area_m2),
    };
    let wf = match wind {
        Some(w) => wind_factor(m, launch.aspect_deg, w, p.wind_full_strength_deg),
        None => Single { bits: ONE },
    };
    let denom = powf(m, hike_seconds.max(Single { bits: ONE }), p.alpha);
    let score = times(m, over(m, glide_value, denom), wf);
    Scored { launch, glide_value, hike_seconds, wind_factor: wf, score }
}

/// Wind beyond full strength counts by the cosine of how far beyond it is.
pub proof fn winds_beyond_full_strength_count_by_the_cosine<M: Math>(
    m: &M,
    rnd: spec_fn(real) -> int,
    aspect: Single,
    wind: Wind,
    off: Single,
    full_strength_deg: Single,
    beyond: Single,
)
    requires
        rounds(m, rnd),
        wraps(m, rnd),
        comes_from(aspect, wind, off),
        full_strength_deg.finite(),
        beyond.finite() && beyond.bits < 0x8000_0000,
        0real < value(beyond) < 90real,
        size(value(off)) == value(full_strength_deg) + value(beyond),
        (Single { bits: 0 }).below(cos(m, radians(m, beyond))),
    ensures
        wind_factor(m, aspect, wind, full_strength_deg) == cos(m, radians(m, beyond)),
{
    zero_is_nothing();
    turns_in_degrees();
    let delta = lemma_delta(m, rnd, aspect, wind, off);
    let x = minus(m, delta, full_strength_deg);
    let zero = Single { bits: 0 };
    let right = Single { bits: 0x42b4_0000 };
    values_are_in_order(delta, full_strength_deg);
    rounding_keeps_sides(m, rnd, x, value(beyond), beyond);
    values_are_in_order(x, beyond);
    values_are_in_order(x, right);
    values_are_in_order(right, x);
    values_are_in_order(x, zero);
    assert(x == beyond);
}

/// Whether a number to the power of 1 is that number, and powers of numbers from
/// 1 on are from 1 on and grow with them, for exponents that are not negative.
pub open spec fn powers_grow<M: Math>(m: &M) -> bool {
    &&& forall|a: Single|
        a.finite() ==> #[trigger] powf(m, a, Single { bits: 0x3f80_0000 }) == a
    &&& forall|a: Single, b: Single, e: Single|
        (Single { bits: 0x3f80_0000 }).at_most(a) && a.at_most(b) && (Single { bits: 0 }).at_most(e)
            ==> (#[trigger] powf(m, a, e)).at_most(#[trigger] powf(m, b, e))
    &&& forall|a: Single, e: Single|
        (Single { bits: 0x3f80_0000 }).at_most(a) && (Single { bits: 0 }).at_most(e) ==> (Single {
            bits: 0x3f80_0000,
        }).at_most(#[trigger] powf(m, a, e))
}

/// Gliding further, hiking for less long and a better wind each score no less.
pub proof fn better_launches_score_no_less<'a, 'b, M: Math>(
    m: &M,
    rnd: spec_fn(real) -> int,
    launch: &'a Launch,
    glide: &GlideStats,
    hike_seconds: Single,
    wind: Option<Wind>,
    scored: Scored<'a>,
    other: &'b Launch,
    other_glide: &GlideStats,
    other_seconds: Single,
    other_wind: Option<Wind>,
    better: Scored<'b>,
    p: &ScoringParams,
)
    requires
        rounds(m, rnd),
        powers_grow(m),
        p.metric == GlideMetric::MaxDistanceM,
        p.alpha.finite() && 0real <= value(p.alpha),
        call_ensures(score_launch::<M>, (m, launch, glide, hike_seconds, wind, p), scored),
        call_ensures(
            score_launch::<M>,
            (m, other, other_glide, other_seconds, other_wind, p),
            better,
        ),
        glide.max_distance_m.finite() && 0real <= value(glide.max_distance_m),
        other_glide.max_distance_m.finite(),
        value(glide.max_distance_m) <= value(other_glide.max_distance_m),
        hike_seconds.finite() && other_seconds.finite(),
        value(other_seconds) <= value(hike_seconds),
        powf(m, hike_seconds.max(Single { bits: 0x3f80_0000 }), p.alpha).finite(),
        scored.wind_factor.finite() && better.wind_factor.finite(),
        0real <= value(scored.wind_factor) <= value(better.wind_factor),
    ensures
        scored.score.at_most(better.score),
{
    zero_is_nothing();
    powers_of_two();
    let (zero, one) = (Single { bits: 0 }, Single { bits: 0x3f80_0000 });
    let (s, t) = (hike_seconds.max(one), other_seconds.max(one));
    picks_are_exact(hike_seconds, one);
    picks_are_exact(other_seconds, one);
    values_are_in_order(one, s);
    values_are_in_order(one, t);
    values_are_in_order(t, s);
    values_are_in_order(zero, p.alpha);
    let (c, d) = (powf(m, s, p.alpha), powf(m, t, p.alpha));
    assert(one.at_most(d) && d.at_most(c));
    values_are_in_order(one, d);
    values_are_in_order(d, c);
    values_are_in_order(one, c);
    let (g, h) = (glide.max_distance_m, other_glide.max_distance_m);
    quotients_grow(m, rnd, g, h, c, d);
    lemma_share(m, rnd, g, c);
    lemma_share(m, rnd, h, d);
    let (q, r) = (over(m, g, c), over(m, h, d));
    values_are_in_order(q, r);
    let (a, b, e, f) = (
        value(q),
        value(r),
        value(scored.wind_factor),
        value(better.wind_factor),
    );
    assert(a * e <= b * f) by (nonlinear_arith)
        requires
            0real <= a <= b,
            0real <= e <= f,
    ;
    rounding_keeps_order(m, rnd, scored.score, a * e, better.score, b * f);
}

/// A part of a number that is not negative is not negative and not more.
proof fn lemma_share<M: Math>(m: &M, rnd: spec_fn(real) -> int, a: Single, b: Single)
    requires
        rounds(m, rnd),
        a.finite() && b.finite(),
        0real <= value(a),
        1real <= value(b),
    ensures
        over(m, a, b).finite(),
        0real <= value(over(m, a, b)) <= value(a),
{
    zero_is_nothing();
    let (x, y) = (value(a), value(b));
    let q = x / y;
    assert(0real <= q <= x) by (nonlinear_arith)
        requires
            0real <= x,
            1real <= y,
            q == x / y,
    ;
    rounding_stays_between(m, rnd, over(m, a, b), q, Single { bits: 0 }, a);
}

/// Without wind and with an exponent of 1, the score is what is glided for each
/// second of hiking, where every hike takes a second at least. What is glided is
/// a distance or an area, by the metric.
pub proof fn scores_are_glides_by_hikes<'a, M: Math>(
    m: &M,
    rnd: spec_fn(real) -> int,
    launch: &'a Launch,
    glide: &GlideStats,
    hike_seconds: Single,
    p: &ScoringParams,
    scored: Scored<'a>,
    glided: Single,
)
    requires
        rounds(m, rnd),
        powers_grow(m),
        p.alpha.bits == 0x3f80_0000,
        call_ensures(score_launch::<M>, (m, launch, glide, hike_seconds, None, p), scored),
        p.metric == GlideMetric::MaxDistanceM ==> glided == glide.max_distance_m,
        p.metric == GlideMetric::AreaM2 ==> glided == narrow(m, glide.area_m2),
        glided.finite() && 0real <= value(glided),
        hike_seconds.finite(),
    ensures
        value(hike_seconds) <= 1real ==> stands_for(scored.score, glided.rank()),
        1real <= value(hike_seconds) ==> stands_for(
            scored.score,
            rnd(value(glided) / value(hike_seconds)),
        ),
{
    powers_of_two();
    let one = Single { bits: 0x3f80_0000 };
    picks_are_exact(hike_seconds, one);
    let s = hike_seconds.max(one);
    assert(powf(m, s, p.alpha) == s);
    let q = over(m, glided, s);
    lemma_share(m, rnd, glided, s);
    rounding_keeps_sides(m, rnd, scored.score, value(q), q);
    values_are_in_order(scored.score, q);
    if value(hike_seconds) <= 1real {
        assert(value(glided) / 1real == value(glided));
        rounding_keeps_sides(m, rnd, q, value(glided), glided);
        values_are_in_order(q, glided);
    }
}

/// Wind scales the score by how much it counts, and nothing else.
pub proof fn winds_scale_scores<'a, M: Math>(
    m: &M,
    rnd: spec_fn(real) -> int,
    launch: &'a Launch,
    glide: &GlideStats,
    hike_seconds: Single,
    wind: Wind,
    p: &ScoringParams,
    calm: Scored<'a>,
    windy: Scored<'a>,
    unscaled: Single,
)
    requires
        rounds(m, rnd),
        call_ensures(score_launch::<M>, (m, launch, glide, hike_seconds, None, p), calm),
        call_ensures(score_launch::<M>, (m, launch, glide, hike_seconds, Some(wind), p), windy),
        calm.score.finite(),
        unscaled == over(
            m,
            calm.glide_value,
            powf(m, hike_seconds.max(Single { bits: 0x3f80_0000 }), p.alpha),
        ),
        unscaled.finite(),
        windy.wind_factor.finite(),
    ensures
        windy.glide_value == calm.glide_value,
        windy.wind_factor == wind_factor(m, launch.aspect_deg, wind, p.wind_full_strength_deg),
        value(calm.wind_factor) == 1real,
        stands_for(windy.score, rnd(value(calm.score) * value(windy.wind_factor))),
{
    powers_of_two();
    let one = Single { bits: 0x3f80_0000 };
    rounding_keeps_sides(m, rnd, calm.score, value(unscaled) * value(one), unscaled);
}

/// Whether `b` is at least as cheap to hike and at least as good to glide as
/// `a`, and strictly better in one of the two.
pub open spec fn dominates(b: Scored, a: Scored) -> bool {
    &&& b.hike_seconds.at_most(a.hike_seconds)
    &&& a.glide_value.at_most(b.glide_value)
    &&& b.hike_seconds.below(a.hike_seconds) || a.glide_value.below(b.glide_value)
}

/// Whether some other launch dominates launch `i`.
pub open spec fn dominated(scored: Seq<Scored>, i: int) -> bool {
    exists|j: int| 0 <= j < scored.len() && j != i && dominates(#[trigger] scored[j], scored[i])
}

/// Whether some other launch dominates launch `i`.
fn is_dominated(scored: &[Scored], i: usize) -> (r: bool)
    requires
        i < scored@.len(),
    ensures
        r == dominated(scored@, i as int),
{
    let a = &scored[i];
    let mut j: usize = 0;
    while j < scored.len()
        invariant
            i < scored@.len(),
            a == scored@[i as int],
            j <= scored@.len(),
            forall|k: int| 0 <= k < j && k != i ==> !dominates(#[trigger] scored@[k], scored@[i as int]),
        decreases scored@.len() - j,
    {
        let b = &scored[j];
        if j != i && b.hike_seconds.le(&a.hike_seconds) && a.glide_value.le(&b.glide_value) && (
        b.hike_seconds.lt(&a.hike_seconds) || a.glide_value.lt(&b.glide_value)) {
            assert(dominates(scored@[j as int], scored@[i as int]));
            return true;
        }
        j = j + 1;
    }
    false
}

/// Whether the launches of a frontier are those that no other dominates, from
/// the shortest hike to the longest.
pub open spec fn is_frontier(scored: Seq<Scored>, front: Seq<usize>) -> bool {
    &&& forall|k: int|
        0 <= k < front.len() ==> #[trigger] front[k] < scored.len() && !dominated(
            scored,
            front[k] as int,
        )
    &&& forall|i: usize|
        i < scored.len() && !dominated(scored, i as int) ==> #[trigger] front.contains(i)
    &&& forall|k: int, l: int|
        0 <= k < l < front.len() ==> {
            let a = scored[#[trigger] front[k] as int].hike_seconds.rank();
            let b = scored[#[trigger] front[l] as int].hike_seconds.rank();
            a < b || (a == b && front[k] < front[l])
        }
}

/// Pareto frontier on (hike_seconds asc, glide_value desc): a launch is on the
/// frontier if no other launch is at least as cheap to hike AND at least as
/// good to glide, with one strictly better.
pub fn pareto_frontier<'a>(scored: &[Scored<'a>]) -> (r: Vec<usize>)
    ensures
        is_frontier(scored@, r@),
{
    let n: usize = scored.len();
    let mut on_front: Vec<usize> = Vec::new();
    let mut keys: Vec<i128> = Vec::new();
    let mut i: usize = 0;
    while i < n
        invariant
            n == scored@.len(),
            i <= n,
            keys@.len() == on_front@.len(),
            forall|k: int|
                0 <= k < on_front@.len() ==> #[trigger] on_front@[k] < i && !dominated(
                    scored@,
                    on_front@[k] as int,
                ) && keys@[k] == scored@[on_front@[k] as int].hike_seconds.rank(),
            forall|k: int, l: int|
                0 <= k < l < on_front@.len() ==> #[trigger] on_front@[k] < #[trigger] on_front@[l],
            forall|v: usize|
                v < i && !dominated(scored@, v as int) ==> #[trigger] on_front@.contains(v),
        decreases n - i,
    {
        let ghost before = on_front@;
        if !is_dominated(scored, i) {
            on_front.push(i);
            keys.push(scored[i].hike_seconds.order() as i128);
        }
        proof {
            assert forall|v: usize| v < i + 1 && !dominated(scored@, v as int) implies #[trigger]
            on_front@.contains(v) by {
                if v < i {
                    assert(before.contains(v));
                    let w = choose|w: int| 0 <= w < before.len() && before[w] == v;
                    assert(on_front@[w] == v);
                } else {
                    assert(on_front@[before.len() as int] == v);
                }
            }
        }
        i = i + 1;
    }
    let order = sorted_order(&keys);
    let mut out: Vec<usize> = Vec::new();
    let mut k: usize = 0;
    while k < order.len()
        invariant
            order@.len() == on_front@.len(),
            forall|j: int| 0 <= j < order@.len() ==> #[trigger] order@[j] < on_front@.len(),
            k <= order@.len(),
            out@.len() == k,
            forall|j: int| 0 <= j < k ==> #[trigger] out@[j] == on_front@[order@[j] as int],
        decreases order@.len() - k,
    {
        out.push(on_front[order[k]]);
        k = k + 1;
    }
    proof {
        assert forall|i: usize| i < n && !dominated(scored@, i as int) implies #[trigger]
        out@.contains(i) by {
            assert(on_front@.contains(i));
            let w = choose|w: int| 0 <= w < on_front@.len() && on_front@[w] == i;
            assert(order@.contains(w as usize));
            let p = choose|p: int| 0 <= p < order@.len() && order@[p] == w as usize;
            assert(out@[p] == i);
        }
        assert forall|k: int, l: int| 0 <= k < l < out@.len() implies ({
            let a = scored@[#[trigger] out@[k] as int].hike_seconds.rank();
            let b = scored@[#[trigger] out@[l] as int].hike_seconds.rank();
            a < b || (a == b && out@[k] < out@[l])
        }) by {
            assert(precedes(keys@, order@[k] as int, order@[l] as int));
            assert(out@[k] == on_front@[order@[k] as int]);
            assert(out@[l] == on_front@[order@[l] as int]);
        }
    }
    out
}

/// How good a launch is in both respects together.
pub open spec fn merit(s: Scored) -> int {
    s.glide_value.rank() - s.hike_seconds.rank()
}

/// Every launch off the frontier is dominated by one on it.
pub proof fn frontier_dominates_the_rest(scored: Seq<Scored>, i: int) -> (k: int)
    requires
        0 <= i < scored.len(),
        dominated(scored, i),
    ensures
        0 <= k < scored.len(),
        !dominated(scored, k),
        dominates(scored[k], scored[i]),
    decreases 0x1_0000_0000 - merit(scored[i]),
{
    let j = choose|j: int|
        0 <= j < scored.len() && j != i && dominates(#[trigger] scored[j], scored[i]);
    assert(merit(scored[j]) > merit(scored[i]));
    if dominated(scored, j) {
        let k = frontier_dominates_the_rest(scored, j);
        k
    } else {
        j
    }
}

} // verus!
