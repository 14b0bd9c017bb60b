//! What a user asks for: glide ratio, wind, preferences.

use crate::exact::{
    digits_bound_the_value, doubles_are_exact, halves_are_exact, is_floor, is_integer, is_nearest,
    is_rest, powers_of_two, rounding_keeps_sides, rounding_stays_between, rounds,
    sixteenths_are_exact, steps, value, values_are_in_order, whole_numbers_are_exact, wraps,
    zero_is_nothing,
};
use crate::geom::{turns_in_degrees, FULL_TURN, HALF, HALF_TURN};
use crate::glide::{GlideParams, DEFAULT_GLIDE_RATIO, DEFAULT_SAFETY_BUFFER};
use crate::math::{
    floor, over, rem_euclid, round, single, steady, times, to_i32, to_int, Math,
};
use crate::scalar::{Single, ONE, TEN};
use crate::score::{GlideMetric, ScoringParams, FULL_STRENGTH};
use crate::text::same_text;
use crate::wind::Wind;
use vstd::arithmetic::power2::lemma2_to64;
use vstd::prelude::*;

verus! {

/// 2.
pub const TWO: u32 = 0x4000_0000;

/// 20.
pub const STEEPEST_RATIO: u32 = 0x41a0_0000;

/// 8, in km/h.
pub const LIGHT_BREEZE: u32 = 0x4100_0000;

/// What tells floods apart: twice the glide ratio, and the wind's direction in
/// steps of 10 degrees and its speed in steps of 2 km/h, or -1 and -1 for still
/// air.
pub type FloodKey = (i32, i32, i32);

/// The request for a ranking.
#[derive(Debug)]
pub struct ScoreQuery {
    pub wind_from: Single,
    pub wind_kmh: Single,
    pub alpha: Single,
    pub metric: String,
    pub use_wind: u8,
    pub glide_ratio: Single,
    pub use_lifts: u8,
}

/// The request for a launch's footprint.
#[derive(Debug)]
pub struct ReachQuery {
    pub glide_ratio: Single,
    pub wind_from: Single,
    pub wind_kmh: Single,
    pub use_wind: u8,
}

impl Default for ScoreQuery {
    /// A breeze from the south, distance, glide ratio 8, with lifts.
    fn default() -> (r: Self)
        ensures
            r.wind_from.bits == HALF_TURN,
            r.wind_kmh.bits == LIGHT_BREEZE,
            r.alpha.bits == ONE,
            r.metric@ == "distance"@,
            r.use_wind == 1,
            r.glide_ratio.bits == DEFAULT_GLIDE_RATIO,
            r.use_lifts == 1,
    {
        ScoreQuery {
            wind_from: Single { bits: HALF_TURN },
            wind_kmh: Single { bits: LIGHT_BREEZE },
            alpha: Single { bits: ONE },
            metric: "distance".to_owned(),
            use_wind: 1,
            glide_ratio: Single { bits: DEFAULT_GLIDE_RATIO },
            use_lifts: 1,
        }
    }
}

impl Default for ReachQuery {
    /// A breeze from the south, glide ratio 8.
    fn default() -> (r: Self)
        ensures
            r.glide_ratio.bits == DEFAULT_GLIDE_RATIO,
            r.wind_from.bits == HALF_TURN,
            r.wind_kmh.bits == LIGHT_BREEZE,
            r.use_wind == 1,
    {
        ReachQuery {
            glide_ratio: Single { bits: DEFAULT_GLIDE_RATIO },
            wind_from: Single { bits: HALF_TURN },
            wind_kmh: Single { bits: LIGHT_BREEZE },
            use_wind: 1,
        }
    }
}

/// The glide ratio rounded to halves, within 2 to 20.
pub open spec fn bucket_ratio<M: Math>(m: &M, glide_ratio: Single) -> Single {
    let two = Single { bits: TWO };
    over(
        m,
        round(m, times(m, glide_ratio.clamp(two, Single { bits: STEEPEST_RATIO }), two)),
        two,
    )
}

/// The wind with its direction rounded down to tens of degrees and its speed to
/// even km/h.
pub open spec fn bucket_wind<M: Math>(m: &M, w: Wind) -> Wind {
    let ten = Single { bits: TEN };
    let two = Single { bits: TWO };
    Wind {
        from_deg: times(
            m,
            floor(m, over(m, rem_euclid(m, w.from_deg, Single { bits: FULL_TURN }), ten)),
            ten,
        ),
        speed_kmh: times(m, floor(m, over(m, w.speed_kmh, two)), two),
    }
}

/// Snap (glide ratio, wind) onto coarse buckets so neighbouring slider values
/// share a cached result. The bounds of a bucket are stable: any pair of
/// adjacent slider values within the same 2 km/h or 10 degree window has the
/// same key. A wind that does not blow is still air.
pub open spec fn spec_bucket_inputs<M: Math>(m: &M, glide_ratio: Single, wind: Option<Wind>) -> (
    Single,
    Option<Wind>,
    FloodKey,
) {
    let ratio = bucket_ratio(m, glide_ratio);
    let ratio_key = to_i32(to_int(m, round(m, times(m, ratio, Single { bits: TWO }))));
    match wind {
        Some(w) => if (Single { bits: 0 }).below(w.speed_kmh) {
            let b = bucket_wind(m, w);
            (
                ratio,
                Some(b),
                (ratio_key, to_i32(to_int(m, b.from_deg)), to_i32(to_int(m, b.speed_kmh))),
            )
        } else {
            (ratio, None, (ratio_key, (-1) as i32, (-1) as i32))
        },
        None => (ratio, None, (ratio_key, (-1) as i32, (-1) as i32)),
    }
}

/// Snap (glide ratio, wind) onto coarse buckets.
#[verifier::when_used_as_spec(spec_bucket_inputs)]
pub fn bucket_inputs<M: Math>(m: &M, glide_ratio: Single, wind: Option<Wind>) -> (r: (
    Single,
    Option<Wind>,
    FloodKey,
))
    requires
        steady(m),
    ensures
        r == bucket_inputs(m, glide_ratio, wind),
{
    let two = Single { bits: TWO };
    let ten = Single { bits: TEN };
    let ratio = over(
        m,
        round(m, times(m, glide_ratio.clamp(two, Single { bits: STEEPEST_RATIO }), two)),
        two,
    );
    let ratio_key: i32 = to_i32(to_int(m, round(m, times(m, ratio, two))));
    match wind {
        Some(w) => {
            if Single::zero().lt(&w.speed_kmh) {
                let from_deg = times(
                    m,
                    floor(m, over(m, rem_euclid(m, w.from_deg, Single { bits: FULL_TURN }), ten)),
                    ten,
                );
                let speed_kmh = times(m, floor(m, over(m, w.speed_kmh, two)), two);
                let key: FloodKey = (
                    ratio_key,
                    to_i32(to_int(m, from_deg)),
                    to_i32(to_int(m, speed_kmh)),
                );
                (ratio, Some(Wind { from_deg, speed_kmh }), key)
            } else {
                (ratio, None, (ratio_key, -1, -1))
            }
        },
        None => (ratio, None, (ratio_key, -1, -1)),
    }
}

/// Glide parameters for a glide ratio and wind.
pub open spec fn spec_glide_params(glide_ratio: Single, wind: Option<Wind>) -> GlideParams {
    GlideParams {
        glide_ratio,
        safety_buffer_m: Single { bits: DEFAULT_SAFETY_BUFFER },
        takeoff_initial_agl_m: Single { bits: TEN },
        airspeed_ms: Single { bits: TEN },
        wind,
    }
}

/// Glide parameters for a glide ratio and wind.
#[verifier::when_used_as_spec(spec_glide_params)]
pub fn glide_params(glide_ratio: Single, wind: Option<Wind>) -> (r: GlideParams)
    ensures
        r == glide_params(glide_ratio, wind),
{
    let d = GlideParams::default();
    GlideParams {
        glide_ratio,
        safety_buffer_m: d.safety_buffer_m,
        takeoff_initial_agl_m: d.takeoff_initial_agl_m,
        airspeed_ms: d.airspeed_ms,
        wind,
    }
}

/// The wind that shapes glides: only when the user has it on AND its speed is
/// over 0.5 km/h.
pub open spec fn spec_glide_wind(use_wind: u8, from: Single, kmh: Single) -> Option<Wind> {
    if use_wind != 0 && (Single { bits: HALF }).below(kmh) {
        Some(Wind { from_deg: from, speed_kmh: kmh })
    } else {
        None
    }
}

/// The wind that shapes glides.
#[verifier::when_used_as_spec(spec_glide_wind)]
pub fn glide_wind(use_wind: u8, from: Single, kmh: Single) -> (r: Option<Wind>)
    ensures
        r == glide_wind(use_wind, from, kmh),
{
    if use_wind != 0 && (Single { bits: HALF }).lt(&kmh) {
        Some(Wind::new(from, kmh))
    } else {
        None
    }
}

/// What a request's glides are computed with: the key of their bucket, and the
/// parameters.
pub open spec fn bucket_glide<M: Math>(
    m: &M,
    glide_ratio: Single,
    use_wind: u8,
    from: Single,
    kmh: Single,
) -> (FloodKey, GlideParams) {
    let (ratio, wind, key) = bucket_inputs(m, glide_ratio, glide_wind(use_wind, from, kmh));
    (key, glide_params(ratio, wind))
}

impl ReachQuery {
    /// What the glides are computed with.
    pub open spec fn spec_glide<M: Math>(&self, m: &M) -> (FloodKey, GlideParams) {
        bucket_glide(m, self.glide_ratio, self.use_wind, self.wind_from, self.wind_kmh)
    }

    /// What the glides are computed with.
    #[verifier::when_used_as_spec(spec_glide)]
    pub fn glide<M: Math>(&self, m: &M) -> (r: (FloodKey, GlideParams))
        requires
            steady(m),
        ensures
            r == self.glide(m),
    {
        let wind = glide_wind(self.use_wind, self.wind_from, self.wind_kmh);
        let (ratio, wind, key) = bucket_inputs(m, self.glide_ratio, wind);
        (key, glide_params(ratio, wind))
    }
}

impl ScoreQuery {
    /// What the glides are computed with.
    pub open spec fn spec_glide<M: Math>(&self, m: &M) -> (FloodKey, GlideParams) {
        bucket_glide(m, self.glide_ratio, self.use_wind, self.wind_from, self.wind_kmh)
    }

    /// What the glides are computed with.
    #[verifier::when_used_as_spec(spec_glide)]
    pub fn glide<M: Math>(&self, m: &M) -> (r: (FloodKey, GlideParams))
        requires
            steady(m),
        ensures
            r == self.glide(m),
    {
        let wind = glide_wind(self.use_wind, self.wind_from, self.wind_kmh);
        let (ratio, wind, key) = bucket_inputs(m, self.glide_ratio, wind);
        (key, glide_params(ratio, wind))
    }

    /// The wind that ranks launches.
    pub open spec fn spec_wind(&self) -> Option<Wind> {
        if self.use_wind != 0 {
            Some(Wind { from_deg: self.wind_from, speed_kmh: self.wind_kmh })
        } else {
            None
        }
    }

    /// The wind that ranks launches.
    #[verifier::when_used_as_spec(spec_wind)]
    pub fn wind(&self) -> (r: Option<Wind>)
        ensures
            r == self.wind(),
    {
        if self.use_wind != 0 {
            Some(Wind::new(self.wind_from, self.wind_kmh))
        } else {
            None
        }
    }

    /// How launches are ranked: by area where that is asked for, else by
    /// distance.
    pub open spec fn spec_scoring(&self) -> ScoringParams {
        ScoringParams {
            metric: if self.metric@ == "area"@ {
                GlideMetric::AreaM2
            } else {
                GlideMetric::MaxDistanceM
            },
            alpha: self.alpha,
            wind_full_strength_deg: Single { bits: FULL_STRENGTH },
        }
    }

    /// How launches are ranked.
    #[verifier::when_used_as_spec(spec_scoring)]
    pub fn scoring(&self) -> (r: ScoringParams)
        ensures
            r == self.scoring(),
    {
        let metric = if same_text(self.metric.as_str(), "area") {
            GlideMetric::AreaM2
        } else {
            GlideMetric::MaxDistanceM
        };
        ScoringParams {
            metric,
            alpha: self.alpha,
            wind_full_strength_deg: Single { bits: FULL_STRENGTH },
        }
    }
}

/// Slider values within the same window share a bucket: the same half of a glide
/// ratio, the same 10 degrees and the same 2 km/h.
pub proof fn windows_share_a_bucket<M: Math>(m: &M, a: Single, v: Wind, b: Single, w: Wind)
    requires
        bucket_ratio(m, a) == bucket_ratio(m, b),
        (Single { bits: 0 }).below(v.speed_kmh),
        (Single { bits: 0 }).below(w.speed_kmh),
        floor(m, over(m, rem_euclid(m, v.from_deg, Single { bits: FULL_TURN }), Single { bits: TEN }))
            == floor(
            m,
            over(m, rem_euclid(m, w.from_deg, Single { bits: FULL_TURN }), Single { bits: TEN }),
        ),
        floor(m, over(m, v.speed_kmh, Single { bits: TWO })) == floor(
            m,
            over(m, w.speed_kmh, Single { bits: TWO }),
        ),
    ensures
        bucket_inputs(m, a, Some(v)) == bucket_inputs(m, b, Some(w)),
{
}

/// Whether two numbers are the same: of equal value, and neither NaN.
pub open spec fn same_number(x: Single, y: Single) -> bool {
    x.at_most(y) && y.at_most(x)
}

/// Whether a number is whole and fits a key: the key's integer stands for it.
pub open spec fn is_whole<M: Math>(m: &M, x: Single) -> bool {
    &&& i32::MIN <= to_int(m, x) <= i32::MAX
    &&& same_number(x, single(m, to_int(m, x)))
}

/// Whether the arithmetic keeps bucketed inputs apart: twice the glide ratio is
/// whole, and half of it is the glide ratio; the wind's direction and speed are
/// whole, and the direction is not negative.
pub open spec fn kept_apart<M: Math>(m: &M, ratio: Single, wind: Option<Wind>) -> bool {
    let twice = round(m, times(m, ratio, Single { bits: TWO }));
    &&& is_whole(m, twice)
    &&& same_number(ratio, over(m, single(m, to_int(m, twice)), Single { bits: TWO }))
    &&& match wind {
        Some(w) => is_whole(m, w.from_deg) && is_whole(m, w.speed_kmh) && 0 <= to_int(
            m,
            w.from_deg,
        ),
        None => true,
    }
}

/// Requests with the same key are computed with the same glide ratio and the
/// same wind, wherever the arithmetic keeps the bucketed inputs apart: a result
/// that is stored under a key answers every request with that key.
pub proof fn keys_tell_floods_apart<M: Math>(
    m: &M,
    a: Single,
    v: Option<Wind>,
    b: Single,
    w: Option<Wind>,
)
    requires
        kept_apart(m, bucket_inputs(m, a, v).0, bucket_inputs(m, a, v).1),
        kept_apart(m, bucket_inputs(m, b, w).0, bucket_inputs(m, b, w).1),
        bucket_inputs(m, a, v).2 == bucket_inputs(m, b, w).2,
    ensures
        same_number(bucket_inputs(m, a, v).0, bucket_inputs(m, b, w).0),
        match (bucket_inputs(m, a, v).1, bucket_inputs(m, b, w).1) {
            (Some(x), Some(y)) => same_number(x.from_deg, y.from_deg) && same_number(
                x.speed_kmh,
                y.speed_kmh,
            ),
            (None, None) => true,
            _ => false,
        },
{
}

/// A launch's footprint is computed with what its row of the table is computed
/// with.
pub proof fn footprints_match_the_table<M: Math>(m: &M, reach: &ReachQuery, table: &ScoreQuery)
    requires
        reach.glide_ratio == table.glide_ratio,
        reach.use_wind == table.use_wind,
        reach.wind_from == table.wind_from,
        reach.wind_kmh == table.wind_kmh,
    ensures
        reach.glide(m) == table.glide(m),
{
}

/// A number at a multiple, or less than the next one by 1 at least, is stepped
/// down to the multiple.
proof fn lemma_stepped<M: Math>(
    m: &M,
    rnd: spec_fn(real) -> int,
    x: Single,
    d: Single,
    k: int,
    width: int,
)
    requires
        rounds(m, rnd),
        steps(m),
        x.finite() && d.finite(),
        2 <= width <= 10,
        value(d) == width as real,
        0 <= k <= 0x8_0000,
        (k * width) as real <= value(x) <= (k * width + width - 1) as real,
    ensures
        times(m, floor(m, over(m, x, d)), d).finite(),
        value(times(m, floor(m, over(m, x, d)), d)) == (k * width) as real,
        to_int(m, times(m, floor(m, over(m, x, d)), d)) == k * width,
{
    let q = over(m, x, d);
    let (v, w, c) = (value(x), width as real, k as real);
    let low = whole_numbers_are_exact(m, rnd, k);
    assert((k * width) as real == c * w) by (nonlinear_arith)
        requires
            c == k as real,
            w == width as real,
    ;
    assert((k * width + width - 1) as real == c * w + w - 1real);
    let high = sixteenths_are_exact(m, rnd, 16 * k + 15);
    assert(c <= v / w <= c + 15real / 16real) by (nonlinear_arith)
        requires
            2real <= w <= 10real,
            c * w <= v <= c * w + w - 1real,
    ;
    rounding_stays_between(m, rnd, q, v / w, low, high);
    assert(is_floor(q, k));
    let f = floor(m, q);
    assert(0 <= k * width <= 0x100_0000) by (nonlinear_arith)
        requires
            0 <= k <= 0x8_0000,
            2 <= width <= 10,
    ;
    let r = whole_numbers_are_exact(m, rnd, k * width);
    rounding_keeps_sides(m, rnd, times(m, f, d), c * w, r);
    assert(is_integer(times(m, f, d), k * width));
}

/// Wind is bucketed by tens of degrees, whole turns apart or not, and by even
/// km/h; the key holds the two.
pub proof fn winds_are_bucketed<M: Math>(
    m: &M,
    rnd: spec_fn(real) -> int,
    glide_ratio: Single,
    wind: Wind,
    turns: int,
    degrees: real,
    tens: int,
    twos: int,
)
    requires
        rounds(m, rnd),
        wraps(m, rnd),
        steps(m),
        wind.from_deg.finite() && wind.speed_kmh.finite(),
        value(wind.from_deg) == 360real * (turns as real) + degrees,
        0 <= tens < 36,
        (tens * 10) as real <= degrees <= (tens * 10 + 9) as real,
        0real < value(wind.speed_kmh),
        0 <= twos <= 1_000,
        (twos * 2) as real <= value(wind.speed_kmh) <= (twos * 2 + 1) as real,
    ensures
        match bucket_inputs(m, glide_ratio, Some(wind)).1 {
            Some(b) => value(b.from_deg) == (tens * 10) as real && value(b.speed_kmh) == (twos
                * 2) as real,
            None => false,
        },
        (bucket_inputs(m, glide_ratio, Some(wind)).2).1 == tens * 10,
        (bucket_inputs(m, glide_ratio, Some(wind)).2).2 == twos * 2,
{
    turns_in_degrees();
    powers_of_two();
    zero_is_nothing();
    lemma2_to64();
    values_are_in_order(Single { bits: 0 }, wind.speed_kmh);
    let ten = Single { bits: 0x4120_0000 };
    digits_bound_the_value(ten, 130, 0xa0_0000, 1_048_576, 10real, 10real);
    let turn = Single { bits: 0x43b4_0000 };
    assert(is_rest(wind.from_deg, turn, turns, degrees));
    let r = rem_euclid(m, wind.from_deg, turn);
    let low = whole_numbers_are_exact(m, rnd, tens * 10);
    let high = whole_numbers_are_exact(m, rnd, tens * 10 + 9);
    rounding_stays_between(m, rnd, r, degrees, low, high);
    lemma_stepped(m, rnd, r, ten, tens, 10);
    lemma_stepped(m, rnd, wind.speed_kmh, Single { bits: 0x4000_0000 }, twos, 2);
}

/// Glide ratios are bucketed to the nearest half, within 2 to 20; the key holds
/// the number of halves.
pub proof fn glide_ratios_are_bucketed<M: Math>(
    m: &M,
    rnd: spec_fn(real) -> int,
    glide_ratio: Single,
    wind: Option<Wind>,
    halves: int,
)
    requires
        rounds(m, rnd),
        steps(m),
        glide_ratio.finite(),
        4 <= halves <= 40,
        ({
            let twice = 2real * value(glide_ratio);
            ||| halves as real - 1real / 2real <= twice < halves as real + 1real / 2real
            ||| twice < 4real && halves == 4
            ||| 40real <= twice && halves == 40
        }),
    ensures
        bucket_inputs(m, glide_ratio, wind).0.finite(),
        2real * value(bucket_inputs(m, glide_ratio, wind).0) == halves as real,
        (bucket_inputs(m, glide_ratio, wind).2).0 == halves,
{
    powers_of_two();
    lemma2_to64();
    let two = Single { bits: 0x4000_0000 };
    let most = Single { bits: 0x41a0_0000 };
    digits_bound_the_value(most, 131, 0xa0_0000, 524_288, 20real, 20real);
    let c = glide_ratio.clamp(two, most);
    values_are_in_order(glide_ratio, two);
    values_are_in_order(most, glide_ratio);
    let t = times(m, c, two);
    doubles_are_exact(m, rnd, c);
    assert(is_nearest(t, halves));
    let r = round(m, t);
    let h = halves_are_exact(r);
    let q = over(m, r, two);
    rounding_keeps_sides(m, rnd, q, value(r) / 2real, h);
    let k = times(m, q, two);
    rounding_keeps_sides(m, rnd, k, value(q) * 2real, r);
    assert(is_nearest(k, halves));
    assert(is_integer(round(m, k), halves));
}

/// Wind is left out of glides where it is switched off or blows at 0.5 km/h at
/// most, and is taken as it is otherwise.
pub proof fn faint_winds_are_left_out(use_wind: u8, from: Single, kmh: Single)
    requires
        kmh.finite(),
    ensures
        use_wind == 0 || value(kmh) <= 1real / 2real ==> glide_wind(use_wind, from, kmh) is None,
        use_wind != 0 && 1real / 2real < value(kmh) ==> glide_wind(use_wind, from, kmh) == Some(
            Wind { from_deg: from, speed_kmh: kmh },
        ),
{
    powers_of_two();
    values_are_in_order(Single { bits: 0x3f00_0000 }, kmh);
}

} // verus!
