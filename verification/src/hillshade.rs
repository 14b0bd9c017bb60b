//! Render a hillshade PNG of a DEM using sun azimuth=315 deg, altitude=45 deg.
//!
//! Standard formula (Burrough & McDonnell):
//!   shade = cos(zenith) * cos(slope) + sin(zenith) * sin(slope) * cos(az_sun - aspect)
//!
//! We additionally tint by altitude (low = green, high = white) so the user
//! can read elevation at a glance.

use crate::dem::Dem;
use crate::exact::{
    counts, digits_bound_the_value, powers_of_two, rounding_keeps_order, rounding_keeps_sides,
    rounding_stays_between, rounds, value, values_are_in_order, whole_arithmetic_is_exact,
    whole_numbers_are_exact, zero_is_nothing,
};
use crate::math::{cos, minus, over, plus, radians, sin, steady, times, Math};
use crate::png_util::{channel, encode_png, lemma_spread_len, png_of, put_pixel, spread};
use crate::region::{extremes, highest, lowest};
use crate::scalar::{Single, ONE};
use vstd::arithmetic::power2::lemma2_to64;
use vstd::prelude::*;

verus! {

/// 315.
pub const SUN_AZIMUTH_DEG: u32 = 0x439d_8000;

/// 45.
pub const SUN_ALTITUDE_DEG: u32 = 0x4234_0000;

/// 90.
pub const ZENITH_DEG: u32 = 0x42b4_0000;

/// 0.4: from here up to 0.8 of the altitude range the tint turns from tan to rock.
pub const TAN_FROM: u32 = 0x3ecc_cccd;

/// 0.8: from here on the tint turns from rock to snow.
pub const ROCK_FROM: u32 = 0x3f4c_cccd;

/// 0.2.
pub const SNOW_SPAN: u32 = 0x3e4c_cccd;

/// 0.3: light in full shadow.
pub const AMBIENT: u32 = 0x3e99_999a;

/// 0.7: light that the sun adds.
pub const DIRECT: u32 = 0x3f33_3333;

/// 90.
pub const MOSS_RED: u32 = 0x42b4_0000;

/// 130.
pub const MOSS_GREEN: u32 = 0x4302_0000;

/// 80.
pub const MOSS_BLUE: u32 = 0x42a0_0000;

/// 160.
pub const TAN_RED: u32 = 0x4320_0000;

/// 150.
pub const TAN_GREEN: u32 = 0x4316_0000;

/// 110.
pub const TAN_BLUE: u32 = 0x42dc_0000;

/// 200.
pub const ROCK_RED: u32 = 0x4348_0000;

/// 195.
pub const ROCK_GREEN: u32 = 0x4343_0000;

/// 185.
pub const ROCK_BLUE: u32 = 0x4339_0000;

/// 250.
pub const SNOW_RED: u32 = 0x437a_0000;

/// 250.
pub const SNOW_GREEN: u32 = 0x437a_0000;

/// 252.
pub const SNOW_BLUE: u32 = 0x437c_0000;

/// Red, green and blue.
pub type Rgb = (Single, Single, Single);

/// The color between two colors.
pub open spec fn spec_lerp_rgb<M: Math>(m: &M, a: Rgb, b: Rgb, t: Single) -> Rgb {
    (
        plus(m, a.0, times(m, minus(m, b.0, a.0), t)),
        plus(m, a.1, times(m, minus(m, b.1, a.1), t)),
        plus(m, a.2, times(m, minus(m, b.2, a.2), t)),
    )
}

/// The color between two colors.
#[verifier::when_used_as_spec(spec_lerp_rgb)]
pub fn lerp_rgb<M: Math>(m: &M, a: Rgb, b: Rgb, t: Single) -> (r: Rgb)
    requires
        steady(m),
    ensures
        r == lerp_rgb(m, a, b, t),
{
    (
        plus(m, a.0, times(m, minus(m, b.0, a.0), t)),
        plus(m, a.1, times(m, minus(m, b.1, a.1), t)),
        plus(m, a.2, times(m, minus(m, b.2, a.2), t)),
    )
}

/// Angle of the sun from straight up, in radians.
pub open spec fn zenith<M: Math>(m: &M) -> Single {
    radians(m, minus(m, Single { bits: ZENITH_DEG }, Single { bits: SUN_ALTITUDE_DEG }))
}

/// Light on terrain of a slope and aspect; level ground where they are not
/// defined.
pub open spec fn shade_of<M: Math>(m: &M, slope: Single, aspect: Single) -> Single {
    if slope.finite() && aspect.finite() {
        let z = zenith(m);
        let s = radians(m, slope);
        let a = radians(m, aspect);
        let sun = radians(m, Single { bits: SUN_AZIMUTH_DEG });
        plus(
            m,
            times(m, cos(m, z), cos(m, s)),
            times(m, times(m, sin(m, z), sin(m, s)), cos(m, minus(m, sun, a))),
        ).clamp(Single { bits: 0 }, Single { bits: ONE })
    } else {
        cos(m, zenith(m))
    }
}

/// Elevation tint: low altitude (valley) is mossy green, mid is tan, high is
/// snowy white.
pub open spec fn tint_of<M: Math>(m: &M, t: Single) -> Rgb {
    let moss = (
        Single { bits: MOSS_RED },
        Single { bits: MOSS_GREEN },
        Single { bits: MOSS_BLUE },
    );
    let tan = (Single { bits: TAN_RED }, Single { bits: TAN_GREEN }, Single { bits: TAN_BLUE });
    let rock = (
        Single { bits: ROCK_RED },
        Single { bits: ROCK_GREEN },
        Single { bits: ROCK_BLUE },
    );
    let snow = (
        Single { bits: SNOW_RED },
        Single { bits: SNOW_GREEN },
        Single { bits: SNOW_BLUE },
    );
    if t.below(Single { bits: TAN_FROM }) {
        lerp_rgb(m, moss, tan, over(m, t, Single { bits: TAN_FROM }))
    } else if t.below(Single { bits: ROCK_FROM }) {
        lerp_rgb(
            m,
            tan,
            rock,
            over(m, minus(m, t, Single { bits: TAN_FROM }), Single { bits: TAN_FROM }),
        )
    } else {
        lerp_rgb(
            m,
            rock,
            snow,
            over(m, minus(m, t, Single { bits: ROCK_FROM }), Single { bits: SNOW_SPAN }),
        )
    }
}

/// Pixel of a cell, for altitudes from `low` over `range`.
pub open spec fn hill_pixel<M: Math>(
    m: &M,
    z: Single,
    slope: Single,
    aspect: Single,
    low: Single,
    range: Single,
) -> [u8; 4] {
    if z.finite() {
        let t = over(m, minus(m, z, low), range).clamp(Single { bits: 0 }, Single { bits: ONE });
        let (red, green, blue) = tint_of(m, t);
        let mix = plus(
            m,
            Single { bits: AMBIENT },
            times(m, Single { bits: DIRECT }, shade_of(m, slope, aspect)),
        );
        [
            channel(m, times(m, red, mix)),
            channel(m, times(m, green, mix)),
            channel(m, times(m, blue, mix)),
            255,
        ]
    } else {
        [0, 0, 0, 0]
    }
}

/// The pixels of the hillshade.
pub open spec fn hill_pixels<M: Math>(
    m: &M,
    dem: &Dem,
    slope: Seq<Single>,
    aspect: Seq<Single>,
) -> Seq<[u8; 4]> {
    let low = lowest(dem.data@);
    let range = minus(m, highest(dem.data@), low).max(Single { bits: ONE });
    Seq::new(
        dem.data@.len(),
        |i: int| hill_pixel(m, dem.data@[i], slope[i], aspect[i], low, range),
    )
}

/// Light on terrain of a slope and aspect.
fn shade<M: Math>(m: &M, slope: Single, aspect: Single) -> (r: Single)
    requires
        steady(m),
    ensures
        r == shade_of(m, slope, aspect),
{
    let z = radians(m, minus(m, Single { bits: ZENITH_DEG }, Single { bits: SUN_ALTITUDE_DEG }));
    if slope.is_finite() && aspect.is_finite() {
        let s = radians(m, slope);
        let a = radians(m, aspect);
        let sun = radians(m, Single { bits: SUN_AZIMUTH_DEG });
        plus(
            m,
            times(m, cos(m, z), cos(m, s)),
            times(m, times(m, sin(m, z), sin(m, s)), cos(m, minus(m, sun, a))),
        ).clamp(Single { bits: 0 }, Single { bits: ONE })
    } else {
        cos(m, z)
    }
}

/// Elevation tint.
fn tint<M: Math>(m: &M, t: Single) -> (r: Rgb)
    requires
        steady(m),
    ensures
        r == tint_of(m, t),
{
    let moss = (
        Single { bits: MOSS_RED },
        Single { bits: MOSS_GREEN },
        Single { bits: MOSS_BLUE },
    );
    let tan = (Single { bits: TAN_RED }, Single { bits: TAN_GREEN }, Single { bits: TAN_BLUE });
    let rock = (
        Single { bits: ROCK_RED },
        Single { bits: ROCK_GREEN },
        Single { bits: ROCK_BLUE },
    );
    let snow = (
        Single { bits: SNOW_RED },
        Single { bits: SNOW_GREEN },
        Single { bits: SNOW_BLUE },
    );
    if t.lt(&Single { bits: TAN_FROM }) {
        lerp_rgb(m, moss, tan, over(m, t, Single { bits: TAN_FROM }))
    } else if t.lt(&Single { bits: ROCK_FROM }) {
        lerp_rgb(
            m,
            tan,
            rock,
            over(m, minus(m, t, Single { bits: TAN_FROM }), Single { bits: TAN_FROM }),
        )
    } else {
        lerp_rgb(
            m,
            rock,
            snow,
            over(m, minus(m, t, Single { bits: ROCK_FROM }), Single { bits: SNOW_SPAN }),
        )
    }
}

/// The bytes of the hillshade's pixels.
pub fn hill_bytes<M: Math>(m: &M, dem: &Dem, slope_deg: &[Single], aspect_deg: &[Single]) -> (r: Vec<
    u8,
>)
    requires
        steady(m),
        dem.wf(),
        slope_deg@.len() == dem.data@.len(),
        aspect_deg@.len() == dem.data@.len(),
    ensures
        r@ == spread(hill_pixels(m, dem, slope_deg@, aspect_deg@)),
{
    let n: usize = dem.data.len();
    let (low, high) = extremes(&dem.data);
    let range = minus(m, high, low).max(Single { bits: ONE });
    let ghost pixels = hill_pixels(m, dem, slope_deg@, aspect_deg@);
    let mut out: Vec<u8> = Vec::new();
    let mut k: usize = 0;
    assert(pixels.take(0) =~= Seq::empty());
    while k < n
        invariant
            steady(m),
            n == dem.data@.len(),
            slope_deg@.len() == n,
            aspect_deg@.len() == n,
            low == lowest(dem.data@),
            range == minus(m, highest(dem.data@), low).max(Single { bits: ONE }),
            pixels == hill_pixels(m, dem, slope_deg@, aspect_deg@),
            k <= n,
            out@ == spread(pixels.take(k as int)),
        decreases n - k,
    {
        let z = dem.data[k];
        let pixel: [u8; 4] = if z.is_finite() {
            let light = shade(m, slope_deg[k], aspect_deg[k]);
            let t = over(m, minus(m, z, low), range).clamp(
                Single { bits: 0 },
                Single { bits: ONE },
            );
            let (red, green, blue) = tint(m, t);
            // Combine: multiply tint by hillshade (with a floor so shadows
            // aren't pitch black).
            let mix = plus(
                m,
                Single { bits: AMBIENT },
                times(m, Single { bits: DIRECT }, light),
            );
            [
                channel(m, times(m, red, mix)),
                channel(m, times(m, green, mix)),
                channel(m, times(m, blue, mix)),
                255,
            ]
        } else {
            [0, 0, 0, 0]
        };
        assert(pixel == pixels[k as int]);
        put_pixel(&mut out, pixel, Ghost(pixels.take(k as int)));
        assert(pixels.take(k as int).push(pixel) =~= pixels.take(k + 1));
        k = k + 1;
    }
    assert(pixels.take(n as int) =~= pixels);
    out
}

/// The hillshade as a PNG file, or what is wrong with the image.
pub fn render<M: Math>(m: &M, dem: &Dem, slope_deg: &[Single], aspect_deg: &[Single]) -> (r: Result<
    Vec<u8>,
    String,
>)
    requires
        steady(m),
        dem.wf(),
        slope_deg@.len() == dem.data@.len(),
        aspect_deg@.len() == dem.data@.len(),
    ensures
        png_of(dem.cols, dem.rows, spread(hill_pixels(m, dem, slope_deg@, aspect_deg@)))
            == match r {
            Ok(v) => Ok(v@),
            Err(e) => Err(e@),
        },
{
    let bytes = hill_bytes(m, dem, slope_deg, aspect_deg);
    proof {
        lemma_spread_len(hill_pixels(m, dem, slope_deg@, aspect_deg@));
        assert(dem.cols * dem.rows == dem.rows * dem.cols) by (nonlinear_arith);
    }
    encode_png(dem.cols, dem.rows, bytes)
}

/// A color between two colors is the first one at 0, the second one at 1, and
/// never beyond either. Stated of whole colors.
pub proof fn colors_between_go_from_one_to_the_other<M: Math>(
    m: &M,
    rnd: spec_fn(real) -> int,
    a: Rgb,
    b: Rgb,
    t: Single,
    from: (int, int, int),
    to: (int, int, int),
)
    requires
        rounds(m, rnd),
        counts(a.0, from.0) && counts(a.1, from.1) && counts(a.2, from.2),
        counts(b.0, to.0) && counts(b.1, to.1) && counts(b.2, to.2),
        0 <= from.0 <= 255 && 0 <= from.1 <= 255 && 0 <= from.2 <= 255,
        0 <= to.0 <= 255 && 0 <= to.1 <= 255 && 0 <= to.2 <= 255,
        t.finite() && 0real <= value(t) <= 1real,
    ensures
        ({
            let c = lerp_rgb(m, a, b, t);
            &&& is_between(value(c.0), from.0, to.0) && c.0.finite()
            &&& is_between(value(c.1), from.1, to.1) && c.1.finite()
            &&& is_between(value(c.2), from.2, to.2) && c.2.finite()
            &&& value(t) == 0real ==> counts(c.0, from.0) && counts(c.1, from.1) && counts(
                c.2,
                from.2,
            )
            &&& value(t) == 1real ==> counts(c.0, to.0) && counts(c.1, to.1) && counts(c.2, to.2)
        }),
{
    lemma_blend(m, rnd, a.0, from.0, b.0, to.0, t);
    lemma_blend(m, rnd, a.1, from.1, b.1, to.1, t);
    lemma_blend(m, rnd, a.2, from.2, b.2, to.2, t);
}

/// Whether a number is from one whole number to another, in either order.
pub open spec fn is_between(v: real, a: int, b: int) -> bool {
    a as real <= v <= b as real || b as real <= v <= a as real
}

proof fn lemma_blend<M: Math>(
    m: &M,
    rnd: spec_fn(real) -> int,
    a: Single,
    i: int,
    b: Single,
    j: int,
    t: Single,
)
    requires
        rounds(m, rnd),
        counts(a, i) && counts(b, j),
        0 <= i <= 255,
        0 <= j <= 255,
        t.finite() && 0real <= value(t) <= 1real,
    ensures
        ({
            let c = plus(m, a, times(m, minus(m, b, a), t));
            &&& c.finite() && is_between(value(c), i, j)
            &&& value(t) == 0real ==> counts(c, i)
            &&& value(t) == 1real ==> counts(c, j)
        }),
{
    whole_arithmetic_is_exact(m, rnd, b, j, a, i);
    let d = minus(m, b, a);
    let (x, v) = ((j - i) as real, value(t));
    let zero = whole_numbers_are_exact(m, rnd, 0);
    assert((0real <= x ==> 0real <= x * v <= x) && (x <= 0real ==> x <= x * v <= 0real) && (v
        == 0real ==> x * v == 0real) && (v == 1real ==> x * v == x)) by (nonlinear_arith)
        requires
            0real <= v <= 1real,
    ;
    let p = times(m, d, t);
    if 0real <= x {
        rounding_stays_between(m, rnd, p, x * v, zero, d);
        rounding_stays_between(m, rnd, plus(m, a, p), value(a) + value(p), a, b);
    } else {
        rounding_stays_between(m, rnd, p, x * v, d, zero);
        rounding_stays_between(m, rnd, plus(m, a, p), value(a) + value(p), b, a);
    }
    if v == 0real {
        rounding_keeps_sides(m, rnd, p, x * v, zero);
        rounding_keeps_sides(m, rnd, plus(m, a, p), value(a) + value(p), a);
    }
    if v == 1real {
        rounding_keeps_sides(m, rnd, p, x * v, d);
        rounding_keeps_sides(m, rnd, plus(m, a, p), value(a) + value(p), b);
    }
}

/// Whether sines and cosines are from -1 to 1, the cosine is greatest at 0, and
/// the sine of what is from 0 to 90 degrees is not negative.
pub open spec fn waves<M: Math>(m: &M) -> bool {
    &&& forall|a: Single|
        a.finite() ==> (#[trigger] cos(m, a)).finite() && -1real <= value(cos(m, a)) <= 1real
    &&& forall|a: Single|
        a.finite() ==> (#[trigger] sin(m, a)).finite() && -1real <= value(sin(m, a)) <= 1real
    &&& forall|a: Single| a.finite() && value(a) == 0real ==> value(#[trigger] cos(m, a)) == 1real
    &&& forall|a: Single|
        a.finite() && 0real <= value(a) <= 90real ==> (#[trigger] radians(m, a)).finite() && 0real
            <= value(sin(m, radians(m, a)))
    &&& forall|a: Single|
        a.finite() && 0real <= value(a) <= 360real ==> (#[trigger] radians(m, a)).finite() && 0real
            <= value(radians(m, a)) <= 7real
}

proof fn lemma_sun<M: Math>(m: &M, rnd: spec_fn(real) -> int)
    requires
        rounds(m, rnd),
        waves(m),
    ensures
        counts(Single { bits: 0x439d_8000 }, 315),
        counts(minus(m, Single { bits: 0x42b4_0000 }, Single { bits: 0x4234_0000 }), 45),
        zenith(m).finite(),
        0real <= value(sin(m, zenith(m))) <= 1real,
{
    lemma2_to64();
    digits_bound_the_value(Single { bits: 0x439d_8000 }, 135, 0x9d_8000, 0x8000, 315real, 315real);
    digits_bound_the_value(Single { bits: 0x42b4_0000 }, 133, 0xb4_0000, 131_072, 90real, 90real);
    digits_bound_the_value(Single { bits: 0x4234_0000 }, 132, 0xb4_0000, 262_144, 45real, 45real);
    let (a, b) = (Single { bits: 0x42b4_0000 }, Single { bits: 0x4234_0000 });
    whole_arithmetic_is_exact(m, rnd, a, 90, b, 45);
}

/// How bright a slope is that is turned from the sun by an angle with this cosine.
spec fn lit<M: Math>(m: &M, slope: Single, turned: Single) -> Single {
    let (z, s) = (zenith(m), radians(m, slope));
    plus(m, times(m, cos(m, z), cos(m, s)), times(m, times(m, sin(m, z), sin(m, s)), turned))
}

proof fn lemma_lit<M: Math>(
    m: &M,
    rnd: spec_fn(real) -> int,
    slope: Single,
    turned: Single,
    least: Single,
)
    requires
        rounds(m, rnd),
        waves(m),
        slope.finite() && 0real <= value(slope) <= 90real,
        turned.finite() && least.finite(),
        -1real <= value(least) <= value(turned) <= 1real,
    ensures
        lit(m, slope, least).at_most(lit(m, slope, turned)),
{
    lemma_sun(m, rnd);
    let (z, s) = (zenith(m), radians(m, slope));
    let (lo, zero, hi) = (
        whole_numbers_are_exact(m, rnd, -1),
        whole_numbers_are_exact(m, rnd, 0),
        whole_numbers_are_exact(m, rnd, 1),
    );
    let (a, b, c, d) = (
        value(cos(m, z)),
        value(cos(m, s)),
        value(sin(m, z)),
        value(sin(m, s)),
    );
    assert(-1real <= a * b <= 1real && 0real <= c * d <= 1real) by (nonlinear_arith)
        requires
            -1real <= a <= 1real,
            -1real <= b <= 1real,
            0real <= c <= 1real,
            0real <= d <= 1real,
    ;
    let up = times(m, cos(m, z), cos(m, s));
    rounding_stays_between(m, rnd, up, a * b, lo, hi);
    let side = times(m, sin(m, z), sin(m, s));
    rounding_stays_between(m, rnd, side, c * d, zero, hi);
    let (v, x, y) = (value(side), value(least), value(turned));
    assert(v * x <= v * y && -1real <= v * x <= 1real && -1real <= v * y <= 1real)
        by (nonlinear_arith)
        requires
            0real <= v <= 1real,
            -1real <= x <= y <= 1real,
    ;
    let (p, q) = (times(m, side, least), times(m, side, turned));
    rounding_stays_between(m, rnd, p, v * x, lo, hi);
    rounding_stays_between(m, rnd, q, v * y, lo, hi);
    rounding_keeps_order(m, rnd, p, v * x, q, v * y);
    values_are_in_order(p, q);
    rounding_keeps_order(
        m,
        rnd,
        lit(m, slope, least),
        value(up) + value(p),
        lit(m, slope, turned),
        value(up) + value(q),
    );
}

/// Of slopes that are alike steep, the one that faces the sun in the north-west is
/// the brightest.
pub proof fn slopes_to_the_sun_are_brightest<M: Math>(
    m: &M,
    rnd: spec_fn(real) -> int,
    slope: Single,
    aspect: Single,
    to_the_sun: Single,
)
    requires
        rounds(m, rnd),
        waves(m),
        slope.finite() && 0real <= value(slope) <= 90real,
        aspect.finite() && 0real <= value(aspect) <= 360real,
        counts(to_the_sun, 315),
    ensures
        shade_of(m, slope, aspect).at_most(shade_of(m, slope, to_the_sun)),
{
    lemma_sun(m, rnd);
    zero_is_nothing();
    powers_of_two();
    let azimuth = Single { bits: 0x439d_8000 };
    let (zero, one) = (Single { bits: 0 }, Single { bits: 0x3f80_0000 });
    values_are_in_order(azimuth, to_the_sun);
    values_are_in_order(zero, to_the_sun);
    assert(azimuth == to_the_sun);
    let sun = radians(m, azimuth);
    let a = radians(m, aspect);
    let (lo, hi) = (whole_numbers_are_exact(m, rnd, -7), whole_numbers_are_exact(m, rnd, 7));
    rounding_stays_between(m, rnd, minus(m, sun, a), value(sun) - value(a), lo, hi);
    rounding_keeps_sides(m, rnd, minus(m, sun, sun), value(sun) - value(sun), zero);
    let (x, y) = (cos(m, minus(m, sun, a)), cos(m, minus(m, sun, sun)));
    lemma_lit(m, rnd, slope, y, x);
    let (p, q) = (lit(m, slope, x), lit(m, slope, y));
    assert(p.clamp(zero, one).at_most(q.clamp(zero, one)));
}

} // verus!
