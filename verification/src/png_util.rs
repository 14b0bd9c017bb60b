//! Encode flood results as a translucent red mask PNG, for Leaflet
//! ImageOverlay. Reached cells are filled with a red-to-orange gradient based on
//! AGL clearance. Unreached cells are fully transparent. The frontend pairs
//! this with `image-rendering: pixelated` so cells appear as discrete chunks.

use crate::dem::Dem;
use crate::exact::{
    counts, digits_bound_the_value, picks_are_exact, powers_of_two, rounding_keeps_sides,
    rounding_stays_between, rounds, truncates, value, values_are_in_order,
    whole_arithmetic_is_exact, whole_numbers_are_exact, zero_is_nothing,
};
use crate::glide::FloodResult;
use crate::math::{minus, over, plus, steady, times, to_int, to_u8, Math};
use crate::scalar::{Single, ONE};
use vstd::arithmetic::power2::lemma2_to64;
use vstd::prelude::*;

verus! {

/// 255.
pub const BRIGHTEST: u32 = 0x437f_0000;

/// 215.
pub const MASK_RED: u32 = 0x4357_0000;

/// 130.
pub const MASK_GREEN: u32 = 0x4302_0000;

/// 60.
pub const MASK_BLUE: u32 = 0x4270_0000;

/// 110.
pub const MASK_ALPHA: u32 = 0x42dc_0000;

/// 30.
pub const MASK_WARM: u32 = 0x41f0_0000;

/// 90.
pub const MASK_DEEP: u32 = 0x42b4_0000;

/// The bytes of some pixels, one pixel after the other.
pub open spec fn spread(pixels: Seq<[u8; 4]>) -> Seq<u8>
    decreases pixels.len(),
{
    if pixels.len() == 0 {
        Seq::empty()
    } else {
        let p = pixels.last();
        spread(pixels.drop_last()).push(p[0]).push(p[1]).push(p[2]).push(p[3])
    }
}

pub proof fn lemma_spread_len(pixels: Seq<[u8; 4]>)
    ensures
        spread(pixels).len() == 4 * pixels.len(),
    decreases pixels.len(),
{
    if pixels.len() > 0 {
        lemma_spread_len(pixels.drop_last());
    }
}

/// Adds a pixel to the bytes of those before it.
pub(crate) fn put_pixel(out: &mut Vec<u8>, p: [u8; 4], Ghost(before): Ghost<Seq<[u8; 4]>>)
    requires
        old(out)@ == spread(before),
    ensures
        final(out)@ == spread(before.push(p)),
{
    out.push(p[0]);
    out.push(p[1]);
    out.push(p[2]);
    out.push(p[3]);
    assert(before.push(p).drop_last() =~= before);
}

/// The PNG file of an RGBA image, or what is wrong with the image.
pub uninterp spec fn png_of(width: u32, height: u32, pixels: Seq<u8>) -> Result<Seq<u8>, Seq<char>>;

/// `image::DynamicImage::write_to` with `image::ImageFormat::Png`, on the image
/// that `image::RgbaImage::from_raw` makes of the pixels: the file, or the error
/// in words. Both depend on the image alone.
#[verifier::external_body]
pub(crate) fn encode_png(width: u32, height: u32, pixels: Vec<u8>) -> (r: Result<Vec<u8>, String>)
    requires
        pixels@.len() == 4 * (width * height),
    ensures
        png_of(width, height, pixels@) == match r {
            Ok(v) => Ok(v@),
            Err(e) => Err(e@),
        },
{
    let img = image::RgbaImage::from_raw(width, height, pixels).unwrap();
    let mut buf = Vec::new();
    let written = image::DynamicImage::ImageRgba8(img).write_to(
        &mut std::io::Cursor::new(&mut buf),
        image::ImageFormat::Png,
    );
    written.map(|_| buf).map_err(|e| e.to_string())
}

/// A color value as a byte.
pub open spec fn spec_channel<M: Math>(m: &M, v: Single) -> u8 {
    to_u8(to_int(m, v.clamp(Single { bits: 0 }, Single { bits: BRIGHTEST })))
}

/// A color value as a byte.
#[verifier::when_used_as_spec(spec_channel)]
pub fn channel<M: Math>(m: &M, v: Single) -> (r: u8)
    requires
        steady(m),
    ensures
        r == channel(m, v),
{
    to_u8(to_int(m, v.clamp(Single { bits: 0 }, Single { bits: BRIGHTEST })))
}

/// The greatest clearance above the terrain among the first `n` cells that are
/// reached, and at least 0.
pub open spec fn top_clearance<M: Math>(m: &M, dem: &Dem, alts: Seq<Single>, n: int) -> Single
    decreases n,
{
    if n <= 0 {
        Single { bits: 0 }
    } else {
        let before = top_clearance(m, dem, alts, n - 1);
        let agl = minus(m, alts[n - 1], dem.data@[n - 1]);
        if alts[n - 1].finite() && dem.data@[n - 1].finite() && before.below(agl) {
            agl
        } else {
            before
        }
    }
}

/// Pixel of a cell of the mask: the more clearance of the most there is, the
/// deeper the red; nothing where the cell is not reached.
pub open spec fn mask_pixel<M: Math>(m: &M, dem: &Dem, alts: Seq<Single>, most: Single, i: int) -> [u8;
    4] {
    let zero = Single { bits: 0 };
    if alts[i].finite() && dem.data@[i].finite() {
        let agl = minus(m, alts[i], dem.data@[i]).max(zero);
        let t = over(m, agl, most).clamp(zero, Single { bits: ONE });
        [
            channel(m, plus(m, Single { bits: MASK_RED }, times(m, Single { bits: MASK_WARM }, t))),
            channel(m, minus(m, Single { bits: MASK_GREEN }, times(m, Single { bits: MASK_DEEP }, t))),
            channel(m, minus(m, Single { bits: MASK_BLUE }, times(m, Single { bits: MASK_WARM }, t))),
            channel(m, plus(m, Single { bits: MASK_ALPHA }, times(m, Single { bits: MASK_DEEP }, t))),
        ]
    } else {
        [0, 0, 0, 0]
    }
}

/// The pixels of the mask.
pub open spec fn mask_pixels<M: Math>(m: &M, dem: &Dem, alts: Seq<Single>) -> Seq<[u8; 4]> {
    let most = top_clearance(m, dem, alts, dem.data@.len() as int).max(Single { bits: ONE });
    Seq::new(dem.data@.len(), |i: int| mask_pixel(m, dem, alts, most, i))
}

/// The bytes of the mask's pixels.
pub fn mask_bytes<M: Math>(m: &M, dem: &Dem, flood: &FloodResult) -> (r: Vec<u8>)
    requires
        steady(m),
        dem.wf(),
        flood.max_alt_msl@.len() == dem.data@.len(),
    ensures
        r@ == spread(mask_pixels(m, dem, flood.max_alt_msl@)),
{
    let n: usize = dem.data.len();
    let ghost alts = flood.max_alt_msl@;
    let mut top = Single::zero();
    let mut i: usize = 0;
    while i < n
        invariant
            steady(m),
            n == dem.data@.len(),
            alts == flood.max_alt_msl@,
            alts.len() == n,
            i <= n,
            top == top_clearance(m, dem, alts, i as int),
        decreases n - i,
    {
        let alt = flood.max_alt_msl[i];
        let terrain = dem.data[i];
        if alt.is_finite() && terrain.is_finite() {
            let agl = minus(m, alt, terrain);
            if top.lt(&agl) {
                top = agl;
            }
        }
        i = i + 1;
    }
    let one = Single { bits: ONE };
    let zero = Single::zero();
    let most = top.max(one);
    let ghost pixels = mask_pixels(m, dem, alts);
    let mut out: Vec<u8> = Vec::new();
    let mut k: usize = 0;
    assert(pixels.take(0) =~= Seq::empty());
    while k < n
        invariant
            steady(m),
            n == dem.data@.len(),
            alts == flood.max_alt_msl@,
            alts.len() == n,
            zero.bits == 0,
            one.bits == ONE,
            most == top_clearance(m, dem, alts, n as int).max(one),
            pixels == mask_pixels(m, dem, alts),
            k <= n,
            out@ == spread(pixels.take(k as int)),
        decreases n - k,
    {
        let alt = flood.max_alt_msl[k];
        let terrain = dem.data[k];
        let pixel: [u8; 4] = if alt.is_finite() && terrain.is_finite() {
            let agl = minus(m, alt, terrain).max(zero);
            let t = over(m, agl, most).clamp(zero, one);
            // Red to orange ramp. High AGL = saturated red. Low AGL =
            // pinkish-orange (just barely reachable).
            let warm = times(m, Single { bits: MASK_WARM }, t);
            let deep = times(m, Single { bits: MASK_DEEP }, t);
            [
                channel(m, plus(m, Single { bits: MASK_RED }, warm)),
                channel(m, minus(m, Single { bits: MASK_GREEN }, deep)),
                channel(m, minus(m, Single { bits: MASK_BLUE }, warm)),
                channel(m, plus(m, Single { bits: MASK_ALPHA }, deep)),
            ]
        } else {
            [0, 0, 0, 0]
        };
        assert(pixel == pixels[k as int]);
        put_pixel(&mut out, pixel, Ghost(pixels.take(k as int)));
        assert(pixels.take(k as int).push(pixel) =~= pixels.take(k + 1));
        k = k + 1;
    }
    assert(pixels.take(n as int) =~= pixels);
    out
}

/// The mask of a flood as a PNG file, or what is wrong with the image.
pub fn reachability_mask_png<M: Math>(m: &M, dem: &Dem, flood: &FloodResult) -> (r: Result<
    Vec<u8>,
    String,
>)
    requires
        steady(m),
        dem.wf(),
        flood.max_alt_msl@.len() == dem.data@.len(),
    ensures
        png_of(dem.cols, dem.rows, spread(mask_pixels(m, dem, flood.max_alt_msl@))) == match r {
            Ok(v) => Ok(v@),
            Err(e) => Err(e@),
        },
{
    let bytes = mask_bytes(m, dem, flood);
    proof {
        lemma_spread_len(mask_pixels(m, dem, flood.max_alt_msl@));
        assert(dem.cols * dem.rows == dem.rows * dem.cols) by (nonlinear_arith);
    }
    encode_png(dem.cols, dem.rows, bytes)
}

/// The greatest clearance is no less than that of any cell that is reached.
pub proof fn no_cell_has_more_clearance<M: Math>(
    m: &M,
    dem: &Dem,
    alts: Seq<Single>,
    n: int,
    i: int,
)
    requires
        0 <= i < n,
        alts[i].finite() && dem.data@[i].finite(),
        forall|j: int|
            0 <= j < n && alts[j].finite() ==> !minus(m, #[trigger] alts[j], dem.data@[j]).nan(),
    ensures
        minus(m, alts[i], dem.data@[i]).at_most(top_clearance(m, dem, alts, n)),
    decreases n,
{
    lemma_top(m, dem, alts, n - 1);
    if i < n - 1 {
        no_cell_has_more_clearance(m, dem, alts, n - 1, i);
    }
}

/// The greatest clearance is that of a cell that is reached, or 0.
pub proof fn some_cell_has_the_clearance<M: Math>(m: &M, dem: &Dem, alts: Seq<Single>, n: int) -> (i:
    int)
    requires
        0 <= n,
        top_clearance(m, dem, alts, n) != (Single { bits: 0 }),
    ensures
        0 <= i < n,
        alts[i].finite() && dem.data@[i].finite(),
        top_clearance(m, dem, alts, n) == minus(m, alts[i], dem.data@[i]),
    decreases n,
{
    if top_clearance(m, dem, alts, n) != top_clearance(m, dem, alts, n - 1) {
        n - 1
    } else {
        let i = some_cell_has_the_clearance(m, dem, alts, n - 1);
        i
    }
}

proof fn lemma_top<M: Math>(m: &M, dem: &Dem, alts: Seq<Single>, n: int)
    ensures
        !top_clearance(m, dem, alts, n).nan(),
        0 <= top_clearance(m, dem, alts, n).rank(),
    decreases n,
{
    if n > 0 {
        lemma_top(m, dem, alts, n - 1);
    }
}

/// The numbers that the colors of the mask are made of.
proof fn lemma_mask_numbers()
    ensures
        counts(Single { bits: 0x437f_0000 }, 255),
        counts(Single { bits: 0x4357_0000 }, 215),
        counts(Single { bits: 0x4302_0000 }, 130),
        counts(Single { bits: 0x4270_0000 }, 60),
        counts(Single { bits: 0x42dc_0000 }, 110),
        counts(Single { bits: 0x41f0_0000 }, 30),
        counts(Single { bits: 0x42b4_0000 }, 90),
{
    lemma2_to64();
    digits_bound_the_value(Single { bits: 0x437f_0000 }, 134, 0xff_0000, 65_536, 255real, 255real);
    digits_bound_the_value(Single { bits: 0x4357_0000 }, 134, 0xd7_0000, 65_536, 215real, 215real);
    digits_bound_the_value(Single { bits: 0x4302_0000 }, 134, 0x82_0000, 65_536, 130real, 130real);
    digits_bound_the_value(Single { bits: 0x4270_0000 }, 132, 0xf0_0000, 262_144, 60real, 60real);
    digits_bound_the_value(Single { bits: 0x42dc_0000 }, 133, 0xdc_0000, 131_072, 110real, 110real);
    digits_bound_the_value(Single { bits: 0x41f0_0000 }, 131, 0xf0_0000, 524_288, 30real, 30real);
    digits_bound_the_value(Single { bits: 0x42b4_0000 }, 133, 0xb4_0000, 131_072, 90real, 90real);
}

/// A color value is its whole part, where it is from 0 to 255.
pub proof fn channels_are_whole_parts<M: Math>(m: &M, v: Single, k: int)
    requires
        truncates(m),
        v.finite(),
        0 <= k <= 255,
        k as real <= value(v) < k as real + 1real || k == 0 && value(v) <= 0real || k == 255
            && 255real <= value(v),
    ensures
        channel(m, v) == k,
{
    lemma_mask_numbers();
    zero_is_nothing();
    let (zero, top) = (Single { bits: 0 }, Single { bits: 0x437f_0000 });
    values_are_in_order(v, zero);
    values_are_in_order(top, v);
    let c = v.clamp(zero, top);
    assert(c.finite());
    let i = to_int(m, c);
    assert(i == k);
}

/// Whole part of a number of parts of a color, from `base`, up or down.
proof fn lemma_blend<M: Math>(
    m: &M,
    rnd: spec_fn(real) -> int,
    base: Single,
    b: int,
    by: Single,
    k: int,
    t: Single,
)
    requires
        rounds(m, rnd),
        counts(base, b) && counts(by, k),
        0 <= b <= 255,
        0 <= k <= 255,
        t.finite() && 0real <= value(t) <= 1real,
    ensures
        times(m, by, t).finite(),
        0real <= value(times(m, by, t)) <= k as real,
        value(t) == 0real ==> counts(plus(m, base, times(m, by, t)), b) && counts(
            minus(m, base, times(m, by, t)),
            b,
        ),
        value(t) == 1real ==> counts(plus(m, base, times(m, by, t)), b + k) && counts(
            minus(m, base, times(m, by, t)),
            b - k,
        ),
{
    let (zero, top) = (whole_numbers_are_exact(m, rnd, 0), by);
    let (x, v) = (k as real, value(t));
    assert(0real <= x * v <= x && (v == 0real ==> x * v == 0real) && (v == 1real ==> x * v == x))
        by (nonlinear_arith)
        requires
            0real <= x,
            0real <= v <= 1real,
    ;
    rounding_stays_between(m, rnd, times(m, by, t), x * v, zero, top);
    if v == 0real {
        rounding_keeps_sides(m, rnd, times(m, by, t), x * v, zero);
        whole_arithmetic_is_exact(m, rnd, base, b, times(m, by, t), 0);
    }
    if v == 1real {
        rounding_keeps_sides(m, rnd, times(m, by, t), x * v, by);
        whole_arithmetic_is_exact(m, rnd, base, b, times(m, by, t), k);
    }
}

/// Cells that are not reached are transparent; cells at the ground are orange, and
/// those with the most clearance red and less transparent.
pub proof fn masks_go_from_orange_to_red<M: Math>(
    m: &M,
    rnd: spec_fn(real) -> int,
    dem: &Dem,
    alts: Seq<Single>,
    most: Single,
    i: int,
    clearance: Single,
)
    requires
        rounds(m, rnd),
        truncates(m),
        most.finite() && 0real < value(most),
        clearance.finite(),
        alts[i].finite() && dem.data@[i].finite() ==> value(alts[i]) - value(dem.data@[i]) == value(
            clearance,
        ),
    ensures
        !alts[i].finite() || !dem.data@[i].finite() ==> mask_pixel(m, dem, alts, most, i) == [
            0u8,
            0u8,
            0u8,
            0u8,
        ],
        alts[i].finite() && dem.data@[i].finite() && value(clearance) <= 0real ==> mask_pixel(
            m,
            dem,
            alts,
            most,
            i,
        ) == [215u8, 130u8, 60u8, 110u8],
        alts[i].finite() && dem.data@[i].finite() && value(clearance) == value(most) ==> mask_pixel(
            m,
            dem,
            alts,
            most,
            i,
        ) == [245u8, 40u8, 30u8, 200u8],
{
    if alts[i].finite() && dem.data@[i].finite() && (value(clearance) <= 0real || value(clearance)
        == value(most)) {
        lemma_mask_numbers();
        zero_is_nothing();
        powers_of_two();
        let (zero, one) = (Single { bits: 0 }, Single { bits: 0x3f80_0000 });
        let d = minus(m, alts[i], dem.data@[i]);
        rounding_keeps_sides(m, rnd, d, value(clearance), clearance);
        picks_are_exact(d, zero);
        let agl = d.max(zero);
        let q = over(m, agl, most);
        let (a, b) = (value(agl), value(most));
        assert((a == 0real ==> a / b == 0real) && (a == b ==> a / b == 1real)) by (nonlinear_arith)
            requires
                0real < b,
        ;
        if value(clearance) <= 0real {
            rounding_keeps_sides(m, rnd, q, 0real, zero);
        } else {
            rounding_keeps_sides(m, rnd, q, 1real, one);
        }
        values_are_in_order(q, zero);
        values_are_in_order(one, q);
        let t = q.clamp(zero, one);
        assert(t.finite() && value(t) == value(q));
        let (red, green, blue, alpha) = (
            Single { bits: 0x4357_0000 },
            Single { bits: 0x4302_0000 },
            Single { bits: 0x4270_0000 },
            Single { bits: 0x42dc_0000 },
        );
        let (warm, deep) = (Single { bits: 0x41f0_0000 }, Single { bits: 0x42b4_0000 });
        lemma_blend(m, rnd, red, 215, warm, 30, t);
        lemma_blend(m, rnd, green, 130, deep, 90, t);
        lemma_blend(m, rnd, blue, 60, warm, 30, t);
        lemma_blend(m, rnd, alpha, 110, deep, 90, t);
        let (r, g, b, a) = if value(t) == 0real {
            (215int, 130int, 60int, 110int)
        } else {
            (245int, 40int, 30int, 200int)
        };
        channels_are_whole_parts(m, plus(m, red, times(m, warm, t)), r);
        channels_are_whole_parts(m, minus(m, green, times(m, deep, t)), g);
        channels_are_whole_parts(m, minus(m, blue, times(m, warm, t)), b);
        channels_are_whole_parts(m, plus(m, alpha, times(m, deep, t)), a);
        assert(mask_pixel(m, dem, alts, most, i) =~= [r as u8, g as u8, b as u8, a as u8]);
    }
}

} // verus!
