//! A made-up mountain, for use without data.

use crate::dem::Dem;
use crate::geom::{HALF, LV95};
use crate::math::{exp, minus, over, plus, single, steady, times, Math};
use crate::queries::TWO;
use crate::scalar::{Double, Single};
use vstd::prelude::*;

verus! {

/// 25: meters per cell.
pub const CELL_M: u32 = 0x41c8_0000;

/// 800: altitude of the valley.
pub const VALLEY_ALT: u32 = 0x4448_0000;

/// 2400: altitude of the peak.
pub const PEAK_ALT: u32 = 0x4516_0000;

/// 35: spread of the peak, in cells.
pub const SPREAD: u32 = 0x420c_0000;

/// 2600000.
pub const ORIGIN_E: u64 = 0x4143_d620_0000_0000;

/// 1200000.
pub const ORIGIN_N: u64 = 0x4132_4f80_0000_0000;

/// Rows and columns of the raster.
pub const SIDE: u32 = 161;

/// Altitude of a cell: a Gaussian peak in the middle, on a plane that falls
/// gently to the south.
pub open spec fn spec_synthetic_alt<M: Math>(m: &M, row: u32, col: u32) -> Single {
    let two = Single { bits: TWO };
    let mid = over(m, single(m, SIDE as i128), two);
    let dr = minus(m, single(m, row as i128), mid);
    let dc = minus(m, single(m, col as i128), mid);
    let d2 = plus(m, times(m, dr, dr), times(m, dc, dc));
    let sigma = Single { bits: SPREAD };
    let valley = Single { bits: VALLEY_ALT };
    let bump = times(
        m,
        minus(m, Single { bits: PEAK_ALT }, valley),
        exp(m, over(m, d2.neg(), times(m, times(m, two, sigma), sigma))),
    );
    let tilt = times(m, dr.neg(), Single { bits: HALF });
    plus(m, plus(m, valley, bump), tilt)
}

/// Altitude of a cell.
#[verifier::when_used_as_spec(spec_synthetic_alt)]
pub fn synthetic_alt<M: Math>(m: &M, row: u32, col: u32) -> (r: Single)
    requires
        steady(m),
    ensures
        r == synthetic_alt(m, row, col),
{
    let two = Single { bits: TWO };
    let mid = over(m, single(m, SIDE as i128), two);
    let dr = minus(m, single(m, row as i128), mid);
    let dc = minus(m, single(m, col as i128), mid);
    let d2 = plus(m, times(m, dr, dr), times(m, dc, dc));
    let sigma = Single { bits: SPREAD };
    let valley = Single { bits: VALLEY_ALT };
    let bump = times(
        m,
        minus(m, Single { bits: PEAK_ALT }, valley),
        exp(m, over(m, d2.neg(), times(m, times(m, two, sigma), sigma))),
    );
    // A subtle south-facing tilt so the south flank is slightly steeper.
    let tilt = times(m, dr.neg(), Single { bits: HALF });
    plus(m, plus(m, valley, bump), tilt)
}

/// The made-up mountain: 161 x 161 cells at 25 m, a map of 4 km square.
pub fn synthetic_alps_dem<M: Math>(m: &M) -> (r: Dem)
    requires
        steady(m),
    ensures
        r.wf(),
        r.rows == SIDE,
        r.cols == SIDE,
        r.cell_size_m.bits == CELL_M,
        r.origin.e.bits == ORIGIN_E,
        r.origin.n.bits == ORIGIN_N,
        forall|row: u32, col: u32|
            row < SIDE && col < SIDE ==> r.at(row as int, col as int) == #[trigger] synthetic_alt(
                m,
                row,
                col,
            ),
{
    let altitude = |row: u32, col: u32| -> (z: Single)
        requires
            steady(m),
        ensures
            z == synthetic_alt(m, row, col),
        { synthetic_alt(m, row, col) };
    let dem = Dem::from_fn(
        SIDE,
        SIDE,
        Single { bits: CELL_M },
        LV95::new(Double { bits: ORIGIN_E }, Double { bits: ORIGIN_N }),
        altitude,
    );
    assert forall|row: u32, col: u32| row < SIDE && col < SIDE implies dem.at(
        row as int,
        col as int,
    ) == #[trigger] synthetic_alt(m, row, col) by {
        assert(altitude.ensures((row, col), dem.at(row as int, col as int)));
    }
    dem
}

} // verus!
