//! Approximate LV95 to WGS84 transforms and back (swisstopo's simplified
//! formulas).
//!
//! Accuracy is on the order of 1 meter, which is plenty for visualizing
//! launches on a public web map.
//!
//! The formulas are polynomials in the distance from Bern. The name of each
//! coefficient ends in the variables that it multiplies.

use crate::math::{
    cube_d, minus_d, over_d, plus_d, square_d, steady, times_d, Math,
};
use crate::scalar::Double;
use vstd::prelude::*;

verus! {

/// 2600000.
pub const BERN_E: u64 = 0x4143_d620_0000_0000;

/// 1200000.
pub const BERN_N: u64 = 0x4132_4f80_0000_0000;

/// 1000000.
pub const MILLION: u64 = 0x412e_8480_0000_0000;

/// 2.6779094.
pub const LON_BERN: u64 = 0x4005_6c5b_c375_3536;

/// 4.728982.
pub const LON_E: u64 = 0x4012_ea7a_41e5_7d9e;

/// 0.791484.
pub const LON_EN: u64 = 0x3fe9_53d6_40e9_d51b;

/// 0.1306.
pub const LON_ENN: u64 = 0x3fc0_b780_346d_c5d6;

/// 0.0436.
pub const LON_EEE: u64 = 0x3fa6_52bd_3c36_1134;

/// 16.9023892.
pub const LAT_BERN: u64 = 0x4030_e702_fa86_437b;

/// 3.238272.
pub const LAT_N: u64 = 0x4009_e7fb_267c_6b8b;

/// 0.270978.
pub const LAT_EE: u64 = 0x3fd1_57b4_1bfb_df09;

/// 0.002528.
pub const LAT_NN: u64 = 0x3f64_b599_aa60_913a;

/// 0.0447.
pub const LAT_EEN: u64 = 0x3fa6_e2eb_1c43_2ca5;

/// 0.014.
pub const LAT_NNN: u64 = 0x3f8c_ac08_3126_e979;

/// 100.
pub const HUNDRED: u64 = 0x4059_0000_0000_0000;

/// 36.
pub const THIRTY_SIX: u64 = 0x4042_0000_0000_0000;

/// 3600.
pub const SECONDS_PER_DEGREE: u64 = 0x40ac_2000_0000_0000;

/// 10000.
pub const TEN_THOUSAND: u64 = 0x40c3_8800_0000_0000;

/// 169028.66.
pub const BERN_LAT_SECONDS: u64 = 0x4104_a225_47ae_147b;

/// 26782.5.
pub const BERN_LON_SECONDS: u64 = 0x40da_27a0_0000_0000;

/// 2600072.37.
pub const E_BERN: u64 = 0x4143_d644_2f5c_28f6;

/// 211455.93.
pub const E_L: u64 = 0x4109_cfff_70a3_d70a;

/// 10938.51.
pub const E_LP: u64 = 0x40c5_5d41_47ae_147b;

/// 0.36.
pub const E_LPP: u64 = 0x3fd7_0a3d_70a3_d70a;

/// 44.54.
pub const E_LLL: u64 = 0x4046_451e_b851_eb85;

/// 1200147.07.
pub const N_BERN: u64 = 0x4132_5013_11eb_851f;

/// 308807.95.
pub const N_P: u64 = 0x4112_d91f_cccc_cccd;

/// 3745.25.
pub const N_LL: u64 = 0x40ad_4280_0000_0000;

/// 76.63.
pub const N_PP: u64 = 0x4053_2851_eb85_1eb8;

/// 194.56.
pub const N_LLP: u64 = 0x4068_51eb_851e_b852;

/// 119.79.
pub const N_PPP: u64 = 0x405d_f28f_5c28_f5c3;

/// Convert LV95 (E, N) in meters to WGS84 (lon, lat) in degrees.
pub open spec fn spec_lv95_to_wgs84<M: Math>(m: &M, e: Double, n: Double) -> (Double, Double) {
    let e_aux = over_d(m, minus_d(m, e, Double { bits: BERN_E }), Double { bits: MILLION });
    let n_aux = over_d(m, minus_d(m, n, Double { bits: BERN_N }), Double { bits: MILLION });
    let lon = plus_d(m, Double { bits: LON_BERN }, times_d(m, Double { bits: LON_E }, e_aux));
    let lon = plus_d(m, lon, times_d(m, times_d(m, Double { bits: LON_EN }, e_aux), n_aux));
    let lon = plus_d(m, lon, times_d(m, times_d(m, Double { bits: LON_ENN }, e_aux), square_d(m, n_aux)));
    let lon = minus_d(m, lon, times_d(m, Double { bits: LON_EEE }, cube_d(m, e_aux)));
    let lat = plus_d(m, Double { bits: LAT_BERN }, times_d(m, Double { bits: LAT_N }, n_aux));
    let lat = minus_d(m, lat, times_d(m, Double { bits: LAT_EE }, square_d(m, e_aux)));
    let lat = minus_d(m, lat, times_d(m, Double { bits: LAT_NN }, square_d(m, n_aux)));
    let lat = minus_d(m, lat, times_d(m, times_d(m, Double { bits: LAT_EEN }, square_d(m, e_aux)), n_aux));
    let lat = minus_d(m, lat, times_d(m, Double { bits: LAT_NNN }, cube_d(m, n_aux)));
    (
        over_d(m, times_d(m, lon, Double { bits: HUNDRED }), Double { bits: THIRTY_SIX }),
        over_d(m, times_d(m, lat, Double { bits: HUNDRED }), Double { bits: THIRTY_SIX }),
    )
}

/// Convert LV95 (E, N) in meters to WGS84 (lon, lat) in degrees.
#[verifier::when_used_as_spec(spec_lv95_to_wgs84)]
pub fn lv95_to_wgs84<M: Math>(m: &M, e: Double, n: Double) -> (r: (Double, Double))
    requires
        steady(m),
    ensures
        r == lv95_to_wgs84(m, e, n),
{
    let e_aux = over_d(m, minus_d(m, e, Double { bits: BERN_E }), Double { bits: MILLION });
    let n_aux = over_d(m, minus_d(m, n, Double { bits: BERN_N }), Double { bits: MILLION });
    let lon = plus_d(m, Double { bits: LON_BERN }, times_d(m, Double { bits: LON_E }, e_aux));
    let lon = plus_d(m, lon, times_d(m, times_d(m, Double { bits: LON_EN }, e_aux), n_aux));
    let lon = plus_d(m, lon, times_d(m, times_d(m, Double { bits: LON_ENN }, e_aux), square_d(m, n_aux)));
    let lon = minus_d(m, lon, times_d(m, Double { bits: LON_EEE }, cube_d(m, e_aux)));
    let lat = plus_d(m, Double { bits: LAT_BERN }, times_d(m, Double { bits: LAT_N }, n_aux));
    let lat = minus_d(m, lat, times_d(m, Double { bits: LAT_EE }, square_d(m, e_aux)));
    let lat = minus_d(m, lat, times_d(m, Double { bits: LAT_NN }, square_d(m, n_aux)));
    let lat = minus_d(m, lat, times_d(m, times_d(m, Double { bits: LAT_EEN }, square_d(m, e_aux)), n_aux));
    let lat = minus_d(m, lat, times_d(m, Double { bits: LAT_NNN }, cube_d(m, n_aux)));
    (
        over_d(m, times_d(m, lon, Double { bits: HUNDRED }), Double { bits: THIRTY_SIX }),
        over_d(m, times_d(m, lat, Double { bits: HUNDRED }), Double { bits: THIRTY_SIX }),
    )
}

/// Convert WGS84 (lon, lat) in degrees to LV95 (E, N) in meters.
pub open spec fn spec_wgs84_to_lv95<M: Math>(m: &M, lon: Double, lat: Double) -> (Double, Double) {
    let phi = over_d(m, minus_d(m, times_d(m, lat, Double { bits: SECONDS_PER_DEGREE }), Double { bits: BERN_LAT_SECONDS }), Double { bits: TEN_THOUSAND });
    let lambda = over_d(m, minus_d(m, times_d(m, lon, Double { bits: SECONDS_PER_DEGREE }), Double { bits: BERN_LON_SECONDS }), Double { bits: TEN_THOUSAND });
    let e = plus_d(m, Double { bits: E_BERN }, times_d(m, Double { bits: E_L }, lambda));
    let e = minus_d(m, e, times_d(m, times_d(m, Double { bits: E_LP }, lambda), phi));
    let e = minus_d(m, e, times_d(m, times_d(m, Double { bits: E_LPP }, lambda), square_d(m, phi)));
    let e = minus_d(m, e, times_d(m, Double { bits: E_LLL }, cube_d(m, lambda)));
    let n = plus_d(m, Double { bits: N_BERN }, times_d(m, Double { bits: N_P }, phi));
    let n = plus_d(m, n, times_d(m, Double { bits: N_LL }, square_d(m, lambda)));
    let n = plus_d(m, n, times_d(m, Double { bits: N_PP }, square_d(m, phi)));
    let n = minus_d(m, n, times_d(m, times_d(m, Double { bits: N_LLP }, square_d(m, lambda)), phi));
    let n = plus_d(m, n, times_d(m, Double { bits: N_PPP }, cube_d(m, phi)));
    (e, n)
}

/// Convert WGS84 (lon, lat) in degrees to LV95 (E, N) in meters.
#[verifier::when_used_as_spec(spec_wgs84_to_lv95)]
pub fn wgs84_to_lv95<M: Math>(m: &M, lon: Double, lat: Double) -> (r: (Double, Double))
    requires
        steady(m),
    ensures
        r == wgs84_to_lv95(m, lon, lat),
{
    let phi = over_d(m, minus_d(m, times_d(m, lat, Double { bits: SECONDS_PER_DEGREE }), Double { bits: BERN_LAT_SECONDS }), Double { bits: TEN_THOUSAND });
    let lambda = over_d(m, minus_d(m, times_d(m, lon, Double { bits: SECONDS_PER_DEGREE }), Double { bits: BERN_LON_SECONDS }), Double { bits: TEN_THOUSAND });
    let e = plus_d(m, Double { bits: E_BERN }, times_d(m, Double { bits: E_L }, lambda));
    let e = minus_d(m, e, times_d(m, times_d(m, Double { bits: E_LP }, lambda), phi));
    let e = minus_d(m, e, times_d(m, times_d(m, Double { bits: E_LPP }, lambda), square_d(m, phi)));
    let e = minus_d(m, e, times_d(m, Double { bits: E_LLL }, cube_d(m, lambda)));
    let n = plus_d(m, Double { bits: N_BERN }, times_d(m, Double { bits: N_P }, phi));
    let n = plus_d(m, n, times_d(m, Double { bits: N_LL }, square_d(m, lambda)));
    let n = plus_d(m, n, times_d(m, Double { bits: N_PP }, square_d(m, phi)));
    let n = minus_d(m, n, times_d(m, times_d(m, Double { bits: N_LLP }, square_d(m, lambda)), phi));
    let n = plus_d(m, n, times_d(m, Double { bits: N_PPP }, cube_d(m, phi)));
    (e, n)
}

} // verus!
