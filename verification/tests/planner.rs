//! Terrain, glides, hikes, launches and scores.

use hikefly::dem::Dem;
use hikefly::discovery::{discover, DiscoveryParams};
use hikefly::geom::{angle_diff_deg, angle_in_arc, norm_deg, CellIdx, LV95};
use hikefly::glide::{flood, flood_summary, GlideParams};
use hikefly::hike::{hike_field, tobler_speed_kmh, HikeParams, SacClass};
use hikefly::launch::{Launch, LaunchKind};
use hikefly::lv95::{lv95_to_wgs84, wgs84_to_lv95};
use hikefly::math::{Binary, BinaryD, Math, Unary, UnaryD};
use hikefly::scalar::{Double, Single};
use hikefly::score::{
    pareto_frontier, score_launch, wind_factor, GlideMetric, GlideStats, Scored, ScoringParams,
};
use hikefly::terrain::{roughness, slope_aspect};
use hikefly::wind::Wind;

/// The machine's own arithmetic.
struct Native;

fn s(x: f32) -> Single {
    Single { bits: x.to_bits() }
}

fn f(x: Single) -> f32 {
    f32::from_bits(x.bits)
}

fn d(x: f64) -> Double {
    Double { bits: x.to_bits() }
}

fn g(x: Double) -> f64 {
    f64::from_bits(x.bits)
}

impl Math for Native {
    fn unary(&self, op: Unary, a: Single) -> Single {
        let x = f(a);
        s(match op {
            Unary::Sqrt => x.sqrt(),
            Unary::Square => x.powi(2),
            Unary::Atan => x.atan(),
            Unary::Cos => x.cos(),
            Unary::Sin => x.sin(),
            Unary::Exp => x.exp(),
            Unary::Floor => x.floor(),
            Unary::Round => x.round(),
            Unary::Ceil => x.ceil(),
            Unary::ToRadians => x.to_radians(),
            Unary::ToDegrees => x.to_degrees(),
        })
    }

    fn binary(&self, op: Binary, a: Single, b: Single) -> Single {
        let (x, y) = (f(a), f(b));
        s(match op {
            Binary::Add => x + y,
            Binary::Sub => x - y,
            Binary::Mul => x * y,
            Binary::Div => x / y,
            Binary::Rem => x % y,
            Binary::RemEuclid => x.rem_euclid(y),
            Binary::Atan2 => x.atan2(y),
            Binary::Powf => x.powf(y),
        })
    }

    fn unary_d(&self, op: UnaryD, a: Double) -> Double {
        let x = g(a);
        d(match op {
            UnaryD::Sqrt => x.sqrt(),
            UnaryD::Square => x.powi(2),
            UnaryD::Cube => x.powi(3),
            UnaryD::Floor => x.floor(),
            UnaryD::Round => x.round(),
            UnaryD::Ceil => x.ceil(),
        })
    }

    fn binary_d(&self, op: BinaryD, a: Double, b: Double) -> Double {
        let (x, y) = (g(a), g(b));
        d(match op {
            BinaryD::Add => x + y,
            BinaryD::Sub => x - y,
            BinaryD::Mul => x * y,
            BinaryD::Div => x / y,
        })
    }

    fn single_from_int(&self, i: i128) -> Single {
        s(i as f32)
    }

    fn double_from_int(&self, i: i128) -> Double {
        d(i as f64)
    }

    fn single_to_int(&self, a: Single) -> i128 {
        f(a) as i128
    }

    fn double_to_int(&self, a: Double) -> i128 {
        g(a) as i128
    }

    fn widen(&self, a: Single) -> Double {
        d(f(a) as f64)
    }

    fn narrow(&self, a: Double) -> Single {
        s(g(a) as f32)
    }

    fn parse_single(&self, text: &str) -> Option<Single> {
        text.parse::<f32>().ok().map(s)
    }

    fn parse_double(&self, text: &str) -> Option<Double> {
        text.parse::<f64>().ok().map(d)
    }

    fn show_double(&self, a: Double) -> String {
        format!("{}", g(a))
    }

    fn show_whole(&self, a: Double) -> String {
        format!("{:.0}", g(a))
    }
}

const M: Native = Native;

fn grid(rows: u32, cols: u32, cell: f32, alt: impl Fn(u32, u32) -> f32) -> Dem {
    Dem::from_fn(rows, cols, s(cell), LV95::new(d(0.0), d(0.0)), |r: u32, c: u32| s(alt(r, c)))
}

fn flat_low_dem(rows: u32, cols: u32) -> Dem {
    grid(rows, cols, 25.0, |_, _| 0.0)
}

fn synthetic_launch(row: u32, col: u32, alt: f32) -> Launch {
    Launch {
        id: 1,
        cell: CellIdx::new(row, col),
        altitude_m: s(alt),
        aspect_deg: s(180.0),
        aspect_window_deg: (s(135.0), s(225.0)),
        slope_deg: s(30.0),
        kind: LaunchKind::AutoDiscovered,
        warnings: vec![],
    }
}

fn bare_glide(glide_ratio: f32, safety_buffer_m: f32, wind: Option<Wind>) -> GlideParams {
    GlideParams {
        glide_ratio: s(glide_ratio),
        safety_buffer_m: s(safety_buffer_m),
        takeoff_initial_agl_m: s(0.0),
        wind,
        ..Default::default()
    }
}

#[test]
fn norm_deg_handles_negative() {
    assert!((f(norm_deg(&M, s(-10.0))) - 350.0).abs() < 1e-4);
    assert!((f(norm_deg(&M, s(370.0))) - 10.0).abs() < 1e-4);
}

#[test]
fn angle_diff_is_signed_and_short() {
    assert!((f(angle_diff_deg(&M, s(10.0), s(350.0))) - 20.0).abs() < 1e-4);
    assert!((f(angle_diff_deg(&M, s(350.0), s(10.0))) + 20.0).abs() < 1e-4);
}

#[test]
fn angle_in_arc_basic() {
    assert!(angle_in_arc(&M, s(180.0), s(135.0), s(225.0), s(0.0)));
    assert!(!angle_in_arc(&M, s(0.0), s(135.0), s(225.0), s(0.0)));
    assert!(angle_in_arc(&M, s(120.0), s(135.0), s(225.0), s(30.0)));
}

#[test]
fn niederhorn_roundtrip() {
    // Niederhorn summit, approx LV95 (2627770, 1174610).
    // swisstopo's transform tool gives WGS84 (7.797, 46.722).
    let (e, n) = (2_627_770.0, 1_174_610.0);
    let (lon, lat) = lv95_to_wgs84(&M, d(e), d(n));
    assert!((g(lon) - 7.797).abs() < 0.01, "lon={}", g(lon));
    assert!((g(lat) - 46.722).abs() < 0.01, "lat={}", g(lat));

    let (e2, n2) = wgs84_to_lv95(&M, lon, lat);
    assert!((g(e2) - e).abs() < 2.0, "e roundtrip {} -> {}", e, g(e2));
    assert!((g(n2) - n).abs() < 2.0, "n roundtrip {} -> {}", n, g(n2));
}

#[test]
fn flat_terrain_reach_matches_glide_cone() {
    // From altitude H over flat ground at altitude 0 with glide ratio GR,
    // the reachable radius is approximately H * GR (minus the safety buffer).
    let dem = flat_low_dem(81, 81);
    let launch = synthetic_launch(40, 40, 1000.0);
    let res = flood(&M, &dem, &launch, &bare_glide(8.0, 0.0, None));
    // Ideal radius: 1000m * 8 / cell_size = 320 cells.
    // Bounded by grid (40 cells from center). With 8-connected discrete
    // approximation this should reach the entire 81x81 grid.
    assert_eq!(res.reachable_cells, 81 * 81 - 1);
    // Furthest point: corner. Cell distance ~ 40*sqrt(2) cells ~ 56.6 cells * 25m = ~1414 m.
    assert!(f(res.max_distance_m) > 1400.0, "got {}", f(res.max_distance_m));
}

#[test]
fn cliff_blocks_reachability() {
    // Build a DEM with a wall to the east of the launch.
    let dem = grid(21, 21, 25.0, |_, c| if c >= 12 { 800.0 } else { 0.0 });
    let launch = synthetic_launch(10, 5, 500.0);
    let res = flood(&M, &dem, &launch, &bare_glide(8.0, 30.0, None));

    // Cells just west of launch should be reachable.
    let west = dem.idx(10, 0);
    assert!(res.max_alt_msl[west].is_finite(), "expected west reachable");
    // Cell on top of the wall well east should NOT be reachable (terrain too high vs altitude lost).
    let east = dem.idx(10, 18);
    assert!(
        res.max_alt_msl[east].is_nan(),
        "east cell unexpectedly reachable: alt={}",
        f(res.max_alt_msl[east])
    );
}

#[test]
fn tailwind_extends_reach_downwind() {
    let dem = flat_low_dem(81, 81);
    let launch = synthetic_launch(40, 40, 100.0);
    let r_still = flood(&M, &dem, &launch, &bare_glide(8.0, 0.0, None));

    // Wind FROM south at 18 km/h (5 m/s) pushes glides toward NORTH.
    let with_wind = bare_glide(8.0, 0.0, Some(Wind::new(s(180.0), s(18.0))));
    let r_wind = flood(&M, &dem, &launch, &with_wind);

    assert!(
        f(r_wind.max_distance_m) > f(r_still.max_distance_m),
        "tailwind reach {} should exceed still-air {}",
        f(r_wind.max_distance_m),
        f(r_still.max_distance_m)
    );
    // Farthest cell with a south wind should be north of launch (lower row).
    let far = r_wind.farthest_cell.expect("reached something");
    assert!(far.row < launch.cell.row, "farthest should be north of launch, got {:?}", far);
}

#[test]
fn headwind_stronger_than_airspeed_blocks_direction() {
    // 50 km/h (~14 m/s) wind, airspeed 10 m/s -> can't make headway upwind.
    let dem = flat_low_dem(81, 81);
    let launch = synthetic_launch(40, 40, 100.0);
    // wind FROM north
    let p = bare_glide(8.0, 0.0, Some(Wind::new(s(0.0), s(50.0))));
    let r = flood(&M, &dem, &launch, &p);

    // Cells directly north of launch (into the wind) should be unreachable.
    let north_idx = dem.idx(launch.cell.row - 5, launch.cell.col);
    assert!(
        r.max_alt_msl[north_idx].is_nan(),
        "north-of-launch cell unexpectedly reachable into 50 km/h headwind"
    );
    // South cells (downwind) should be reachable.
    let south_idx = dem.idx(launch.cell.row + 5, launch.cell.col);
    assert!(
        r.max_alt_msl[south_idx].is_finite(),
        "south-of-launch cell unreachable downwind"
    );
}

#[test]
fn higher_glide_ratio_reaches_further() {
    // 101x101 grid at 25m -> ~50 cells radius from center.
    // alt=100, GR=5 -> 500m reach = 20 cells; GR=10 -> 1000m = 40 cells. Both fit.
    let dem = flat_low_dem(101, 101);
    let launch = synthetic_launch(50, 50, 100.0);
    let mut p = bare_glide(5.0, 0.0, None);
    let r1 = flood(&M, &dem, &launch, &p);
    p.glide_ratio = s(10.0);
    let r2 = flood(&M, &dem, &launch, &p);
    assert!(r2.reachable_cells > r1.reachable_cells);
    assert!(f(r2.max_distance_m) > f(r1.max_distance_m));
}

#[test]
fn tobler_peak_is_at_5_percent_downhill() {
    let down = f(tobler_speed_kmh(&M, s(-0.05)));
    let flat = f(tobler_speed_kmh(&M, s(0.0)));
    let up = f(tobler_speed_kmh(&M, s(0.10)));
    assert!(down > flat && down > up);
    assert!((down - 6.0).abs() < 1e-3);
}

#[test]
fn flat_grid_hike_field_grows_with_distance() {
    let dem = grid(21, 21, 25.0, |_, _| 1000.0);
    let field = hike_field(&M, &dem, &[(CellIdx::new(10, 10), s(0.0))], &HikeParams::default());
    let near = f(field.seconds[dem.idx(10, 11)]);
    let far = f(field.seconds[dem.idx(10, 20)]);
    assert!(near.is_finite() && far.is_finite());
    assert!(far > near);
}

#[test]
fn climb_is_slower_than_descent() {
    let ramp = grid(21, 21, 25.0, |r, _| 1000.0 + (20 - r as i32) as f32 * 25.0);
    let field = hike_field(&M, &ramp, &[(CellIdx::new(20, 10), s(0.0))], &HikeParams::default());
    let climb_cost = f(field.seconds[ramp.idx(0, 10)]);

    let flat = grid(21, 21, 25.0, |_, _| 1000.0);
    let field2 = hike_field(&M, &flat, &[(CellIdx::new(20, 10), s(0.0))], &HikeParams::default());
    let flat_cost = f(field2.seconds[flat.idx(0, 10)]);

    assert!(climb_cost > flat_cost * 1.5, "climb={}, flat={}", climb_cost, flat_cost);
}

#[test]
fn seeded_initial_cost_propagates() {
    // Two seeds: one with 0s, one with 1000s. The expensive seed's
    // territory is smaller because the cheap seed's frontier reaches
    // shared cells with lower cost first.
    let dem = grid(21, 21, 25.0, |_, _| 1000.0);
    let field = hike_field(
        &M,
        &dem,
        &[(CellIdx::new(10, 0), s(0.0)), (CellIdx::new(10, 20), s(1000.0))],
        &HikeParams::default(),
    );
    // Cell at col 10 (midpoint): cheap seed dominates because going 10
    // cells of flat ground from the cheap seed costs ~~ 250m / 6 km/h * Tx
    // = a few minutes, far less than 1000 s.
    let mid = f(field.seconds[dem.idx(10, 10)]);
    assert!(mid < 500.0, "cheap-seed should dominate midpoint; got {}", mid);
}

/// Cone with peak at the center, falling off radially.
fn cone_dem(rows: u32, cols: u32, peak_alt: f32, slope_pct: f32) -> Dem {
    let cr = rows as f32 / 2.0;
    let cc = cols as f32 / 2.0;
    grid(rows, cols, 25.0, |r, c| {
        let dr = r as f32 - cr;
        let dc = c as f32 - cc;
        let dist = (dr * dr + dc * dc).sqrt() * 25.0;
        (peak_alt - dist * slope_pct / 100.0).max(0.0)
    })
}

#[test]
fn discovers_launches_on_a_cone() {
    // Peak 1500m, ~58% slope (~30 deg). Cone falling off in all directions
    // means launches in every aspect, but the default arc filters to E-W
    // through S, so ~half of them survive.
    let dem = cone_dem(81, 81, 1500.0, 58.0);
    let launches = discover(&M, &dem, &DiscoveryParams::default());
    assert!(launches.len() > 5, "got {}", launches.len());

    // All discovered should face into the southern half-plane.
    for l in &launches {
        let aspect = f(l.aspect_deg);
        assert!(aspect >= 90.0 - 5.0 && aspect <= 270.0 + 5.0, "bad aspect: {}", aspect);
        assert!(f(l.slope_deg) >= 22.0 && f(l.slope_deg) <= 38.0);
    }
}

#[test]
fn dedup_collapses_neighbors() {
    let dem = cone_dem(81, 81, 1500.0, 58.0);
    let mut params = DiscoveryParams::default();
    params.dedupe_radius_m = s(500.0);
    let launches = discover(&M, &dem, &params);
    // With 500m dedupe radius the southern half of the cone (~750m
    // arc-distance from peak) shouldn't admit dozens of launches.
    assert!(launches.len() < 20, "expected dedup; got {}", launches.len());
}

#[test]
fn flat_terrain_yields_nothing() {
    let dem = grid(50, 50, 25.0, |_, _| 1000.0);
    let launches = discover(&M, &dem, &DiscoveryParams::default());
    assert!(launches.is_empty());
}

fn launch_aspect(aspect: f32) -> Launch {
    Launch {
        id: 0,
        cell: CellIdx::new(0, 0),
        altitude_m: s(1000.0),
        aspect_deg: s(aspect),
        aspect_window_deg: (s(aspect - 45.0), s(aspect + 45.0)),
        slope_deg: s(30.0),
        kind: LaunchKind::AutoDiscovered,
        warnings: vec![],
    }
}

#[test]
fn wind_factor_aligned_is_one() {
    let l = launch_aspect(180.0);
    let factor = f(wind_factor(&M, l.aspect_deg, Wind::new(s(180.0), s(10.0)), s(15.0)));
    assert!((factor - 1.0).abs() < 1e-4);
}

#[test]
fn wind_factor_opposite_is_zero() {
    let l = launch_aspect(180.0);
    let factor = f(wind_factor(&M, l.aspect_deg, Wind::new(s(0.0), s(10.0)), s(15.0)));
    assert!(factor < 0.01, "got {}", factor);
}

#[test]
fn wind_factor_45deg_off_is_partial() {
    let l = launch_aspect(180.0);
    let factor = f(wind_factor(&M, l.aspect_deg, Wind::new(s(135.0), s(10.0)), s(15.0)));
    // 45deg off, 15deg full strength, beyond=30deg -> cos(30 deg) ~ 0.866
    assert!(factor > 0.7 && factor < 0.95, "got {}", factor);
}

fn scored(launch: &Launch, glide_value: f32, hike_seconds: f32) -> Scored<'_> {
    Scored {
        launch,
        glide_value: s(glide_value),
        hike_seconds: s(hike_seconds),
        wind_factor: s(1.0),
        score: s(0.0),
    }
}

#[test]
fn pareto_filters_dominated() {
    let l1 = launch_aspect(180.0);
    let l2 = launch_aspect(180.0);
    let l3 = launch_aspect(180.0);
    let s1 = scored(&l1, 5000.0, 3000.0);
    let s2 = scored(&l2, 8000.0, 6000.0);
    // s3 is dominated by s2: same hike, less glide.
    let s3 = scored(&l3, 4000.0, 6000.0);
    let frontier = pareto_frontier(&[s1, s2, s3]);
    assert_eq!(frontier, vec![0, 1]);
}

fn flat_dem() -> Dem {
    grid(5, 5, 25.0, |_, _| 1000.0)
}

fn ramp_south_dem() -> Dem {
    // Terrain rises to the north (low row index = high altitude).
    // So slope faces south (downhill = south).
    grid(5, 5, 25.0, |r, _| 1000.0 + (4 - r as i32) as f32 * 25.0)
}

#[test]
fn flat_terrain_has_zero_slope() {
    let sa = slope_aspect(&M, &flat_dem());
    let center = f(sa.slope_deg[2 * 5 + 2]);
    assert!(center.abs() < 1e-3, "got {}", center);
}

#[test]
fn south_ramp_aspect_is_180() {
    let sa = slope_aspect(&M, &ramp_south_dem());
    let aspect = f(sa.aspect_deg[2 * 5 + 2]);
    let slope = f(sa.slope_deg[2 * 5 + 2]);
    assert!(slope > 30.0 && slope < 60.0, "slope: {}", slope);
    assert!((aspect - 180.0).abs() < 1.0, "aspect: {}", aspect);
}

#[test]
fn flat_terrain_has_zero_roughness() {
    let r = roughness(&M, &flat_dem());
    let center = f(r[2 * 5 + 2]);
    assert!(center.abs() < 1e-3, "got {}", center);
}

#[test]
fn planar_ramp_has_zero_roughness() {
    let r = roughness(&M, &ramp_south_dem());
    let center = f(r[2 * 5 + 2]);
    assert!(center.abs() < 1e-3, "got {}", center);
}

// Terrain and angles.

#[test]
fn norm_deg_never_reaches_a_full_turn() {
    // The remainder of a tiny negative angle rounds up to 360.
    assert_eq!(f(norm_deg(&M, s(-1e-9))), 0.0);
    assert_eq!(f(norm_deg(&M, s(720.0))), 0.0);
    assert_eq!(f(norm_deg(&M, s(359.5))), 359.5);
}

#[test]
fn arcs_may_run_through_north() {
    assert!(angle_in_arc(&M, s(0.0), s(315.0), s(45.0), s(0.0)));
    assert!(angle_in_arc(&M, s(330.0), s(315.0), s(45.0), s(0.0)));
    assert!(!angle_in_arc(&M, s(180.0), s(315.0), s(45.0), s(0.0)));
}

#[test]
fn missing_terrain_has_no_slope() {
    let mut dem = ramp_south_dem();
    dem.data[2 * 5 + 2] = Single::missing();
    let sa = slope_aspect(&M, &dem);
    assert!(sa.slope_deg[2 * 5 + 2].is_nan());
    assert!(sa.aspect_deg[2 * 5 + 2].is_nan());
    let r = roughness(&M, &dem);
    assert!(r[2 * 5 + 2].is_nan());
}

#[test]
fn ramps_of_one_in_one_are_45_degrees() {
    let sa = slope_aspect(&M, &ramp_south_dem());
    assert!((f(sa.slope_deg[2 * 5 + 2]) - 45.0).abs() < 1e-4);
}

#[test]
fn rasters_know_their_cells() {
    let dem = grid(3, 4, 10.0, |r, c| (10 * r + c) as f32);
    assert_eq!(dem.cell_count(), 12);
    assert_eq!(dem.idx(2, 3), 11);
    assert_eq!(dem.get(2, 3).map(f), Some(23.0));
    assert!(dem.get(3, 0).is_none());
    assert!(dem.in_bounds(0, 0) && dem.in_bounds(2, 3));
    assert!(!dem.in_bounds(-1, 0) && !dem.in_bounds(0, 4));
    assert_eq!(g(dem.area_m2(&M)), 100.0);
    assert_eq!(f(dem.distance_m(&M, CellIdx::new(0, 0), CellIdx::new(3, 4))), 50.0);
    let at = dem.lv95(&M, 1, 2);
    assert_eq!((g(at.e), g(at.n)), (20.0, -10.0));
    let empty = Dem::new(2, 2, s(1.0), LV95::new(d(0.0), d(0.0)));
    assert!(empty.get(1, 1).is_none());
}

#[test]
fn launch_arcs_have_a_half_width() {
    let l = synthetic_launch(0, 0, 0.0);
    assert_eq!(f(l.aspect_window_half_width(&M)), 45.0);
}

// Glides.

#[test]
fn floods_lose_height_with_distance() {
    let dem = flat_low_dem(21, 21);
    let launch = synthetic_launch(10, 10, 100.0);
    let res = flood(&M, &dem, &launch, &bare_glide(10.0, 0.0, None));
    // One cell of 25 m costs 2.5 m of height.
    assert!((f(res.max_alt_msl[dem.idx(10, 11)]) - 97.5).abs() < 1e-2);
    assert!((f(res.max_alt_msl[dem.idx(10, 14)]) - 90.0).abs() < 1e-2);
    assert_eq!(f(res.max_alt_msl[dem.idx(10, 10)]), 100.0);
}

#[test]
fn reached_cells_keep_the_safety_buffer() {
    let dem = cone_dem(41, 41, 600.0, 40.0);
    let launch = synthetic_launch(20, 20, 600.0);
    let p = bare_glide(6.0, 15.0, None);
    let res = flood(&M, &dem, &launch, &p);
    assert!(res.reachable_cells > 0);
    for r in 0..41u32 {
        for c in 0..41u32 {
            let i = dem.idx(r, c);
            if (r, c) != (20, 20) && res.max_alt_msl[i].is_finite() {
                assert!(f(res.max_alt_msl[i]) - f(dem.data[i]) >= 15.0);
            }
        }
    }
}

#[test]
fn summaries_match_floods() {
    let dem = cone_dem(41, 41, 600.0, 40.0);
    let launch = synthetic_launch(20, 20, 600.0);
    let p = GlideParams::default();
    let full = flood(&M, &dem, &launch, &p);
    let sum = flood_summary(&M, &dem, &launch, &p);
    assert_eq!(full.max_distance_m, sum.max_distance_m);
    assert_eq!(full.farthest_cell, sum.farthest_cell);
    assert_eq!(full.reachable_cells, sum.reachable_cells);
    assert_eq!(full.area_m2, sum.area_m2);
    assert_eq!(g(sum.area_m2), sum.reachable_cells as f64 * 625.0);
}

#[test]
fn default_glide_is_an_en_a_wing_at_trim() {
    let p = GlideParams::default();
    assert_eq!(f(p.glide_ratio), 8.0);
    assert_eq!(f(p.safety_buffer_m), 15.0);
    assert_eq!(f(p.takeoff_initial_agl_m), 10.0);
    assert_eq!(f(p.airspeed_ms), 10.0);
    assert!(p.wind.is_none());
}

// Hikes.

#[test]
fn level_paths_cost_what_tobler_says() {
    let dem = grid(3, 3, 25.0, |_, _| 500.0);
    let field = hike_field(&M, &dem, &[(CellIdx::new(1, 1), s(0.0))], &HikeParams::default());
    let speed = 6.0_f32 * (-3.5_f32 * 0.05).exp();
    assert!((f(tobler_speed_kmh(&M, s(0.0))) - speed).abs() < 1e-4);
    // 25 m at that speed, on a T2 path.
    let seconds = 25.0 / 1000.0 / speed * 3600.0 * 1.2;
    assert!((f(field.seconds[dem.idx(1, 2)]) - seconds).abs() < 0.05);
}

#[test]
fn hikes_stop_at_the_limit() {
    let dem = grid(1, 200, 100.0, |_, _| 500.0);
    let p = HikeParams { max_cost_seconds: s(600.0), ..HikeParams::default() };
    let field = hike_field(&M, &dem, &[(CellIdx::new(0, 0), s(0.0))], &p);
    assert!(field.seconds[1].is_finite());
    assert!(field.seconds[199].is_nan());
}

#[test]
fn harder_paths_cost_more() {
    assert_eq!(f(SacClass::T1.cost_multiplier()), 1.0);
    assert_eq!(f(SacClass::T2.cost_multiplier()), 1.2);
    assert_eq!(f(SacClass::T3.cost_multiplier()), 1.5);
    assert_eq!(f(SacClass::T4.cost_multiplier()), 2.0);
}

// Scores.

#[test]
fn scores_are_glide_per_hike_times_wind() {
    let l = launch_aspect(180.0);
    let stats = GlideStats { max_distance_m: s(6000.0), area_m2: d(4e6) };
    let mut p = ScoringParams::default();
    let r = score_launch(&M, &l, &stats, s(3000.0), None, &p);
    assert_eq!(f(r.score), 2.0);
    assert_eq!(f(r.wind_factor), 1.0);
    p.metric = GlideMetric::AreaM2;
    let r = score_launch(&M, &l, &stats, s(2000.0), None, &p);
    assert_eq!(f(r.score), 2000.0);
    // Hikes count at least a second.
    let r = score_launch(&M, &l, &stats, s(0.0), None, &p);
    assert_eq!(f(r.score), 4e6);
    let against = Some(Wind::new(s(0.0), s(10.0)));
    let r = score_launch(&M, &l, &stats, s(2000.0), against, &p);
    assert_eq!(f(r.wind_factor), 0.0);
}

#[test]
fn launches_are_spaced_and_few() {
    let dem = cone_dem(81, 81, 1500.0, 58.0);
    let mut params = DiscoveryParams::default();
    let all = discover(&M, &dem, &params);
    for (i, a) in all.iter().enumerate() {
        for b in &all[i + 1..] {
            assert!(f(dem.distance_m(&M, a.cell, b.cell)) >= 100.0);
        }
    }
    params.max_launches = 3;
    assert_eq!(discover(&M, &dem, &params).len(), 3);
    params.max_launches = 0;
    assert!(discover(&M, &dem, &params).is_empty());
}

#[test]
fn no_straight_glide_beats_the_flood() {
    let dem = flat_low_dem(41, 41);
    let launch = synthetic_launch(20, 20, 100.0);
    let p = bare_glide(10.0, 0.0, None);
    let r = flood(&M, &dem, &launch, &p);
    let start = f(r.max_alt_msl[dem.idx(20, 20)]);
    assert_eq!(start, 100.0);
    for i in 1..20u32 {
        let straight = start - i as f32 * (2.5 + 0.012);
        let alt = f(r.max_alt_msl[dem.idx(20, 20 + i)]);
        assert!(alt.is_finite() && alt >= straight);
    }
}

#[test]
fn better_gliders_get_everywhere_others_do() {
    let dem = grid(41, 41, 25.0, |r, c| ((r * 7 + c * 3) % 11) as f32);
    let launch = synthetic_launch(20, 20, 60.0);
    let worse = flood(&M, &dem, &launch, &bare_glide(5.0, 0.0, None));
    let better = flood(&M, &dem, &launch, &bare_glide(7.0, 0.0, None));
    for (low, high) in worse.max_alt_msl.iter().zip(better.max_alt_msl.iter()) {
        if f(*low).is_finite() {
            assert!(f(*high) >= f(*low));
        }
    }
}

#[test]
fn no_straight_walk_beats_the_field() {
    let dem = grid(21, 21, 25.0, |_, _| 1000.0);
    let field = hike_field(&M, &dem, &[(CellIdx::new(10, 0), s(30.0))], &HikeParams::default());
    let per_cell = 1.2 * 25.0 * 3.6 / f(tobler_speed_kmh(&M, s(0.0)));
    for i in 1..21u32 {
        let walked = 30.0 + i as f32 * (per_cell + 0.002);
        assert!(f(field.seconds[dem.idx(10, i)]) <= walked);
    }
}

#[test]
fn angle_differences_are_signed_and_at_most_half_a_turn() {
    for a in [-725.0_f32, -180.0, -0.5, 0.0, 10.0, 179.5, 180.0, 350.0, 9_999.0] {
        for b in [-360.0_f32, -90.25, 0.0, 45.0, 180.0, 359.0] {
            let diff = f(angle_diff_deg(&M, s(a), s(b)));
            assert!(-180.0 < diff && diff <= 180.0);
            let back = f(angle_diff_deg(&M, s(b), s(a)));
            assert!(diff == 180.0 || (diff + back).abs() < 1e-2);
        }
    }
}

#[test]
fn altitudes_come_from_a_neighbor() {
    let dem = grid(21, 21, 25.0, |r, c| ((r * 5 + c * 11) % 7) as f32);
    let launch = synthetic_launch(10, 10, 40.0);
    let r = flood(&M, &dem, &launch, &bare_glide(6.0, 0.0, None));
    let alt = |row: i32, col: i32| {
        if (0..21).contains(&row) && (0..21).contains(&col) {
            f(r.max_alt_msl[dem.idx(row as u32, col as u32)])
        } else {
            f32::NAN
        }
    };
    for row in 0..21 {
        for col in 0..21 {
            if alt(row, col).is_finite() && (row, col) != (10, 10) {
                let best = (-1..=1)
                    .flat_map(|dr| (-1..=1).map(move |dc| (dr, dc)))
                    .filter(|(dr, dc)| (*dr, *dc) != (0, 0))
                    .map(|(dr, dc): (i32, i32)| {
                        let length = 25.0 * ((dr * dr + dc * dc) as f32).sqrt();
                        alt(row + dr, col + dc) - length / 6.0
                    })
                    .fold(f32::NEG_INFINITY, f32::max);
                assert!(alt(row, col) <= best + 0.02);
            }
        }
    }
}

#[test]
fn seeds_that_are_no_numbers_do_not_undo_the_others() {
    let dem = grid(1, 9, 25.0, |_, _| 500.0);
    let at = |col: u32| CellIdx::new(0, col);
    let p = HikeParams::default();
    let seconds = |seeds: &[(CellIdx, Single)]| -> Vec<f32> {
        hike_field(&M, &dem, seeds, &p).seconds.iter().map(|c| f(*c)).collect()
    };
    // The seed on another cell counts as ever.
    let field = seconds(&[(at(8), s(f32::NAN)), (at(0), s(5.0))]);
    assert_eq!(field[0], 5.0);
    // One that is no number puts out an earlier one on its cell.
    assert!(seconds(&[(at(0), s(5.0)), (at(0), s(f32::NAN))])[0] != 5.0);
    assert_eq!(seconds(&[(at(0), s(f32::NAN)), (at(0), s(5.0))])[0], 5.0);
    assert_eq!(seconds(&[(at(0), s(5.0)), (at(0), s(f32::INFINITY))])[0], 5.0);
}

#[test]
fn of_equally_far_cells_the_first_reached_is_reported() {
    // All four corners are reached; downwind ones first.
    let dem = flat_low_dem(11, 11);
    let launch = synthetic_launch(5, 5, 500.0);
    for (from, row) in [(0.0, 10), (180.0, 0)] {
        let wind = Some(Wind::new(s(from), s(5.0)));
        let r = flood(&M, &dem, &launch, &bare_glide(8.0, 0.0, wind));
        assert_eq!(r.reachable_cells, 120);
        let farthest = r.farthest_cell.unwrap();
        assert_eq!(farthest.row, row);
        assert!(farthest.col == 0 || farthest.col == 10);
        assert_eq!(f(r.max_distance_m), 50.0_f32.sqrt() * 25.0);
        let short = flood_summary(&M, &dem, &launch, &bare_glide(8.0, 0.0, wind));
        assert_eq!(short.farthest_cell.map(|c| c.row), Some(row));
    }
    for (from, col) in [(90.0, 0), (270.0, 10)] {
        let wind = Some(Wind::new(s(from), s(5.0)));
        let r = flood(&M, &dem, &launch, &bare_glide(8.0, 0.0, wind));
        assert_eq!(r.farthest_cell.map(|c| c.col), Some(col));
    }
}

#[test]
fn angle_differences_are_full_turns_from_the_difference() {
    for (a, b) in [(10.0_f32, 350.0_f32), (350.0, 10.0), (720.5, 0.0), (-90.0, 630.0), (180.0, 0.0)] {
        let rest = (a - b - f(angle_diff_deg(&M, s(a), s(b)))) / 360.0;
        assert_eq!(rest, rest.round());
    }
}
