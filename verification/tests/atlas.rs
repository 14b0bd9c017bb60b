//! The map: trailheads, access, rankings, images, command lines.

use hikefly::access::{access_fields, lift_seeds, trail_seeds, valley_seeds};
use hikefly::args::{
    airports, lv95_box, parse_args, parse_sac, AreaArgs, AreaOutcome, Program,
};
use hikefly::atlas::survey;
use hikefly::dem::Dem;
use hikefly::dem_info::{dem_bbox_lv95, dem_info, trail_out, DataSource};
use hikefly::discovery::discover;
use hikefly::fetch_args::{
    choose_mode, gather_args, parse_args as parse_fetch_args, peak_boxes, preset, Ending, Flag,
    Mode, PeakDef,
};
use hikefly::flood_cache::FloodCache;
use hikefly::geom::{CellIdx, LV95};
use hikefly::glide::{flood, flood_summary, FloodSummary, GlideParams};
use hikefly::hike::{hike_field, HikeField, HikeParams};
use hikefly::hillshade::{hill_bytes, render};
use hikefly::launch::{Launch, LaunchKind};
use hikefly::lifts::{Lift, LiftEndpoint, LiftKind};
use hikefly::lv95::{lv95_to_wgs84, wgs84_to_lv95};
use hikefly::math::{Binary, BinaryD, Math, Unary, UnaryD};
use hikefly::no_fly::{drop_no_fly, launch_areas};
use hikefly::png_util::{mask_bytes, reachability_mask_png};
use hikefly::queries::{bucket_inputs, glide_params, glide_wind, ReachQuery, ScoreQuery};
use hikefly::ranking::rank_launches;
use hikefly::reachability::{find_launch, footprint};
use hikefly::region::BBox;
use hikefly::scalar::{Double, Single};
use hikefly::snap::{lift_endpoints_to_cells, snap_to_finite_cell};
use hikefly::synthetic::synthetic_alps_dem;
use hikefly::terrain::slope_aspect;
use hikefly::trail_graph::{
    build, cell_to_lv95, dijkstra, lv95_to_cell, nearest_node, project_to_dem_seeds,
};
use hikefly::trailheads::pick_trailheads;
use hikefly::trails::{SacScale, TrailSegment};
use hikefly::warnings::{Severity, Warning, WarningKind};
use hikefly::wind::Wind;

/// The machine's own arithmetic.
struct Native;

fn s(x: f32) -> Single {
    Single { bits: x.to_bits() }
}

fn f(x: Single) -> f32 {
    f32::from_bits(x.bits)
}

fn d(x: f64) -> Double {
    Double { bits: x.to_bits() }
}

fn g(x: Double) -> f64 {
    f64::from_bits(x.bits)
}

impl Math for Native {
    fn unary(&self, op: Unary, a: Single) -> Single {
        let x = f(a);
        s(match op {
            Unary::Sqrt => x.sqrt(),
            Unary::Square => x.powi(2),
            Unary::Atan => x.atan(),
            Unary::Cos => x.cos(),
            Unary::Sin => x.sin(),
            Unary::Exp => x.exp(),
            Unary::Floor => x.floor(),
            Unary::Round => x.round(),
            Unary::Ceil => x.ceil(),
            Unary::ToRadians => x.to_radians(),
            Unary::ToDegrees => x.to_degrees(),
        })
    }

    fn binary(&self, op: Binary, a: Single, b: Single) -> Single {
        let (x, y) = (f(a), f(b));
        s(match op {
            Binary::Add => x + y,
            Binary::Sub => x - y,
            Binary::Mul => x * y,
            Binary::Div => x / y,
            Binary::Rem => x % y,
            Binary::RemEuclid => x.rem_euclid(y),
            Binary::Atan2 => x.atan2(y),
            Binary::Powf => x.powf(y),
        })
    }

    fn unary_d(&self, op: UnaryD, a: Double) -> Double {
        let x = g(a);
        d(match op {
            UnaryD::Sqrt => x.sqrt(),
            UnaryD::Square => x.powi(2),
            UnaryD::Cube => x.powi(3),
            UnaryD::Floor => x.floor(),
            UnaryD::Round => x.round(),
            UnaryD::Ceil => x.ceil(),
        })
    }

    fn binary_d(&self, op: BinaryD, a: Double, b: Double) -> Double {
        let (x, y) = (g(a), g(b));
        d(match op {
            BinaryD::Add => x + y,
            BinaryD::Sub => x - y,
            BinaryD::Mul => x * y,
            BinaryD::Div => x / y,
        })
    }

    fn single_from_int(&self, i: i128) -> Single {
        s(i as f32)
    }

    fn double_from_int(&self, i: i128) -> Double {
        d(i as f64)
    }

    fn single_to_int(&self, a: Single) -> i128 {
        f(a) as i128
    }

    fn double_to_int(&self, a: Double) -> i128 {
        g(a) as i128
    }

    fn widen(&self, a: Single) -> Double {
        d(f(a) as f64)
    }

    fn narrow(&self, a: Double) -> Single {
        s(g(a) as f32)
    }

    fn parse_single(&self, text: &str) -> Option<Single> {
        text.parse::<f32>().ok().map(s)
    }

    fn parse_double(&self, text: &str) -> Option<Double> {
        text.parse::<f64>().ok().map(d)
    }

    fn show_double(&self, a: Double) -> String {
        format!("{}", g(a))
    }

    fn show_whole(&self, a: Double) -> String {
        format!("{:.0}", g(a))
    }
}

const M: Native = Native;

fn grid(rows: u32, cols: u32, cell: f32, alt: impl Fn(u32, u32) -> f32) -> Dem {
    Dem::from_fn(rows, cols, s(cell), LV95::new(d(0.0), d(0.0)), |r: u32, c: u32| s(alt(r, c)))
}


/// A raster whose cells hold the numbers of a picture; `.` is a hole.
fn picture(rows: &[&str]) -> Dem {
    let cells: Vec<Vec<char>> = rows.iter().map(|r| r.chars().collect()).collect();
    grid(rows.len() as u32, cells[0].len() as u32, 100.0, |r, c| {
        match cells[r as usize][c as usize].to_digit(10) {
            Some(v) => v as f32,
            None => f32::NAN,
        }
    })
}

fn cells(list: &[CellIdx]) -> Vec<(u32, u32)> {
    list.iter().map(|c| (c.row, c.col)).collect()
}

fn launch(id: u32, row: u32, col: u32, alt: f32) -> Launch {
    Launch {
        id,
        cell: CellIdx::new(row, col),
        altitude_m: s(alt),
        aspect_deg: s(180.0),
        aspect_window_deg: (s(135.0), s(225.0)),
        slope_deg: s(30.0),
        kind: LaunchKind::AutoDiscovered,
        warnings: vec![],
    }
}

// Trailheads.

#[test]
fn islands_have_one_trailhead_each() {
    let dem = picture(&["95.31", "8..2.", "..6.7", "56..."]);
    // Islands of 3, 3, 1, 2 and 1 cells.
    assert_eq!(
        cells(&pick_trailheads(&dem, 1)),
        vec![(0, 1), (0, 4), (2, 2), (2, 4), (3, 0)]
    );
    assert_eq!(cells(&pick_trailheads(&dem, 2)), vec![(0, 1), (0, 4), (3, 0)]);
    assert_eq!(cells(&pick_trailheads(&dem, 3)), vec![(0, 1), (0, 4)]);
    assert!(pick_trailheads(&dem, 4).is_empty());
}

#[test]
fn of_equally_low_cells_the_first_visited_is_the_trailhead() {
    // From the first cell the flood goes to the east neighbor before the south
    // one, and from there on east.
    let dem = picture(&["511", "1.."]);
    assert_eq!(cells(&pick_trailheads(&dem, 1)), vec![(0, 1)]);
    let dem = picture(&["53", "13", "21"]);
    assert_eq!(cells(&pick_trailheads(&dem, 1)), vec![(2, 1)]);
}

// Terrain near a point.

#[test]
fn points_lie_in_cells() {
    let dem = grid(3, 3, 100.0, |_, _| 1.0);
    assert_eq!(lv95_to_cell(&M, &dem, d(140.0), d(-60.0)), Some(CellIdx::new(1, 1)));
    assert_eq!(lv95_to_cell(&M, &dem, d(-60.0), d(0.0)), None);
    assert_eq!(lv95_to_cell(&M, &dem, d(0.0), d(-260.0)), None);
    let (e, n) = cell_to_lv95(&M, &dem, CellIdx::new(2, 1));
    assert_eq!((g(e), g(n)), (100.0, -200.0));
}

#[test]
fn terrain_is_found_within_the_radius() {
    let dem = picture(&[".....", "...7.", ".....", "9....", "....."]);
    let at = |row: i32, col: i32, radius: f32| {
        snap_to_finite_cell(&M, &dem, d(col as f64 * 100.0), d(-row as f64 * 100.0), s(radius))
            .map(|(c, z)| (c.row, c.col, f(z)))
    };
    assert_eq!(at(1, 3, 0.0), Some((1, 3, 7.0)));
    assert_eq!(at(2, 2, 100.0), Some((1, 3, 7.0)));
    assert_eq!(at(2, 2, 50.0), Some((1, 3, 7.0)));
    assert_eq!(at(2, 0, 300.0), Some((3, 0, 9.0)));
    assert_eq!(at(4, 4, 200.0), None);
    assert_eq!(at(4, 4, 201.0), Some((1, 3, 7.0)));
    assert_eq!(at(9, 9, 900.0), None);
}

#[test]
fn the_nearest_terrain_is_found() {
    let find = |dem: &Dem, col: f64, row: f64, radius: f32| {
        snap_to_finite_cell(&M, dem, d(col * 100.0), d(-row * 100.0), s(radius)).map(|r| f(r.1))
    };
    // The west neighbor is nearer than the corners.
    let dem = picture(&["123", "4.5", "678"]);
    assert_eq!(find(&dem, 1.0, 1.0, 100.0), Some(4.0));
    let dem = picture(&["1..", "2..", "..."]);
    assert_eq!(find(&dem, 1.0, 1.0, 600.0), Some(2.0));
    let dem = picture(&["1..", "...", ".7."]);
    assert_eq!(find(&dem, 1.0, 1.0, 600.0), Some(7.0));
    // Straight ahead on the fourth ring is nearer than the corner of the third.
    let dem = picture(&["1.......", "........", "........", ".......2"]);
    assert_eq!(find(&dem, 3.0, 3.0, 300.0), Some(1.0));
    assert_eq!(find(&dem, 3.0, 3.0, 400.0), Some(2.0));
}

// Access.

fn lift(kind: LiftKind, lower: (f64, f64), upper: (f64, f64)) -> Lift {
    let end = |(e, n): (f64, f64)| LiftEndpoint { lat: d(n), lon: d(e), e: d(e), n: d(n) };
    Lift {
        name: "L".to_string(),
        kind,
        lower: end(lower),
        upper: end(upper),
        length_m: s(1000.0),
        travel_seconds: s(240.0),
    }
}

#[test]
fn lifts_start_at_the_bottom_for_free() {
    let dem = picture(&["159", "159"]);
    let up = lift(LiftKind::Gondola, (0.0, 0.0), (200.0, 0.0));
    let down = lift(LiftKind::Gondola, (200.0, -100.0), (0.0, -100.0));
    let goods = lift(LiftKind::GoodsLift, (0.0, 0.0), (200.0, 0.0));
    let away = lift(LiftKind::Gondola, (0.0, 0.0), (9000.0, 0.0));
    let (lo, hi, lo_alt, hi_alt) = lift_endpoints_to_cells(&M, &dem, &down).unwrap();
    assert_eq!(((lo.row, lo.col), (hi.row, hi.col)), ((1, 2), (1, 0)));
    assert_eq!((f(lo_alt), f(hi_alt)), (9.0, 1.0));
    let seeds: Vec<(u32, u32, f32)> = lift_seeds(&M, &dem, &[up, down, goods, away])
        .iter()
        .map(|(c, cost)| (c.row, c.col, f(*cost)))
        .collect();
    assert_eq!(seeds, vec![(0, 0, 0.0), (0, 2, 240.0), (1, 0, 0.0), (1, 2, 240.0)]);
    let valley = valley_seeds(&[CellIdx::new(1, 1)]);
    assert_eq!((valley[0].0.col, f(valley[0].1)), (1, 0.0));
}

fn trail(points: &[(f64, f64)]) -> TrailSegment {
    TrailSegment {
        sac: SacScale::T2MountainHiking,
        points: points.iter().map(|(e, n)| [d(*e), d(*n)]).collect(),
    }
}

#[test]
fn trails_share_their_nodes() {
    let dem = grid(3, 9, 100.0, |_, _| 500.0);
    let trails = [
        trail(&[(0.0, 0.0), (400.0, 0.0), (400.0, -200.0)]),
        trail(&[(400.0, 0.0), (800.0, 0.0)]),
    ];
    let graph = build(&M, &trails, &dem);
    assert_eq!(graph.node_pos.len(), 4);
    assert_eq!(graph.edges.len(), 3);
    // 400 m on the level at 4 km/h.
    assert!((f(graph.edges[0].2) - 360.0).abs() < 0.01, "{}", f(graph.edges[0].2));
    let start = nearest_node(&M, &graph, d(30.0), d(40.0), s(250.0)).unwrap();
    assert_eq!(g(graph.node_pos[start as usize].0), 0.0);
    assert_eq!(nearest_node(&M, &graph, d(0.0), d(900.0), s(250.0)), None);
    let costs: Vec<f32> = dijkstra(&M, &graph, &[(start, s(10.0))]).iter().map(|c| f(*c)).collect();
    assert!((costs[1] - 370.0).abs() < 0.1 && (costs[3] - 730.0).abs() < 0.2, "{:?}", costs);
    let seeds = project_to_dem_seeds(&M, &graph, &dem, &dijkstra(&M, &graph, &[(start, s(0.0))]));
    assert_eq!(seeds.len(), 4);
    assert!(seeds.iter().any(|(c, t)| (c.row, c.col) == (0, 8) && (f(*t) - 720.0).abs() < 0.2));
}

#[test]
fn endlessly_fast_seeds_are_where_walks_end() {
    let dem = grid(1, 9, 100.0, |_, _| 500.0);
    let graph = build(&M, &[trail(&[(0.0, 0.0), (400.0, 0.0)]), trail(&[(400.0, 0.0), (800.0, 0.0)])], &dem);
    let at = |e: f64| nearest_node(&M, &graph, d(e), d(0.0), s(1.0)).unwrap();
    let seeds = [(at(0.0), s(10.0)), (at(400.0), Single::neg_infinity())];
    let costs = dijkstra(&M, &graph, &seeds);
    assert_eq!(f(costs[at(0.0) as usize]), 10.0);
    assert_eq!(f(costs[at(400.0) as usize]), f32::NEG_INFINITY);
    assert_eq!(f(costs[at(800.0) as usize]), f32::INFINITY);
}

#[test]
fn trails_give_seeds_near_a_start() {
    let dem = grid(3, 9, 100.0, |_, _| 500.0);
    let graph = build(&M, &[trail(&[(0.0, 0.0), (800.0, 0.0)])], &dem);
    let near = trail_seeds(&M, &graph, &dem, &[(CellIdx::new(2, 1), s(0.0))]);
    assert_eq!(near.len(), 2);
    let far = trail_seeds(&M, &graph, &dem, &[(CellIdx::new(2, 4), s(0.0))]);
    assert!(far.is_empty());
    let none = build(&M, &[], &dem);
    assert!(trail_seeds(&M, &none, &dem, &[(CellIdx::new(0, 0), s(0.0))]).is_empty());
}

#[test]
fn lifts_shorten_hikes() {
    let dem = grid(3, 40, 100.0, |_, c| 500.0 + 20.0 * c as f32);
    let ride = lift(LiftKind::CableCar, (0.0, 0.0), (3900.0, 0.0));
    let graph = build(&M, &[], &dem);
    let (with, without) =
        access_fields(&M, &graph, &dem, &[CellIdx::new(1, 0)], &[ride]);
    let top = dem.idx(0, 39);
    assert_eq!(f(with.seconds[top]), 240.0);
    assert!(f(without.seconds[top]) > 2000.0);
    let plain = hike_field(&M, &dem, &[(CellIdx::new(1, 0), s(0.0))], &HikeParams::default());
    assert_eq!(without.seconds, plain.seconds);
}

// Restricted areas.

fn area(dem: &Dem, severity: Severity, rows: (u32, u32), cols: (u32, u32)) -> Warning {
    let corner = |r: u32, c: u32| {
        let (e, n) = cell_to_lv95(&M, dem, CellIdx::new(r, c));
        let (lon, lat) = lv95_to_wgs84(&M, e, n);
        [lat, lon]
    };
    Warning {
        name: "Zone".to_string(),
        kind: WarningKind::Wildruhezone,
        severity,
        polygon: vec![
            corner(rows.0, cols.0),
            corner(rows.0, cols.1),
            corner(rows.1, cols.1),
            corner(rows.1, cols.0),
        ],
    }
}

fn oberland(rows: u32, cols: u32) -> Dem {
    Dem::from_fn(rows, cols, s(100.0), LV95::new(d(2_630_000.0), d(1_175_000.0)), |_, _| s(900.0))
}

#[test]
fn no_fly_launches_are_dropped() {
    let dem = oberland(20, 20);
    let warnings = [
        area(&dem, Severity::Low, (0, 10), (0, 10)),
        area(&dem, Severity::High, (8, 18), (8, 18)),
        area(&dem, Severity::Medium, (12, 19), (0, 5)),
    ];
    let launches =
        [launch(1, 5, 5, 900.0), launch(2, 9, 9, 900.0), launch(3, 15, 3, 900.0), launch(4, 1, 15, 900.0)];
    let areas: Vec<Vec<u32>> =
        launches.iter().map(|l| launch_areas(&M, &dem, l, &warnings)).collect();
    assert_eq!(areas, vec![vec![0], vec![0, 1], vec![2], vec![]]);
    let (kept, kept_areas) = drop_no_fly(&launches, &areas, &warnings);
    assert_eq!(kept.iter().map(|l| l.id).collect::<Vec<u32>>(), vec![1, 3, 4]);
    assert_eq!(kept_areas, vec![vec![0], vec![2], vec![]]);
}

#[test]
fn severities_close_takeoffs_or_not() {
    assert!(Severity::Critical.no_fly() && Severity::High.no_fly());
    assert!(!Severity::Medium.no_fly() && !Severity::Low.no_fly());
    assert_eq!(Severity::Medium.name(), "Medium");
}

// Requests.

#[test]
fn requests_fall_into_buckets() {
    let wind = |from: f32, kmh: f32| Some(Wind::new(s(from), s(kmh)));
    let (gr, w, key) = bucket_inputs(&M, s(8.2), wind(187.0, 9.5));
    assert_eq!(f(gr), 8.0);
    let w = w.unwrap();
    assert_eq!((f(w.from_deg), f(w.speed_kmh)), (180.0, 8.0));
    assert_eq!(key, (16, 180, 8));
    assert_eq!(bucket_inputs(&M, s(8.3), wind(-10.0, 0.5)).2, (17, 350, 0));
    assert_eq!(bucket_inputs(&M, s(99.0), None).2, (40, -1, -1));
    assert_eq!(bucket_inputs(&M, s(0.0), wind(90.0, 0.0)).2, (4, -1, -1));
    assert!(bucket_inputs(&M, s(0.0), wind(90.0, 0.0)).1.is_none());
}

#[test]
fn neighbouring_values_share_a_bucket() {
    let key = |gr: f32, from: f32, kmh: f32| {
        bucket_inputs(&M, s(gr), Some(Wind::new(s(from), s(kmh)))).2
    };
    assert_eq!(key(8.0, 180.0, 8.0), key(8.2, 189.9, 9.9));
    assert_ne!(key(8.0, 180.0, 8.0), key(8.0, 190.0, 8.0));
    assert_ne!(key(8.0, 180.0, 8.0), key(8.0, 180.0, 10.0));
}

#[test]
fn equal_keys_are_computed_alike() {
    let values = [(2.0, 0.0, 0.1), (7.9, 359.9, 8.0), (8.1, 355.0, 9.9), (8.2, 0.0, 0.4), (99.0, 10.0, 7.0)];
    for a in values {
        for b in values {
            let bucket = |(gr, from, kmh): (f32, f32, f32)| {
                bucket_inputs(&M, s(gr), Some(Wind::new(s(from), s(kmh))))
            };
            let ((ra, wa, ka), (rb, wb, kb)) = (bucket(a), bucket(b));
            let (wa, wb) = (wa.unwrap(), wb.unwrap());
            let same = f(ra) == f(rb)
                && f(wa.from_deg) == f(wb.from_deg)
                && f(wa.speed_kmh) == f(wb.speed_kmh);
            assert_eq!(ka == kb, same);
        }
    }
}

#[test]
fn weak_winds_do_not_shape_glides() {
    assert!(glide_wind(1, s(180.0), s(0.5)).is_none());
    assert!(glide_wind(0, s(180.0), s(9.0)).is_none());
    assert_eq!(glide_wind(1, s(180.0), s(0.6)).map(|w| f(w.speed_kmh)), Some(0.6));
    let p = glide_params(s(9.0), None);
    let default = GlideParams::default();
    assert_eq!(f(p.glide_ratio), 9.0);
    assert_eq!(p.airspeed_ms, default.airspeed_ms);
    assert_eq!(p.safety_buffer_m, default.safety_buffer_m);
}

#[test]
fn requests_have_defaults() {
    let q = ScoreQuery::default();
    assert_eq!((f(q.wind_from), f(q.wind_kmh), f(q.alpha)), (180.0, 8.0, 1.0));
    assert_eq!((q.use_wind, q.use_lifts, f(q.glide_ratio)), (1, 1, 8.0));
    assert_eq!(q.metric, "distance");
    let r = ReachQuery::default();
    assert_eq!((f(r.wind_from), f(r.wind_kmh), f(r.glide_ratio)), (180.0, 8.0, 8.0));
    let (key, p) = r.glide(&M);
    assert_eq!(p.wind.map(|w| (f(w.from_deg), f(w.speed_kmh))), Some((180.0, 8.0)));
    // Footprints match the table.
    let (table_key, table) = q.glide(&M);
    assert_eq!(key, table_key);
    assert_eq!((p.glide_ratio, p.wind), (table.glide_ratio, table.wind));
}

#[test]
fn results_are_kept_per_bucket() {
    let mut cache: FloodCache<&str> = FloodCache::new();
    assert!(cache.get((16, -1, -1)).is_none());
    cache.insert((16, -1, -1), "still");
    cache.insert((16, 180, 8), "south");
    assert_eq!(cache.get((16, -1, -1)), Some(&"still"));
    assert_eq!(cache.get((16, 180, 8)), Some(&"south"));
    assert!(cache.get((16, 190, 8)).is_none());
    cache.insert((16, -1, -1), "calm");
    assert_eq!(cache.get((16, -1, -1)), Some(&"calm"));
    assert_eq!(cache.get((16, 180, 8)), Some(&"south"));
}

fn summary(distance: f32, area: f64, farthest: Option<CellIdx>) -> FloodSummary {
    FloodSummary {
        max_distance_m: s(distance),
        farthest_cell: farthest,
        reachable_cells: 1,
        area_m2: d(area),
    }
}

#[test]
fn rankings_put_the_best_first() {
    let dem = oberland(4, 4);
    let launches =
        [launch(7, 0, 0, 900.0), launch(8, 0, 1, 901.0), launch(9, 0, 2, 902.0), launch(10, 3, 3, 903.0)];
    let far = CellIdx::new(3, 0);
    let summaries = [
        summary(1000.0, 8e6, Some(far)),
        summary(4000.0, 2e6, None),
        summary(4000.0, 2e6, None),
        summary(9000.0, 9e6, None),
    ];
    let mut seconds = vec![s(600.0); 16];
    seconds[dem.idx(3, 3)] = Single::missing();
    let hike = HikeField { seconds };
    let on_foot = HikeField { seconds: vec![s(1200.0); 16] };
    let warnings = [area(&dem, Severity::Low, (0, 3), (0, 3))];
    let areas = [vec![0], vec![], vec![], vec![]];
    let mut q = ScoreQuery { use_wind: 0, ..Default::default() };
    let rows =
        rank_launches(&M, &dem, &launches, &summaries, &hike, &on_foot, &q, &warnings, &areas);
    assert_eq!(rows.iter().map(|r| r.id).collect::<Vec<u32>>(), vec![8, 9, 7, 10]);
    assert_eq!((rows[2].row, rows[2].col), (0, 0));
    assert!((f(rows[0].score) - 4000.0 / 600.0).abs() < 1e-4);
    assert_eq!(f(rows[0].hike_minutes), 10.0);
    assert_eq!((f(rows[2].glide_distance_km), f(rows[2].glide_area_km2)), (1.0, 8.0));
    assert_eq!((g(rows[2].e), g(rows[2].n)), (2_630_000.0, 1_175_000.0));
    assert!(rows[2].farthest_lat.unwrap().lt(&rows[2].lat));
    assert!(rows[0].farthest_lat.is_none() && rows[0].farthest_lon.is_none());
    assert_eq!(rows[2].warnings.len(), 1);
    assert_eq!(rows[2].warnings[0].name, "Zone");
    assert_eq!(rows[2].warnings[0].kind, "Wildruhezone");
    assert_eq!(rows[2].warnings[0].severity, "Low");
    // A launch that cannot be reached on foot comes last.
    assert!(f(rows[3].hike_minutes).is_infinite());
    assert_eq!(f(rows[3].score), 0.0);
    assert_eq!(f(rows[0].wind_factor), 1.0);
    // By area, the first launch is best.
    q.metric = "area".to_string();
    let rows =
        rank_launches(&M, &dem, &launches, &summaries, &hike, &on_foot, &q, &warnings, &areas);
    assert_eq!(rows[0].id, 7);
    assert_eq!(f(rows[0].glide_value), 8e6);
    // Without lifts, the other hikes count.
    q.use_lifts = 0;
    let rows =
        rank_launches(&M, &dem, &launches, &summaries, &hike, &on_foot, &q, &warnings, &areas);
    assert_eq!(rows[0].id, 10);
    assert!(rows.iter().all(|r| f(r.hike_minutes) == 20.0));
}

// What the map shows.

#[test]
fn maps_know_their_frame() {
    let mut dem = oberland(10, 20);
    dem.data[0] = s(850.0);
    let (e_min, n_min, e_max, n_max) = dem_bbox_lv95(&M, &dem);
    assert_eq!((g(e_min), g(e_max)), (2_629_950.0, 2_631_950.0));
    assert_eq!((g(n_min), g(n_max)), (1_174_050.0, 1_175_050.0));
    let up = lift(LiftKind::Funicular, (2_630_000.0, 1_175_000.0), (2_631_000.0, 1_175_000.0));
    let down = lift(LiftKind::Funicular, (2_631_000.0, 1_175_000.0), (2_630_000.0, 1_175_000.0));
    let away = lift(LiftKind::Gondola, (0.0, 0.0), (1.0, 1.0));
    let warnings = [area(&dem, Severity::Critical, (0, 3), (0, 3))];
    let info = dem_info(
        &M,
        &dem,
        DataSource::SwissALTI3D,
        &[CellIdx::new(0, 0)],
        &[up, down, away],
        &warnings,
    );
    assert_eq!((info.rows, info.cols, f(info.cell_size_m)), (10, 20, 100.0));
    assert_eq!(info.source, "swissalti3d");
    assert_eq!(info.bbox_lv95, [e_min, n_min, e_max, n_max]);
    for corner in info.corners_wgs84 {
        assert!(info.bbox_wgs84[0].le(&corner[1]) && corner[1].le(&info.bbox_wgs84[2]));
        assert!(info.bbox_wgs84[1].le(&corner[0]) && corner[0].le(&info.bbox_wgs84[3]));
    }
    let (lon, lat) = lv95_to_wgs84(&M, e_min, n_max);
    assert_eq!(info.corners_wgs84[0], [lat, lon]);
    assert_eq!((info.trailheads[0].row, f(info.trailheads[0].alt_m)), (0, 850.0));
    // Lifts run uphill where the terrain is known.
    assert_eq!(g(info.lifts[0].lower[1]), 2_630_000.0);
    assert_eq!(g(info.lifts[1].lower[1]), 2_630_000.0);
    assert_eq!(g(info.lifts[2].lower[1]), 0.0);
    assert_eq!(info.lifts[0].kind, "Funicular");
    assert_eq!(f(info.lifts[0].travel_minutes), 4.0);
    assert_eq!(info.warnings[0].severity, "Critical");
    assert_eq!(info.warnings[0].polygon, warnings[0].polygon);
}

#[test]
fn sources_have_names_and_settings() {
    assert_eq!(DataSource::Synthetic.name(), "synthetic");
    let p = DataSource::Synthetic.discovery_params();
    assert_eq!((p.max_launches, f(p.max_roughness_m), f(p.dedupe_radius_m)), (80, 1.5, 100.0));
    let p = DataSource::SwissALTI3D.discovery_params();
    assert_eq!((p.max_launches, f(p.max_roughness_m), f(p.dedupe_radius_m)), (600, 4.0, 700.0));
}

#[test]
fn trails_are_shown_in_degrees() {
    let out = trail_out(&M, &trail(&[(2_600_000.0, 1_200_000.0), (2_600_100.0, 1_200_000.0)]));
    assert_eq!(out.sac, "T2");
    assert_eq!(out.points.len(), 2);
    assert!((g(out.points[0][0]) - 46.951).abs() < 0.001);
    assert!((g(out.points[0][1]) - 7.4386).abs() < 0.001);
}

#[test]
fn the_made_up_mountain_has_launches() {
    let dem = synthetic_alps_dem(&M);
    assert_eq!((dem.rows, dem.cols, f(dem.cell_size_m)), (161, 161, 25.0));
    assert!((f(dem.get(80, 80).unwrap()) - 2400.0).abs() < 1.0);
    assert!((f(dem.get(0, 0).unwrap()) - 848.0).abs() < 1.0);
    let launches = discover(&M, &dem, &DataSource::Synthetic.discovery_params());
    assert!(!launches.is_empty() && launches.len() <= 80);
}

// Images.

#[test]
fn hills_are_tinted_by_altitude_and_light() {
    let dem = picture(&["0.9"]);
    let flat = [s(0.0), s(0.0), s(0.0)];
    let bytes = hill_bytes(&M, &dem, &flat, &flat);
    let light = 0.3 + 0.7 * (45.0_f32.to_radians()).cos();
    let expect = |c: f32| (c * light) as u8;
    assert_eq!(&bytes[0..4], &[expect(90.0), expect(130.0), expect(80.0), 255]);
    assert_eq!(&bytes[4..8], &[0, 0, 0, 0]);
    assert_eq!(&bytes[8..12], &[expect(250.0), expect(250.0), expect(252.0), 255]);
}

#[test]
fn slopes_to_the_sun_are_brighter() {
    let dem = picture(&["55"]);
    let steep = [s(30.0), s(30.0)];
    let bytes = hill_bytes(&M, &dem, &steep, &[s(315.0), s(135.0)]);
    assert!(bytes[0] > bytes[4]);
}

#[test]
fn hillshades_are_png_files() {
    let dem = picture(&["12", "3.", "56"]);
    let sa = slope_aspect(&M, &dem);
    let png = render(&M, &dem, &sa.slope_deg, &sa.aspect_deg).unwrap();
    let img = image::load_from_memory(&png).unwrap().to_rgba8();
    assert_eq!(img.dimensions(), (2, 3));
    assert_eq!(img.into_raw(), hill_bytes(&M, &dem, &sa.slope_deg, &sa.aspect_deg));
}

#[test]
fn images_without_pixels_are_refused() {
    let dem = Dem::new(0, 0, s(1.0), LV95::new(d(0.0), d(0.0)));
    assert!(render(&M, &dem, &[], &[]).is_err());
}

#[test]
fn masks_show_clearance() {
    let dem = grid(1, 3, 25.0, |_, _| 0.0);
    let p = GlideParams {
        glide_ratio: s(1.0),
        safety_buffer_m: s(0.0),
        takeoff_initial_agl_m: s(0.0),
        ..Default::default()
    };
    let reached = flood(&M, &dem, &launch(1, 0, 0, 40.0), &p);
    let bytes = mask_bytes(&M, &dem, &reached);
    // 40 m of 40 m: deepest red; 15 m of 40 m; out of reach.
    assert_eq!(&bytes[0..4], &[245, 40, 30, 200]);
    assert_eq!(&bytes[4..8], &[226, 96, 48, 143]);
    assert_eq!(&bytes[8..12], &[0, 0, 0, 0]);
    let png = reachability_mask_png(&M, &dem, &reached).unwrap();
    let img = image::load_from_memory(&png).unwrap().to_rgba8();
    assert_eq!(img.into_raw(), bytes);
}

#[test]
fn footprints_are_found_by_id() {
    let dem = grid(9, 9, 25.0, |_, _| 0.0);
    let launches = [launch(3, 4, 4, 50.0), launch(5, 0, 0, 60.0)];
    assert_eq!(find_launch(&launches, 5), Some(1));
    assert_eq!(find_launch(&launches, 4), None);
    let q = ReachQuery { use_wind: 0, ..Default::default() };
    assert!(footprint(&M, &dem, &launches, 4, &q).is_none());
    let png = footprint(&M, &dem, &launches, 5, &q).unwrap().unwrap();
    let direct = flood(&M, &dem, &launches[1], &glide_params(s(8.0), None));
    assert_eq!(png, reachability_mask_png(&M, &dem, &direct).unwrap());
    let sum = flood_summary(&M, &dem, &launches[1], &glide_params(s(8.0), None));
    assert_eq!(sum.reachable_cells, direct.reachable_cells);
}

// Command lines.

fn list(args: &[&str]) -> Vec<String> {
    args.iter().map(|a| a.to_string()).collect()
}

fn run(program: Program, args: &[&str]) -> AreaArgs {
    match parse_args(&M, program, &list(args)) {
        AreaOutcome::Run(a) => a,
        other => panic!("{:?}", other),
    }
}

fn complaint(program: Program, args: &[&str]) -> String {
    match parse_args(&M, program, &list(args)) {
        AreaOutcome::Fail(e) => e,
        other => panic!("{:?}", other),
    }
}

#[test]
fn command_lines_have_defaults() {
    let a = run(Program::Trails, &[]);
    assert_eq!(a.bbox.map(g), [7.0, 46.4, 8.5, 47.0]);
    assert_eq!((a.min_sac, a.out.as_str()), (SacScale::T2MountainHiking, "trails.json"));
    assert_eq!(run(Program::Lifts, &[]).out, "lifts.json");
    assert_eq!(run(Program::Warnings, &[]).out, "warnings.json");
    assert!(!run(Program::Warnings, &["--no-airports"]).include_airports);
}

#[test]
fn command_lines_set_what_they_name() {
    let a = run(
        Program::Trails,
        &["--bbox", "1,2,3,4.5", "--min-sac", "T4", "--out", "x.json", "--out", "y.json"],
    );
    assert_eq!(a.bbox.map(g), [1.0, 2.0, 3.0, 4.5]);
    assert_eq!((a.min_sac, a.out.as_str()), (SacScale::T4AlpineHiking, "y.json"));
    assert!(matches!(
        parse_args(&M, Program::Lifts, &list(&["--out", "a", "-h", "junk"])),
        AreaOutcome::Help
    ));
    assert!(matches!(parse_args(&M, Program::Lifts, &list(&["--help"])), AreaOutcome::Help));
}

#[test]
fn wrong_command_lines_are_explained() {
    let bbox = |v: &str| complaint(Program::Trails, &["--bbox", v]);
    assert_eq!(bbox("1,2,3"), "--bbox needs 4 numbers");
    assert_eq!(bbox("1,x,3,y"), "lat_min: invalid float literal");
    assert_eq!(bbox("1,2,3,"), "lat_max: cannot parse float from empty string");
    assert_eq!(complaint(Program::Trails, &["--bbox"]), "--bbox needs 4 numbers");
    assert_eq!(
        complaint(Program::Lifts, &["--bbox"]),
        "--bbox needs lon_min,lat_min,lon_max,lat_max"
    );
    assert_eq!(complaint(Program::Trails, &["--min-sac"]), "--min-sac needs T1..T6");
    assert_eq!(complaint(Program::Trails, &["--min-sac", "T7"]), "unknown sac level: T7");
    assert_eq!(complaint(Program::Lifts, &["--min-sac", "T2"]), "unknown arg: --min-sac");
    assert_eq!(complaint(Program::Lifts, &["--no-airports"]), "unknown arg: --no-airports");
    assert_eq!(complaint(Program::Warnings, &["--out"]), "--out needs path");
}

#[test]
fn scales_are_read_by_number_and_name() {
    assert_eq!(parse_sac("T1"), Ok(SacScale::T1Hiking));
    assert_eq!(parse_sac("T6"), Ok(SacScale::T6DifficultAlpine));
    assert_eq!(parse_sac("alpine_hiking"), Ok(SacScale::T4AlpineHiking));
    assert_eq!(parse_sac("t1"), Err("unknown sac level: t1".to_string()));
}

#[test]
fn fetch_command_lines_are_read_in_order() {
    let (flags, end) = parse_fetch_args(
        &M,
        &list(&[
            "--peaks", "a.json", "--peak-box", "2000", "--peaks", "b.json", "--bbox-lv95",
            "1,2,3,4", "--cell", "12.5", "--out", "o", "--cache-dir", "c", "--preset",
            "bern-oberland",
        ]),
    );
    assert!(matches!(end, Ending::Done));
    assert_eq!(flags.len(), 7);
    assert!(matches!(&flags[0], Flag::Peaks(p, h) if p == "a.json" && g(*h) == 750.0));
    assert!(matches!(&flags[1], Flag::Peaks(p, h) if p == "b.json" && g(*h) == 1000.0));
    assert!(matches!(&flags[2], Flag::Bbox(b) if g(b.e_min) == 1.0 && g(b.n_max) == 4.0));
    assert!(matches!(&flags[3], Flag::Cell(c) if f(*c) == 12.5));
    assert!(matches!(&flags[4], Flag::Out(p) if p == "o"));
    assert!(matches!(&flags[5], Flag::CacheDir(p) if p == "c"));
    assert!(matches!(&flags[6], Flag::Preset(boxes) if boxes.len() == 16));
}

#[test]
fn wrong_fetch_command_lines_are_explained() {
    let end = |args: &[&str]| match parse_fetch_args(&M, &list(args)).1 {
        Ending::Fail(e) => e,
        other => panic!("{:?}", other),
    };
    assert_eq!(end(&["--peaks"]), "--peaks needs a path");
    assert_eq!(end(&["--peak-box"]), "--peak-box needs meters");
    assert_eq!(end(&["--peak-box", ""]), "peak-box: cannot parse float from empty string");
    assert_eq!(end(&["--bbox-lv95"]), "--bbox-lv95 needs e_min,n_min,e_max,n_max");
    assert_eq!(end(&["--bbox-lv95", "1,2"]), "--bbox-lv95 needs 4 comma-separated numbers");
    assert_eq!(end(&["--bbox-lv95", "1,2,3,z"]), "n_max: invalid float literal");
    assert_eq!(end(&["--preset"]), "--preset needs a name");
    assert_eq!(end(&["--preset", "jura"]), "unknown preset: jura; try 'bern-oberland'");
    assert_eq!(end(&["--cell"]), "--cell needs value");
    assert_eq!(end(&["--cell", "x"]), "cell: invalid float literal");
    assert_eq!(end(&["--out"]), "--out needs value");
    assert_eq!(end(&["--cache-dir"]), "--cache-dir needs value");
    assert_eq!(end(&["--what"]), "unknown argument: --what");
    let (flags, help) = parse_fetch_args(&M, &list(&["--out", "o", "--help", "--what"]));
    assert_eq!(flags.len(), 1);
    assert!(matches!(help, Ending::Help));
}

#[test]
fn presets_are_squares_of_three_kilometers() {
    let boxes = preset(&M, "bern-oberland").unwrap();
    assert_eq!(boxes[0].0, "Niederhorn");
    assert_eq!(g(boxes[0].1.e_min), 2_626_270.0);
    assert_eq!(g(boxes[0].1.n_max), 1_176_110.0);
    assert_eq!(boxes[15].0, "Chasseral");
    for (_, b) in &boxes {
        assert_eq!(g(b.e_max) - g(b.e_min), 3000.0);
        assert_eq!(g(b.n_max) - g(b.n_min), 3000.0);
    }
    assert!(preset(&M, "valais").is_err());
}

#[test]
fn peaks_are_centered_in_their_squares() {
    let peak = PeakDef { name: "P".to_string(), lat: d(46.7), lon: d(7.8), ele: d(0.0) };
    let (e, n) = wgs84_to_lv95(&M, d(7.8), d(46.7));
    let boxes = peak_boxes(&M, &[peak], d(750.0));
    assert_eq!(boxes[0].0, "P");
    assert_eq!((g(boxes[0].1.e_min), g(boxes[0].1.e_max)), (g(e) - 750.0, g(e) + 750.0));
    assert_eq!((g(boxes[0].1.n_min), g(boxes[0].1.n_max)), (g(n) - 750.0, g(n) + 750.0));
}

#[test]
fn the_last_flag_of_a_kind_counts() {
    let gather = |args: &[&str], peaks: Vec<Vec<(String, BBox)>>| {
        let (flags, ending) = parse_fetch_args(&M, &list(args));
        gather_args(flags, ending, peaks)
    };
    let a = gather(&[], vec![]).unwrap().unwrap();
    assert_eq!((f(a.cell), a.out.as_str(), a.cache_dir.as_str()), (25.0, "region.bin", "cache"));
    assert!(matches!(a.mode, Mode::Single(b) if g(b.e_min) == 2_626_500.0));
    let a = gather(
        &[
            "--cell", "5", "--out", "a", "--cell", "10", "--bbox-lv95", "1,2,3,4", "--out", "b",
            "--cache-dir", "c", "--bbox-lv95", "5,6,7,8",
        ],
        vec![],
    )
    .unwrap()
    .unwrap();
    assert_eq!((f(a.cell), a.out.as_str(), a.cache_dir.as_str()), (10.0, "b", "c"));
    assert!(matches!(a.mode, Mode::Single(b) if g(b.n_max) == 8.0));
    let bbox = BBox { e_min: d(0.0), n_min: d(0.0), e_max: d(1.0), n_max: d(1.0) };
    let files = vec![vec![], vec![("Niesen".to_string(), bbox)]];
    let a = gather(&["--peaks", "x", "--peaks", "y"], files).unwrap().unwrap();
    assert!(matches!(a.mode, Mode::Peaks(list) if list.len() == 1 && list[0].0 == "Niesen"));
    assert_eq!(
        gather(&["--peaks", "x", "--preset", "bern-oberland"], vec![vec![]]).unwrap_err(),
        "--preset, --bbox-lv95 and --peaks are mutually exclusive"
    );
    assert!(gather(&["--help"], vec![]).unwrap().is_none());
    assert_eq!(gather(&["--cell"], vec![]).unwrap_err(), "--cell needs value");
}

#[test]
fn one_thing_is_fetched_at_a_time() {
    let b = BBox { e_min: d(1.0), n_min: d(2.0), e_max: d(3.0), n_max: d(4.0) };
    assert!(matches!(choose_mode(None, Some(b), None), Ok(Mode::Single(x)) if x == b));
    assert!(matches!(choose_mode(Some(vec![]), None, None), Ok(Mode::Preset(_))));
    assert!(matches!(choose_mode(None, None, Some(vec![])), Ok(Mode::Peaks(_))));
    assert!(
        matches!(choose_mode(None, None, None), Ok(Mode::Single(x)) if g(x.e_min) == 2_626_500.0)
    );
    assert_eq!(
        choose_mode(Some(vec![]), Some(b), None).unwrap_err(),
        "--preset, --bbox-lv95 and --peaks are mutually exclusive"
    );
}

#[test]
fn boxes_turn_into_lv95() {
    let b = lv95_box(&M, [d(7.0), d(46.4), d(8.5), d(47.0)]).map(g);
    assert!(b[0] < b[2] && b[1] < b[3]);
    assert!((b[0] - 2_566_000.0).abs() < 2000.0 && (b[1] - 1_138_000.0).abs() < 2000.0, "{:?}", b);
}

#[test]
fn airports_are_picked_out() {
    let w = |name: &str, kind: WarningKind| Warning {
        name: name.to_string(),
        kind,
        severity: Severity::Low,
        polygon: vec![[d(1.0), d(2.0)]],
    };
    let all = [
        w("a", WarningKind::Airport),
        w("b", WarningKind::AirspaceCtr),
        w("c", WarningKind::Airport),
    ];
    let found = airports(&all);
    assert_eq!(found.iter().map(|x| x.name.as_str()).collect::<Vec<&str>>(), vec!["a", "c"]);
    assert_eq!(found[1].polygon, all[2].polygon);
}

#[test]
fn surveys_put_everything_together() {
    let dem = synthetic_alps_dem(&M);
    let line = trail(&[(2_600_000.0, 1_200_000.0), (2_600_500.0, 1_199_500.0)]);
    let found = survey(&M, &dem, DataSource::Synthetic, &[], &[line]).unwrap();
    let alone = discover(&M, &dem, &DataSource::Synthetic.discovery_params());
    assert_eq!(found.launches.len(), alone.len());
    assert_eq!(cells(&found.trailheads), cells(&pick_trailheads(&dem, 200)));
    assert_eq!(found.trailheads.len(), 1);
    assert_eq!(found.trails.len(), 1);
    assert_eq!(found.hike_with_lifts.seconds, found.hike_without_lifts.seconds);
    let sa = slope_aspect(&M, &dem);
    assert_eq!(found.hillshade_png, render(&M, &dem, &sa.slope_deg, &sa.aspect_deg).unwrap());
    let nothing = Dem::new(0, 0, s(1.0), LV95::new(d(0.0), d(0.0)));
    assert!(survey(&M, &nothing, DataSource::Synthetic, &[], &[]).is_err());
}
