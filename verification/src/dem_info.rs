//! What the map shows: the raster's frame, trailheads, lifts, areas and trails.

use crate::dem::Dem;
use crate::discovery::{
    DiscoveryParams, ARC_HALF_WIDTH, DEDUPE_RADIUS, EAST, MAX_ROUGHNESS, MAX_SLOPE, MIN_SLOPE,
    WEST,
};
use crate::exact_wide::{
    converts, holds, rounds_d, wide_one_and_half, wide_rounding_keeps_sides,
    wide_whole_arithmetic_is_exact, wide_whole_numbers_are_exact,
};
use crate::geom::CellIdx;
use crate::lifts::Lift;
use crate::lv95::lv95_to_wgs84;
use crate::math::{double, minus_d, over, plus_d, steady, times_d, widen, Math};
use crate::ranking::{cell_wgs84, SECONDS_PER_MINUTE};
use crate::scalar::{Double, Single};
use crate::snap::lift_endpoints_to_cells;
use crate::trail_graph::{lies_at, HALF_D};
use crate::trails::{SacScale, TrailSegment};
use crate::warnings::{copy_ring, Warning};
use vstd::prelude::*;

verus! {

/// 4: roughness, in meters, of launches on surveyed terrain.
pub const SURVEYED_ROUGHNESS: u32 = 0x4080_0000;

/// 700: spacing, in meters, of launches on surveyed terrain. Distinct launches
/// sit on different flanks of the same peak, no clusters within walking
/// distance.
pub const SURVEYED_SPACING: u32 = 0x442f_0000;

/// Where the raster comes from.
#[derive(Debug, Clone, Copy, PartialEq, Eq, Structural)]
pub enum DataSource {
    Synthetic,
    SwissALTI3D,
}

impl DataSource {
    /// Name of the source.
    pub open spec fn label(self) -> Seq<char> {
        match self {
            DataSource::Synthetic => "synthetic"@,
            DataSource::SwissALTI3D => "swissalti3d"@,
        }
    }

    /// Name of the source.
    pub fn name(&self) -> (r: &'static str)
        ensures
            r@ == self.label(),
    {
        match self {
            DataSource::Synthetic => "synthetic",
            DataSource::SwissALTI3D => "swissalti3d",
        }
    }

    /// How launches are looked for on a raster of this source.
    pub open spec fn spec_discovery_params(&self) -> DiscoveryParams {
        DiscoveryParams {
            slope_deg_range: (Single { bits: MIN_SLOPE }, Single { bits: MAX_SLOPE }),
            max_roughness_m: match self {
                DataSource::Synthetic => Single { bits: MAX_ROUGHNESS },
                DataSource::SwissALTI3D => Single { bits: SURVEYED_ROUGHNESS },
            },
            aspect_arc: (Single { bits: EAST }, Single { bits: WEST }),
            launch_arc_half_width_deg: Single { bits: ARC_HALF_WIDTH },
            dedupe_radius_m: match self {
                DataSource::Synthetic => Single { bits: DEDUPE_RADIUS },
                DataSource::SwissALTI3D => Single { bits: SURVEYED_SPACING },
            },
            max_launches: match self {
                DataSource::Synthetic => 80,
                DataSource::SwissALTI3D => 600,
            },
        }
    }

    /// How launches are looked for on a raster of this source.
    #[verifier::when_used_as_spec(spec_discovery_params)]
    pub fn discovery_params(&self) -> (r: DiscoveryParams)
        ensures
            r == self.discovery_params(),
    {
        let mut p = DiscoveryParams::default();
        match self {
            DataSource::Synthetic => {
                p.max_launches = 80;
            },
            DataSource::SwissALTI3D => {
                p.max_launches = 600;
                p.max_roughness_m = Single { bits: SURVEYED_ROUGHNESS };
                p.dedupe_radius_m = Single { bits: SURVEYED_SPACING };
            },
        }
        p
    }
}

/// LV95 bbox of the raster: west, south, east and north edge.
pub open spec fn spec_dem_bbox_lv95<M: Math>(m: &M, dem: &Dem) -> (Double, Double, Double, Double) {
    let cs = widen(m, dem.cell_size_m);
    let half = times_d(m, cs, Double { bits: HALF_D });
    let e_min = minus_d(m, dem.origin.e, half);
    let n_max = plus_d(m, dem.origin.n, half);
    (
        e_min,
        minus_d(m, n_max, times_d(m, cs, double(m, dem.rows as i128))),
        plus_d(m, e_min, times_d(m, cs, double(m, dem.cols as i128))),
        n_max,
    )
}

/// LV95 bbox of the raster: west, south, east and north edge.
#[verifier::when_used_as_spec(spec_dem_bbox_lv95)]
pub fn dem_bbox_lv95<M: Math>(m: &M, dem: &Dem) -> (r: (Double, Double, Double, Double))
    requires
        steady(m),
    ensures
        r == dem_bbox_lv95(m, dem),
{
    let cs = widen(m, dem.cell_size_m);
    let half = times_d(m, cs, Double { bits: HALF_D });
    // The origin is the LV95 of cell (0, 0)'s center. Cell (0, 0) is the NW
    // corner of the raster; row index increases southward.
    let e_min = minus_d(m, dem.origin.e, half);
    let n_max = plus_d(m, dem.origin.n, half);
    let e_max = plus_d(m, e_min, times_d(m, cs, double(m, dem.cols as i128)));
    let n_min = minus_d(m, n_max, times_d(m, cs, double(m, dem.rows as i128)));
    (e_min, n_min, e_max, n_max)
}

/// A trailhead on the map.
#[derive(Debug, Clone, Copy)]
pub struct TrailheadOut {
    pub row: u32,
    pub col: u32,
    pub lon: Double,
    pub lat: Double,
    pub alt_m: Single,
}

/// A trailhead on the map; altitude 0 where there is no terrain.
pub open spec fn spec_trailhead_out<M: Math>(m: &M, dem: &Dem, cell: CellIdx) -> TrailheadOut {
    let (lon, lat) = cell_wgs84(m, dem, cell);
    TrailheadOut {
        row: cell.row,
        col: cell.col,
        lon,
        lat,
        alt_m: if dem.known(cell.row as int, cell.col as int) {
            dem.at(cell.row as int, cell.col as int)
        } else {
            Single { bits: 0 }
        },
    }
}

/// A trailhead on the map.
#[verifier::when_used_as_spec(spec_trailhead_out)]
pub fn trailhead_out<M: Math>(m: &M, dem: &Dem, cell: CellIdx) -> (r: TrailheadOut)
    requires
        steady(m),
        dem.wf(),
    ensures
        r == trailhead_out(m, dem, cell),
{
    let (lon, lat) = cell_wgs84(m, dem, cell);
    let alt_m = match dem.get(cell.row, cell.col) {
        Some(z) => z,
        None => Single::zero(),
    };
    TrailheadOut { row: cell.row, col: cell.col, lon, lat, alt_m }
}

/// A lift on the map.
#[derive(Debug)]
pub struct LiftOut {
    pub name: String,
    pub kind: String,
    /// Lower endpoint (lat, lon).
    pub lower: [Double; 2],
    /// Upper endpoint (lat, lon).
    pub upper: [Double; 2],
    pub travel_minutes: Single,
}

/// Whether a lift's ends have to change places for its lower end to be the lower
/// one: both have terrain, and that of the lower end is not at most that of the
/// upper one.
pub open spec fn upside_down<M: Math>(m: &M, dem: &Dem, lift: &Lift) -> bool {
    lift_endpoints_to_cells(m, dem, lift) matches Some((_, _, lo_alt, hi_alt)) && !lo_alt.at_most(
        hi_alt,
    )
}

/// Whether `out` shows a lift, from bottom to top.
pub open spec fn shows_lift<M: Math>(m: &M, dem: &Dem, lift: &Lift, out: LiftOut) -> bool {
    let lower = [lift.lower.lat, lift.lower.lon];
    let upper = [lift.upper.lat, lift.upper.lon];
    &&& out.name@ == lift.name@
    &&& out.kind@ == lift.kind.label()
    &&& out.lower == if upside_down(m, dem, lift) { upper } else { lower }
    &&& out.upper == if upside_down(m, dem, lift) { lower } else { upper }
    &&& out.travel_minutes == over(m, lift.travel_seconds, Single { bits: SECONDS_PER_MINUTE })
}

/// A lift on the map. Its lower and upper endpoint are resolved by terrain
/// altitude, so that it runs from bottom to top.
pub fn lift_out<M: Math>(m: &M, dem: &Dem, lift: &Lift) -> (r: LiftOut)
    requires
        steady(m),
        dem.wf(),
    ensures
        shows_lift(m, dem, lift, r),
{
    let lower = [lift.lower.lat, lift.lower.lon];
    let upper = [lift.upper.lat, lift.upper.lon];
    let (bottom, top) = match lift_endpoints_to_cells(m, dem, lift) {
        Some((_, _, lo_alt, hi_alt)) => {
            if lo_alt.le(&hi_alt) {
                (lower, upper)
            } else {
                (upper, lower)
            }
        },
        None => (lower, upper),
    };
    LiftOut {
        name: lift.name.clone(),
        kind: lift.kind.name().to_owned(),
        lower: bottom,
        upper: top,
        travel_minutes: over(m, lift.travel_seconds, Single { bits: SECONDS_PER_MINUTE }),
    }
}

/// A restricted area on the map.
#[derive(Debug)]
pub struct WarningOut {
    pub name: String,
    pub kind: String,
    pub severity: String,
    /// Polygon ring [[lat, lon], ...].
    pub polygon: Vec<[Double; 2]>,
}

/// Whether `out` shows a restricted area.
pub open spec fn shows_warning(w: &Warning, out: WarningOut) -> bool {
    &&& out.name@ == w.name@
    &&& out.kind@ == w.kind.label()
    &&& out.severity@ == w.severity.label()
    &&& out.polygon@ == w.polygon@
}

/// A restricted area on the map.
pub fn warning_out(w: &Warning) -> (r: WarningOut)
    ensures
        shows_warning(w, r),
{
    WarningOut {
        name: w.name.clone(),
        kind: w.kind.name().to_owned(),
        severity: w.severity.name().to_owned(),
        polygon: copy_ring(&w.polygon),
    }
}

/// A trail on the map.
#[derive(Debug)]
pub struct TrailOut {
    pub sac: &'static str,
    /// Points [lat, lon].
    pub points: Vec<[Double; 2]>,
}

/// Short name of a scale.
pub open spec fn sac_label(sac: SacScale) -> Seq<char> {
    match sac {
        SacScale::T1Hiking => "T1"@,
        SacScale::T2MountainHiking => "T2"@,
        SacScale::T3DemandingMountain => "T3"@,
        SacScale::T4AlpineHiking => "T4"@,
        SacScale::T5DemandingAlpine => "T5"@,
        SacScale::T6DifficultAlpine => "T6"@,
    }
}

/// A point of a trail as [lat, lon].
pub open spec fn trail_point<M: Math>(m: &M, p: [Double; 2]) -> [Double; 2] {
    let (lon, lat) = lv95_to_wgs84(m, p[0], p[1]);
    [lat, lon]
}

/// Whether `out` shows a trail.
pub open spec fn shows_trail<M: Math>(m: &M, trail: &TrailSegment, out: TrailOut) -> bool {
    &&& out.sac@ == sac_label(trail.sac)
    &&& out.points@ == trail.points@.map_values(|p: [Double; 2]| trail_point(m, p))
}

/// A trail on the map.
pub fn trail_out<M: Math>(m: &M, trail: &TrailSegment) -> (r: TrailOut)
    requires
        steady(m),
    ensures
        shows_trail(m, trail, r),
{
    let sac = match trail.sac {
        SacScale::T1Hiking => "T1",
        SacScale::T2MountainHiking => "T2",
        SacScale::T3DemandingMountain => "T3",
        SacScale::T4AlpineHiking => "T4",
        SacScale::T5DemandingAlpine => "T5",
        SacScale::T6DifficultAlpine => "T6",
    };
    let ghost all = trail.points@.map_values(|p: [Double; 2]| trail_point(m, p));
    let mut points: Vec<[Double; 2]> = Vec::new();
    let mut i: usize = 0;
    while i < trail.points.len()
        invariant
            steady(m),
            all == trail.points@.map_values(|p: [Double; 2]| trail_point(m, p)),
            i <= trail.points@.len(),
            points@ == all.take(i as int),
        decreases trail.points@.len() - i,
    {
        let p = trail.points[i];
        let (lon, lat) = lv95_to_wgs84(m, p[0], p[1]);
        points.push([lat, lon]);
        assert(points@ =~= all.take(i + 1));
        i = i + 1;
    }
    assert(all.take(i as int) =~= all);
    TrailOut { sac, points }
}

/// What the map shows of a raster and of what lies on it.
#[derive(Debug)]
pub struct DemInfo {
    pub rows: u32,
    pub cols: u32,
    pub cell_size_m: Single,
    /// 'synthetic' or 'swissalti3d'.
    pub source: &'static str,
    /// LV95 bbox of the rendered region.
    pub bbox_lv95: [Double; 4],
    /// WGS84 bbox of the rendered region (lon_min, lat_min, lon_max, lat_max).
    pub bbox_wgs84: [Double; 4],
    /// Approximate 4 corners in lat/lon for an image overlay (NW, NE, SE, SW).
    pub corners_wgs84: [[Double; 2]; 4],
    /// Auto-detected trailheads, one per non-NaN connected component.
    pub trailheads: Vec<TrailheadOut>,
    /// Cable cars / funiculars / cog railways available as fast access.
    pub lifts: Vec<LiftOut>,
    /// Restricted-area polygons (Wildruhezonen, nature reserves, airports).
    pub warnings: Vec<WarningOut>,
}

/// Whether `info` is what the map shows.
pub open spec fn is_dem_info<M: Math>(
    m: &M,
    dem: &Dem,
    source: DataSource,
    trailheads: Seq<CellIdx>,
    lifts: Seq<Lift>,
    warnings: Seq<Warning>,
    info: DemInfo,
) -> bool {
    let (e_min, n_min, e_max, n_max) = dem_bbox_lv95(m, dem);
    let nw = lv95_to_wgs84(m, e_min, n_max);
    let ne = lv95_to_wgs84(m, e_max, n_max);
    let se = lv95_to_wgs84(m, e_max, n_min);
    let sw = lv95_to_wgs84(m, e_min, n_min);
    &&& info.rows == dem.rows
    &&& info.cols == dem.cols
    &&& info.cell_size_m == dem.cell_size_m
    &&& info.source@ == source.label()
    &&& info.bbox_lv95 == [e_min, n_min, e_max, n_max]
    &&& info.bbox_wgs84 == [
        nw.0.min(ne.0).min(se.0).min(sw.0),
        nw.1.min(ne.1).min(se.1).min(sw.1),
        nw.0.max(ne.0).max(se.0).max(sw.0),
        nw.1.max(ne.1).max(se.1).max(sw.1),
    ]
    &&& info.corners_wgs84 == [[nw.1, nw.0], [ne.1, ne.0], [se.1, se.0], [sw.1, sw.0]]
    &&& info.trailheads@ == trailheads.map_values(|c: CellIdx| trailhead_out(m, dem, c))
    &&& info.lifts@.len() == lifts.len()
    &&& forall|i: int|
        0 <= i < lifts.len() ==> shows_lift(m, dem, &lifts[i], #[trigger] info.lifts@[i])
    &&& info.warnings@.len() == warnings.len()
    &&& forall|i: int|
        0 <= i < warnings.len() ==> shows_warning(&warnings[i], #[trigger] info.warnings@[i])
}

/// What the map shows. All 4 corners are projected separately, for accurate
/// overlay placement.
pub fn dem_info<M: Math>(
    m: &M,
    dem: &Dem,
    source: DataSource,
    trailheads: &[CellIdx],
    lifts: &[Lift],
    warnings: &[Warning],
) -> (r: DemInfo)
    requires
        steady(m),
        dem.wf(),
    ensures
        is_dem_info(m, dem, source, trailheads@, lifts@, warnings@, r),
{
    let (e_min, n_min, e_max, n_max) = dem_bbox_lv95(m, dem);
    let nw = lv95_to_wgs84(m, e_min, n_max);
    let ne = lv95_to_wgs84(m, e_max, n_max);
    let se = lv95_to_wgs84(m, e_max, n_min);
    let sw = lv95_to_wgs84(m, e_min, n_min);
    let ghost heads_spec = trailheads@.map_values(|c: CellIdx| trailhead_out(m, dem, c));
    let mut heads: Vec<TrailheadOut> = Vec::new();
    let mut i: usize = 0;
    while i < trailheads.len()
        invariant
            steady(m),
            dem.wf(),
            heads_spec == trailheads@.map_values(|c: CellIdx| trailhead_out(m, dem, c)),
            i <= trailheads@.len(),
            heads@ == heads_spec.take(i as int),
        decreases trailheads@.len() - i,
    {
        heads.push(trailhead_out(m, dem, trailheads[i]));
        assert(heads@ =~= heads_spec.take(i + 1));
        i = i + 1;
    }
    assert(heads_spec.take(i as int) =~= heads_spec);
    let mut lines: Vec<LiftOut> = Vec::new();
    let mut k: usize = 0;
    while k < lifts.len()
        invariant
            steady(m),
            dem.wf(),
            k <= lifts@.len(),
            lines@.len() == k,
            forall|j: int|
                0 <= j < k ==> shows_lift(m, dem, &lifts@[j], #[trigger] lines@[j]),
        decreases lifts@.len() - k,
    {
        lines.push(lift_out(m, dem, &lifts[k]));
        k = k + 1;
    }
    let mut areas: Vec<WarningOut> = Vec::new();
    let mut w: usize = 0;
    while w < warnings.len()
        invariant
            w <= warnings@.len(),
            areas@.len() == w,
            forall|j: int| 0 <= j < w ==> shows_warning(&warnings@[j], #[trigger] areas@[j]),
        decreases warnings@.len() - w,
    {
        areas.push(warning_out(&warnings[w]));
        w = w + 1;
    }
    DemInfo {
        rows: dem.rows,
        cols: dem.cols,
        cell_size_m: dem.cell_size_m,
        source: source.name(),
        bbox_lv95: [e_min, n_min, e_max, n_max],
        bbox_wgs84: [
            nw.0.min(ne.0).min(se.0).min(sw.0),
            nw.1.min(ne.1).min(se.1).min(sw.1),
            nw.0.max(ne.0).max(se.0).max(sw.0),
            nw.1.max(ne.1).max(se.1).max(sw.1),
        ],
        corners_wgs84: [[nw.1, nw.0], [ne.1, ne.0], [se.1, se.0], [sw.1, sw.0]],
        trailheads: heads,
        lifts: lines,
        warnings: areas,
    }
}

/// The corners of the map lie in its WGS84 bbox, where their coordinates are
/// numbers.
pub proof fn bbox_holds_the_corners<M: Math>(
    m: &M,
    dem: &Dem,
    source: DataSource,
    trailheads: Seq<CellIdx>,
    lifts: Seq<Lift>,
    warnings: Seq<Warning>,
    info: DemInfo,
    k: int,
)
    requires
        is_dem_info(m, dem, source, trailheads, lifts, warnings, info),
        0 <= k < 4,
        !info.corners_wgs84[k][0].nan(),
        !info.corners_wgs84[k][1].nan(),
    ensures
        info.bbox_wgs84[0].at_most(info.corners_wgs84[k][1]),
        info.corners_wgs84[k][1].at_most(info.bbox_wgs84[2]),
        info.bbox_wgs84[1].at_most(info.corners_wgs84[k][0]),
        info.corners_wgs84[k][0].at_most(info.bbox_wgs84[3]),
{
}

/// A raster reaches from half a cell west and north of the center of its first
/// cell, by as many cells as it has columns and rows, to the east and to the
/// south. Stated where half a cell is a whole number of meters.
pub proof fn rasters_reach_round_all_their_cells<M: Math>(
    m: &M,
    rnd: spec_fn(real) -> int,
    wide: spec_fn(real) -> int,
    dem: &Dem,
    e: int,
    n: int,
    half: int,
)
    requires
        rounds_d(m, wide),
        converts(m, rnd),
        lies_at(dem, e, n, 2 * half),
        dem.rows <= 0x10_0000 && dem.cols <= 0x10_0000,
    ensures
        ({
            let bbox = dem_bbox_lv95(m, dem);
            &&& holds(bbox.0, e - half)
            &&& holds(bbox.1, n + half - 2 * half * dem.rows)
            &&& holds(bbox.2, e - half + 2 * half * dem.cols)
            &&& holds(bbox.3, n + half)
        }),
{
    wide_one_and_half();
    let side = 2 * half;
    let cs = widen(m, dem.cell_size_m);
    let h = wide_whole_numbers_are_exact(m, wide, half);
    let x = times_d(m, cs, Double { bits: 0x3fe0_0000_0000_0000 });
    wide_rounding_keeps_sides(m, wide, x, (side as real) * (1real / 2real), h);
    wide_whole_arithmetic_is_exact(m, wide, dem.origin.e, e, x, half);
    wide_whole_arithmetic_is_exact(m, wide, dem.origin.n, n, x, half);
    let (r, c) = (
        wide_whole_numbers_are_exact(m, wide, dem.rows as int),
        wide_whole_numbers_are_exact(m, wide, dem.cols as int),
    );
    let (rows, cols) = (dem.rows as int, dem.cols as int);
    assert(0 <= side * rows <= 0x100_0000_0000 && 0 <= side * cols <= 0x100_0000_0000)
        by (nonlinear_arith)
        requires
            0 <= side <= 0x10_0000,
            0 <= rows <= 0x10_0000,
            0 <= cols <= 0x10_0000,
    ;
    wide_whole_arithmetic_is_exact(m, wide, cs, side, r, rows);
    wide_whole_arithmetic_is_exact(m, wide, cs, side, c, cols);
    let bbox = dem_bbox_lv95(m, dem);
    wide_whole_arithmetic_is_exact(
        m,
        wide,
        plus_d(m, dem.origin.n, x),
        n + half,
        times_d(m, cs, r),
        side * rows,
    );
    wide_whole_arithmetic_is_exact(
        m,
        wide,
        minus_d(m, dem.origin.e, x),
        e - half,
        times_d(m, cs, c),
        side * cols,
    );
}

} // verus!
