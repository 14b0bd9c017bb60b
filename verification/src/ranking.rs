//! The ranking of launches that a user asks for.

use crate::dem::{lemma_flat_in_range, Dem};
use crate::exact::{
    counts, digits_bound_the_value, rounding_keeps_sides, rounds, whole_numbers_are_exact,
};
use crate::exact_wide::{converts, holds, rounds_d, wide_million, wide_whole_quotients_are_exact};
use crate::geom::CellIdx;
use crate::glide::FloodSummary;
use crate::hike::HikeField;
use crate::launch::Launch;
use crate::lv95::lv95_to_wgs84;
use crate::math::{narrow, over, over_d, powf, steady, times, Math};
use crate::no_fly::are_areas;
use crate::queries::ScoreQuery;
use crate::scalar::{Double, Single, ONE, THOUSAND};
use crate::score::{factor_of, glide_value_of, score_launch, GlideStats, ScoringParams};
use crate::sort::{covers, in_order, sorted_order};
use crate::trail_graph::cell_to_lv95;
use crate::warnings::Warning;
use crate::wind::Wind;
use vstd::arithmetic::power2::lemma2_to64;
use vstd::prelude::*;

verus! {

/// 60.
pub const SECONDS_PER_MINUTE: u32 = 0x4270_0000;

/// 1000000: square meters in a square kilometer.
pub const M2_PER_KM2: u64 = 0x412e_8480_0000_0000;

/// A restricted area, as a row of the ranking shows it.
#[derive(Debug)]
pub struct LaunchWarningOut {
    pub name: String,
    pub kind: String,
    pub severity: String,
}

/// A row of the ranking.
#[derive(Debug)]
pub struct LaunchOut {
    pub id: u32,
    pub row: u32,
    pub col: u32,
    /// LV95 east of cell center.
    pub e: Double,
    /// LV95 north of cell center.
    pub n: Double,
    /// WGS84 longitude of cell center.
    pub lon: Double,
    /// WGS84 latitude of cell center.
    pub lat: Double,
    pub alt_m: Single,
    pub aspect_deg: Single,
    pub slope_deg: Single,
    pub glide_value: Single,
    pub glide_distance_km: Single,
    pub glide_area_km2: Single,
    pub hike_minutes: Single,
    pub wind_factor: Single,
    pub score: Single,
    /// Lat/lon of the farthest-reached ground cell (None if unreachable).
    pub farthest_lat: Option<Double>,
    pub farthest_lon: Option<Double>,
    /// Severity tags of warning polygons this launch sits inside.
    pub warnings: Vec<LaunchWarningOut>,
}

/// What a `LaunchWarningOut` holds: name, kind and severity.
pub type TagModel = (Seq<char>, Seq<char>, Seq<char>);

impl LaunchWarningOut {
    pub open spec fn model(self) -> TagModel {
        (self.name@, self.kind@, self.severity@)
    }
}

/// What a list of areas holds.
pub open spec fn tag_models(tags: Seq<LaunchWarningOut>) -> Seq<TagModel> {
    tags.map_values(|t: LaunchWarningOut| t.model())
}

/// What the areas of a launch are shown as.
pub open spec fn tags_of(warnings: Seq<Warning>, areas: Seq<u32>) -> Seq<TagModel> {
    areas.map_values(
        |a: u32|
            {
                let w = warnings[a as int];
                (w.name@, w.kind.label(), w.severity.label())
            },
    )
}

/// Seconds of the hike to a launch; infinitely many where it is not reached.
pub open spec fn hike_seconds_of(dem: &Dem, hike: Seq<Single>, launch: &Launch) -> Single {
    let h = hike[dem.pos(launch.cell)];
    if h.finite() {
        h
    } else {
        Single { bits: 0x7f80_0000 }
    }
}

/// Score of a launch, before what is not finite becomes 0.
pub open spec fn raw_score<M: Math>(
    m: &M,
    launch: &Launch,
    glide: &GlideStats,
    hike_seconds: Single,
    wind: Option<Wind>,
    p: &ScoringParams,
) -> Single {
    times(
        m,
        over(
            m,
            glide_value_of(m, glide, p.metric),
            powf(m, hike_seconds.max(Single { bits: ONE }), p.alpha),
        ),
        factor_of(m, launch, wind, p),
    )
}

/// What counts of a flood.
pub open spec fn stats_of(f: FloodSummary) -> GlideStats {
    GlideStats { max_distance_m: f.max_distance_m, area_m2: f.area_m2 }
}

/// Score that a launch is ranked by.
pub open spec fn score_of<M: Math>(
    m: &M,
    dem: &Dem,
    launch: &Launch,
    f: FloodSummary,
    hike: Seq<Single>,
    q: &ScoreQuery,
) -> Single {
    let s = raw_score(
        m,
        launch,
        &stats_of(f),
        hike_seconds_of(dem, hike, launch),
        q.wind(),
        &q.scoring(),
    );
    if s.finite() {
        s
    } else {
        Single { bits: 0 }
    }
}

/// WGS84 longitude and latitude of a cell's center.
pub open spec fn spec_cell_wgs84<M: Math>(m: &M, dem: &Dem, cell: CellIdx) -> (Double, Double) {
    let (e, n) = cell_to_lv95(m, dem, cell);
    lv95_to_wgs84(m, e, n)
}

/// WGS84 longitude and latitude of a cell's center.
#[verifier::when_used_as_spec(spec_cell_wgs84)]
pub fn cell_wgs84<M: Math>(m: &M, dem: &Dem, cell: CellIdx) -> (r: (Double, Double))
    requires
        steady(m),
    ensures
        r == cell_wgs84(m, dem, cell),
{
    let (e, n) = cell_to_lv95(m, dem, cell);
    lv95_to_wgs84(m, e, n)
}

/// Whether `out` is the row of a launch.
pub open spec fn is_row<M: Math>(
    m: &M,
    dem: &Dem,
    launch: &Launch,
    f: FloodSummary,
    hike: Seq<Single>,
    q: &ScoreQuery,
    warnings: Seq<Warning>,
    areas: Seq<u32>,
    out: LaunchOut,
) -> bool {
    let hike_seconds = hike_seconds_of(dem, hike, launch);
    &&& out.id == launch.id
    &&& out.row == launch.cell.row
    &&& out.col == launch.cell.col
    &&& (out.e, out.n) == cell_to_lv95(m, dem, launch.cell)
    &&& (out.lon, out.lat) == cell_wgs84(m, dem, launch.cell)
    &&& out.alt_m == launch.altitude_m
    &&& out.aspect_deg == launch.aspect_deg
    &&& out.slope_deg == launch.slope_deg
    &&& out.glide_value == glide_value_of(m, &stats_of(f), q.scoring().metric)
    &&& out.glide_distance_km == over(m, f.max_distance_m, Single { bits: THOUSAND })
    &&& out.glide_area_km2 == narrow(m, over_d(m, f.area_m2, Double { bits: M2_PER_KM2 }))
    &&& out.hike_minutes == over(m, hike_seconds, Single { bits: SECONDS_PER_MINUTE })
    &&& out.wind_factor == factor_of(m, launch, q.wind(), &q.scoring())
    &&& out.score == score_of(m, dem, launch, f, hike, q)
    &&& match f.farthest_cell {
        Some(c) => out.farthest_lat == Some(cell_wgs84(m, dem, c).1) && out.farthest_lon == Some(
            cell_wgs84(m, dem, c).0,
        ),
        None => out.farthest_lat is None && out.farthest_lon is None,
    }
    &&& tag_models(out.warnings@) == tags_of(warnings, areas)
}

/// Shows the areas of a launch.
fn tags(warnings: &[Warning], areas: &[u32]) -> (r: Vec<LaunchWarningOut>)
    requires
        are_areas(areas@, warnings@.len()),
    ensures
        tag_models(r@) == tags_of(warnings@, areas@),
{
    let mut out: Vec<LaunchWarningOut> = Vec::new();
    let mut i: usize = 0;
    while i < areas.len()
        invariant
            are_areas(areas@, warnings@.len()),
            i <= areas@.len(),
            tag_models(out@) == tags_of(warnings@, areas@.take(i as int)),
        decreases areas@.len() - i,
    {
        assert(areas@[i as int] < warnings@.len());
        let w = &warnings[areas[i] as usize];
        let ghost before = out@;
        out.push(
            LaunchWarningOut {
                name: w.name.clone(),
                kind: w.kind.name().to_owned(),
                severity: w.severity.name().to_owned(),
            },
        );
        proof {
            let tag = (w.name@, w.kind.label(), w.severity.label());
            assert(tag_models(out@) =~= tag_models(before).push(tag));
            assert(tags_of(warnings@, areas@.take(i + 1)) =~= tags_of(
                warnings@,
                areas@.take(i as int),
            ).push(tag));
        }
        i = i + 1;
    }
    assert(areas@.take(i as int) =~= areas@);
    out
}

/// The row of a launch.
pub fn launch_row<M: Math>(
    m: &M,
    dem: &Dem,
    launch: &Launch,
    f: &FloodSummary,
    hike: &HikeField,
    q: &ScoreQuery,
    warnings: &[Warning],
    areas: &[u32],
) -> (r: LaunchOut)
    requires
        steady(m),
        dem.wf(),
        dem.has_cell(launch.cell),
        hike.seconds@.len() == dem.data@.len(),
        are_areas(areas@, warnings@.len()),
    ensures
        is_row(m, dem, launch, *f, hike.seconds@, q, warnings@, areas@, r),
{
    proof {
        lemma_flat_in_range(
            dem.rows as int,
            dem.cols as int,
            launch.cell.row as int,
            launch.cell.col as int,
        );
    }
    let glide = GlideStats { max_distance_m: f.max_distance_m, area_m2: f.area_m2 };
    let h = hike.seconds[dem.idx(launch.cell.row, launch.cell.col)];
    let hike_seconds = if h.is_finite() {
        h
    } else {
        Single::infinity()
    };
    let s = score_launch(m, launch, &glide, hike_seconds, q.wind(), &q.scoring());
    let (e, n) = cell_to_lv95(m, dem, launch.cell);
    let (lon, lat) = lv95_to_wgs84(m, e, n);
    let (farthest_lat, farthest_lon) = match f.farthest_cell {
        Some(c) => {
            let (flon, flat) = cell_wgs84(m, dem, c);
            (Some(flat), Some(flon))
        },
        None => (None, None),
    };
    let score = if s.score.is_finite() {
        s.score
    } else {
        Single::zero()
    };
    LaunchOut {
        id: launch.id,
        row: launch.cell.row,
        col: launch.cell.col,
        e,
        n,
        lon,
        lat,
        alt_m: launch.altitude_m,
        aspect_deg: launch.aspect_deg,
        slope_deg: launch.slope_deg,
        glide_value: s.glide_value,
        glide_distance_km: over(m, f.max_distance_m, Single { bits: THOUSAND }),
        glide_area_km2: narrow(m, over_d(m, f.area_m2, Double { bits: M2_PER_KM2 })),
        hike_minutes: over(m, hike_seconds, Single { bits: SECONDS_PER_MINUTE }),
        wind_factor: s.wind_factor,
        score,
        farthest_lat,
        farthest_lon,
        warnings: tags(warnings, areas),
    }
}

/// Sort keys of the launches: the higher the score, the lower.
pub open spec fn rank_keys<M: Math>(
    m: &M,
    dem: &Dem,
    launches: Seq<Launch>,
    summaries: Seq<FloodSummary>,
    hike: Seq<Single>,
    q: &ScoreQuery,
) -> Seq<i128> {
    Seq::new(
        launches.len(),
        |i: int| (-score_of(m, dem, &launches[i], summaries[i], hike, q).rank()) as i128,
    )
}

/// Whether the rows are those of the launches, the highest score first; launches
/// of equal score stay in the order in which they are.
pub open spec fn is_ranking<M: Math>(
    m: &M,
    dem: &Dem,
    launches: Seq<Launch>,
    summaries: Seq<FloodSummary>,
    hike: Seq<Single>,
    q: &ScoreQuery,
    warnings: Seq<Warning>,
    areas: Seq<Vec<u32>>,
    order: Seq<usize>,
    rows: Seq<LaunchOut>,
) -> bool {
    &&& covers(order, 0, launches.len() as int)
    &&& in_order(rank_keys(m, dem, launches, summaries, hike, q), order)
    &&& rows.len() == order.len()
    &&& forall|k: int|
        0 <= k < rows.len() ==> is_row(
            m,
            dem,
            &launches[order[k] as int],
            summaries[order[k] as int],
            hike,
            q,
            warnings,
            areas[order[k] as int]@,
            #[trigger] rows[k],
        )
}

/// The hikes that count: those with lifts where the user asks for lifts, else
/// those without.
pub open spec fn asked_hike(
    q: &ScoreQuery,
    with_lifts: Seq<Single>,
    without_lifts: Seq<Single>,
) -> Seq<Single> {
    if q.use_lifts != 0 {
        with_lifts
    } else {
        without_lifts
    }
}

/// The launches with what a user wants to know of them, best first. The hikes
/// are those with lifts where the user asks for lifts, else those without.
pub fn rank_launches<M: Math>(
    m: &M,
    dem: &Dem,
    launches: &[Launch],
    summaries: &[FloodSummary],
    with_lifts: &HikeField,
    without_lifts: &HikeField,
    q: &ScoreQuery,
    warnings: &[Warning],
    areas: &[Vec<u32>],
) -> (r: Vec<LaunchOut>)
    requires
        steady(m),
        dem.wf(),
        forall|i: int| 0 <= i < launches@.len() ==> dem.has_cell((#[trigger] launches@[i]).cell),
        summaries@.len() == launches@.len(),
        with_lifts.seconds@.len() == dem.data@.len(),
        without_lifts.seconds@.len() == dem.data@.len(),
        areas@.len() == launches@.len(),
        forall|i: int|
            0 <= i < areas@.len() ==> are_areas((#[trigger] areas@[i])@, warnings@.len()),
    ensures
        exists|order: Seq<usize>|
            #[trigger] is_ranking(
                m,
                dem,
                launches@,
                summaries@,
                asked_hike(q, with_lifts.seconds@, without_lifts.seconds@),
                q,
                warnings@,
                areas@,
                order,
                r@,
            ),
{
    let hike = if q.use_lifts != 0 {
        with_lifts
    } else {
        without_lifts
    };
    let ghost keys_spec = rank_keys(m, dem, launches@, summaries@, hike.seconds@, q);
    let mut keys: Vec<i128> = Vec::new();
    let mut i: usize = 0;
    while i < launches.len()
        invariant
            steady(m),
            dem.wf(),
            forall|i: int|
                0 <= i < launches@.len() ==> dem.has_cell((#[trigger] launches@[i]).cell),
            summaries@.len() == launches@.len(),
            hike.seconds@.len() == dem.data@.len(),
            areas@.len() == launches@.len(),
            forall|i: int|
                0 <= i < areas@.len() ==> are_areas((#[trigger] areas@[i])@, warnings@.len()),
            keys_spec == rank_keys(m, dem, launches@, summaries@, hike.seconds@, q),
            i <= launches@.len(),
            keys@ == keys_spec.take(i as int),
        decreases launches@.len() - i,
    {
        assert(dem.has_cell(launches@[i as int].cell));
        assert(are_areas(areas@[i as int]@, warnings@.len()));
        let row = launch_row(m, dem, &launches[i], &summaries[i], hike, q, warnings, &areas[i]);
        keys.push(-(row.score.order() as i128));
        assert(keys@ =~= keys_spec.take(i + 1));
        i = i + 1;
    }
    assert(keys_spec.take(i as int) =~= keys_spec);
    let order = sorted_order(&keys);
    let mut rows: Vec<LaunchOut> = Vec::new();
    let mut k: usize = 0;
    while k < order.len()
        invariant
            steady(m),
            dem.wf(),
            forall|i: int|
                0 <= i < launches@.len() ==> dem.has_cell((#[trigger] launches@[i]).cell),
            summaries@.len() == launches@.len(),
            hike.seconds@.len() == dem.data@.len(),
            areas@.len() == launches@.len(),
            forall|i: int|
                0 <= i < areas@.len() ==> are_areas((#[trigger] areas@[i])@, warnings@.len()),
            covers(order@, 0, launches@.len() as int),
            k <= order@.len(),
            rows@.len() == k,
            forall|j: int|
                0 <= j < k ==> is_row(
                    m,
                    dem,
                    &launches@[order@[j] as int],
                    summaries@[order@[j] as int],
                    hike.seconds@,
                    q,
                    warnings@,
                    areas@[order@[j] as int]@,
                    #[trigger] rows@[j],
                ),
        decreases order@.len() - k,
    {
        let at: usize = order[k];
        assert(dem.has_cell(launches@[at as int].cell));
        assert(are_areas(areas@[at as int]@, warnings@.len()));
        rows.push(
            launch_row(m, dem, &launches[at], &summaries[at], hike, q, warnings, &areas[at]),
        );
        k = k + 1;
    }
    assert(is_ranking(
        m,
        dem,
        launches@,
        summaries@,
        asked_hike(q, with_lifts.seconds@, without_lifts.seconds@),
        q,
        warnings@,
        areas@,
        order@,
        rows@,
    ));
    rows
}

/// The best launches come first: no row has a lower score than one after it.
pub proof fn rankings_are_best_first<M: Math>(
    m: &M,
    dem: &Dem,
    launches: Seq<Launch>,
    summaries: Seq<FloodSummary>,
    hike: Seq<Single>,
    q: &ScoreQuery,
    warnings: Seq<Warning>,
    areas: Seq<Vec<u32>>,
    order: Seq<usize>,
    rows: Seq<LaunchOut>,
    j: int,
    k: int,
)
    requires
        is_ranking(m, dem, launches, summaries, hike, q, warnings, areas, order, rows),
        0 <= j < k < rows.len(),
    ensures
        rows[k].score.at_most(rows[j].score),
        rows[j].score.finite(),
{
    let keys = rank_keys(m, dem, launches, summaries, hike, q);
    let a = order[j] as int;
    let b = order[k] as int;
    assert(rows[j] == rows[j] && rows[k] == rows[k]);
    assert(keys[a] <= keys[b]);
}

/// A row shows distances in kilometers, areas in square kilometers and hikes in
/// minutes. Stated of whole results.
pub proof fn rows_show_kilometers_and_minutes<M: Math>(
    m: &M,
    rnd: spec_fn(real) -> int,
    wide: spec_fn(real) -> int,
    dem: &Dem,
    launch: &Launch,
    f: FloodSummary,
    hike: Seq<Single>,
    q: &ScoreQuery,
    warnings: Seq<Warning>,
    areas: Seq<u32>,
    out: LaunchOut,
    km: int,
    km2: int,
    minutes: int,
)
    requires
        rounds(m, rnd),
        rounds_d(m, wide),
        converts(m, rnd),
        is_row(m, dem, launch, f, hike, q, warnings, areas, out),
        0 <= km <= 0x10_0000 && counts(f.max_distance_m, 1_000 * km),
        0 <= km2 <= 0x10_0000 && holds(f.area_m2, km2 * 1_000_000),
        0 <= minutes <= 0x10_0000 && counts(hike[dem.pos(launch.cell)], 60 * minutes),
    ensures
        counts(out.glide_distance_km, km),
        counts(out.glide_area_km2, km2),
        counts(out.hike_minutes, minutes),
{
    lemma2_to64();
    let (k, s) = (Single { bits: 0x447a_0000 }, Single { bits: 0x4270_0000 });
    digits_bound_the_value(k, 136, 0xfa_0000, 0x4000, 1000real, 1000real);
    digits_bound_the_value(s, 132, 0xf0_0000, 0x4_0000, 60real, 60real);
    let (a, b, c) = (
        whole_numbers_are_exact(m, rnd, km),
        whole_numbers_are_exact(m, rnd, km2),
        whole_numbers_are_exact(m, rnd, minutes),
    );
    rounding_keeps_sides(m, rnd, out.glide_distance_km, ((1_000 * km) as real) / 1000real, a);
    rounding_keeps_sides(m, rnd, out.hike_minutes, ((60 * minutes) as real) / 60real, c);
    wide_million();
    let million = Double { bits: 0x412e_8480_0000_0000 };
    wide_whole_quotients_are_exact(m, wide, f.area_m2, million, km2, 1_000_000);
    rounding_keeps_sides(m, rnd, out.glide_area_km2, km2 as real, b);
}

} // verus!
