//! What a raster, its lifts and its trails give before anyone asks for a ranking.

use crate::access::{access_fields, is_access, lift_seeds_of, valley_seeds_of};
use crate::dem::Dem;
use crate::dem_info::{shows_trail, trail_out, DataSource, TrailOut};
use crate::discovery::{aspect_of, discover, is_discovery, slope_of};
use crate::geom::CellIdx;
use crate::hike::HikeField;
use crate::hillshade::{hill_pixels, render};
use crate::launch::Launch;
use crate::lifts::Lift;
use crate::math::{steady, Math};
use crate::png_util::{png_of, spread};
use crate::scalar::Single;
use crate::terrain::slope_aspect;
use crate::trail_graph::{all_legs, build, edges_of, nodes_of, touching, TrailGraph};
use crate::trailheads::{pick_trailheads, trailheads_of};
use crate::trails::TrailSegment;
use vstd::prelude::*;

verus! {

/// Fewest cells of an island that has a trailhead.
pub const MIN_ISLAND_CELLS: u32 = 200;

/// What a raster, its lifts and its trails give.
#[derive(Debug)]
pub struct Survey {
    pub hillshade_png: Vec<u8>,
    /// Candidate launches, those in restricted areas among them.
    pub launches: Vec<Launch>,
    pub trailheads: Vec<CellIdx>,
    pub trails: Vec<TrailOut>,
    pub hike_with_lifts: HikeField,
    pub hike_without_lifts: HikeField,
}

/// The hillshade of a raster as a PNG file, or what is wrong with the image.
pub open spec fn hillshade_of<M: Math>(m: &M, dem: &Dem) -> Result<Seq<u8>, Seq<char>> {
    let slopes = Seq::new(dem.data@.len(), |u: int| slope_of(m, dem, u));
    let aspects = Seq::new(dem.data@.len(), |u: int| aspect_of(m, dem, u));
    png_of(dem.cols, dem.rows, spread(hill_pixels(m, dem, slopes, aspects)))
}

/// Whether this is the graph of some trails.
pub open spec fn is_trail_graph<M: Math>(
    m: &M,
    dem: &Dem,
    trails: Seq<TrailSegment>,
    graph: TrailGraph,
) -> bool {
    &&& graph.wf()
    &&& graph.node_pos@ == nodes_of(m, all_legs(trails))
    &&& graph.edges@ == edges_of(m, dem, all_legs(trails))
    &&& forall|u: int|
        0 <= u < graph.adj@.len() ==> (#[trigger] graph.adj@[u])@ == touching(graph.edges@, u)
}

/// Whether these are the hiking costs with the lifts and without them.
pub open spec fn are_hikes<M: Math>(
    m: &M,
    dem: &Dem,
    lifts: Seq<Lift>,
    graph: &TrailGraph,
    with_lifts: Seq<Single>,
    without_lifts: Seq<Single>,
) -> bool {
    let valley = valley_seeds_of(trailheads_of(dem, MIN_ISLAND_CELLS as int));
    &&& is_access(m, graph, dem, valley + lift_seeds_of(m, dem, lifts), with_lifts)
    &&& is_access(m, graph, dem, valley, without_lifts)
}

/// Whether this is what a raster, its lifts and its trails give.
pub open spec fn is_survey<M: Math>(
    m: &M,
    dem: &Dem,
    source: DataSource,
    lifts: Seq<Lift>,
    trails: Seq<TrailSegment>,
    s: Survey,
) -> bool {
    &&& hillshade_of(m, dem) == Ok::<Seq<u8>, Seq<char>>(s.hillshade_png@)
    &&& exists|ranking: Seq<int>| #[trigger]
        is_discovery(m, dem, &source.discovery_params(), ranking, s.launches@)
    &&& forall|i: int|
        0 <= i < s.launches@.len() ==> dem.has_cell((#[trigger] s.launches@[i]).cell)
    &&& s.trailheads@ == trailheads_of(dem, MIN_ISLAND_CELLS as int)
    &&& s.trails@.len() == trails.len()
    &&& forall|i: int|
        0 <= i < trails.len() ==> shows_trail(m, &trails[i], #[trigger] s.trails@[i])
    &&& s.hike_with_lifts.seconds@.len() == dem.data@.len()
    &&& s.hike_without_lifts.seconds@.len() == dem.data@.len()
    &&& exists|graph: TrailGraph| #[trigger]
        is_trail_graph(m, dem, trails, graph) && are_hikes(
            m,
            dem,
            lifts,
            &graph,
            s.hike_with_lifts.seconds@,
            s.hike_without_lifts.seconds@,
        )
}

/// Surveys a raster with its lifts and trails, or says what is wrong with its
/// image.
pub fn survey<M: Math>(
    m: &M,
    dem: &Dem,
    source: DataSource,
    lifts: &[Lift],
    trails: &[TrailSegment],
) -> (r: Result<Survey, String>)
    requires
        steady(m),
        dem.wf(),
        all_legs(trails@).len() <= 0x7fff_ffff,
    ensures
        match r {
            Ok(s) => is_survey(m, dem, source, lifts@, trails@, s),
            Err(e) => hillshade_of(m, dem) == Err::<Seq<u8>, Seq<char>>(e@),
        },
{
    let sa = slope_aspect(m, dem);
    proof {
        assert(sa.slope_deg@ =~= Seq::new(dem.data@.len(), |u: int| slope_of(m, dem, u)));
        assert(sa.aspect_deg@ =~= Seq::new(dem.data@.len(), |u: int| aspect_of(m, dem, u)));
    }
    let hillshade_png = match render(m, dem, &sa.slope_deg, &sa.aspect_deg) {
        Ok(png) => png,
        Err(e) => {
            return Err(e);
        },
    };
    let launches = discover(m, dem, &source.discovery_params());
    let trailheads = pick_trailheads(dem, MIN_ISLAND_CELLS);
    let mut shown: Vec<TrailOut> = Vec::new();
    let mut i: usize = 0;
    while i < trails.len()
        invariant
            steady(m),
            i <= trails@.len(),
            shown@.len() == i,
            forall|k: int| 0 <= k < i ==> shows_trail(m, &trails@[k], #[trigger] shown@[k]),
        decreases trails@.len() - i,
    {
        shown.push(trail_out(m, &trails[i]));
        i = i + 1;
    }
    let graph = build(m, trails, dem);
    assert(is_trail_graph(m, dem, trails@, graph));
    let (hike_with_lifts, hike_without_lifts) = access_fields(m, &graph, dem, &trailheads, lifts);
    Ok(
        Survey {
            hillshade_png,
            launches,
            trailheads,
            trails: shown,
            hike_with_lifts,
            hike_without_lifts,
        },
    )
}

} // verus!
