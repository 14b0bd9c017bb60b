//! Stitching of tiles into a region.

use crate::dem::{flat, lemma_flat_in_range, lemma_flat_unique};
use crate::error::{DataError, ErrorModel};
use crate::exact::{
    counts, powers_of_two, rounding_keeps_sides, rounds, whole_arithmetic_is_exact,
    whole_numbers_are_exact,
};
use crate::exact_wide::{
    converts, holds, is_ceil_d, is_floor_d, is_integer_d, is_nearest_d, rounds_d, steps_d, value_d,
    wide_rounding_keeps_sides, wide_shares_stay_between, wide_whole_arithmetic_is_exact,
};
use crate::geom::HALF;
use crate::math::{
    ceil_d, double, floor_d, minus_d, narrow, over_d, plus, plus_d, round_d, steady, times,
    times_d, to_i64, to_int_d, to_u32, widen, Math,
};
use crate::region::{BBox, Region};
use crate::scalar::{Double, Single};
use crate::stac::{same_place, TileAsset};
use crate::text::{decimal, write_u32};
use crate::tile_reader::{asset_tile, decode, DecodedModel, DecodedTile, TILE_SIDE_M};
use crate::trail_graph::HALF_D;
use vstd::prelude::*;

verus! {

/// 2: the source resolution in meters.
pub const SOURCE_CELL_M: u32 = 0x4000_0000;

/// What a region covers: its bounding box, aligned to whole cells, and the
/// number of cells.
#[derive(Debug, Clone, Copy, PartialEq, Eq, Structural)]
pub struct Frame {
    pub bbox: BBox,
    pub rows: u32,
    pub cols: u32,
}

/// The multiple of the cell size nearest to a coordinate.
pub open spec fn spec_snap<M: Math>(m: &M, x: Double, cell: Single) -> Double {
    times_d(m, round_d(m, over_d(m, x, widen(m, cell))), widen(m, cell))
}

/// The multiple of the cell size nearest to a coordinate.
#[verifier::when_used_as_spec(spec_snap)]
pub fn snap<M: Math>(m: &M, x: Double, cell: Single) -> (r: Double)
    requires
        steady(m),
    ensures
        r == snap(m, x, cell),
{
    times_d(m, round_d(m, over_d(m, x, widen(m, cell))), widen(m, cell))
}

/// The multiple of the cell size at or below a coordinate.
pub open spec fn spec_snap_down<M: Math>(m: &M, x: Double, cell: Single) -> Double {
    times_d(m, floor_d(m, over_d(m, x, widen(m, cell))), widen(m, cell))
}

/// The multiple of the cell size at or below a coordinate.
#[verifier::when_used_as_spec(spec_snap_down)]
pub fn snap_down<M: Math>(m: &M, x: Double, cell: Single) -> (r: Double)
    requires
        steady(m),
    ensures
        r == snap_down(m, x, cell),
{
    times_d(m, floor_d(m, over_d(m, x, widen(m, cell))), widen(m, cell))
}

/// The multiple of the cell size at or above a coordinate.
pub open spec fn spec_snap_up<M: Math>(m: &M, x: Double, cell: Single) -> Double {
    times_d(m, ceil_d(m, over_d(m, x, widen(m, cell))), widen(m, cell))
}

/// The multiple of the cell size at or above a coordinate.
#[verifier::when_used_as_spec(spec_snap_up)]
pub fn snap_up<M: Math>(m: &M, x: Double, cell: Single) -> (r: Double)
    requires
        steady(m),
    ensures
        r == snap_up(m, x, cell),
{
    times_d(m, ceil_d(m, over_d(m, x, widen(m, cell))), widen(m, cell))
}

/// Number of cells between two coordinates.
pub open spec fn spec_cells_between<M: Math>(m: &M, lo: Double, hi: Double, cell: Single) -> u32 {
    to_u32(to_int_d(m, round_d(m, over_d(m, minus_d(m, hi, lo), widen(m, cell)))))
}

/// Number of cells between two coordinates.
#[verifier::when_used_as_spec(spec_cells_between)]
pub fn cells_between<M: Math>(m: &M, lo: Double, hi: Double, cell: Single) -> (r: u32)
    requires
        steady(m),
    ensures
        r == cells_between(m, lo, hi, cell),
{
    to_u32(to_int_d(m, round_d(m, over_d(m, minus_d(m, hi, lo), widen(m, cell)))))
}

/// The frame of a bounding box: its edges moved to multiples of the cell size
/// for clean alignment.
pub open spec fn frame_of<M: Math>(m: &M, bbox: BBox, cell: Single) -> Frame {
    let e_min = snap(m, bbox.e_min, cell);
    let n_min = snap(m, bbox.n_min, cell);
    let e_max = snap(m, bbox.e_max, cell);
    let n_max = snap(m, bbox.n_max, cell);
    Frame {
        bbox: BBox { e_min, n_min, e_max, n_max },
        rows: cells_between(m, n_min, n_max, cell),
        cols: cells_between(m, e_min, e_max, cell),
    }
}

/// The frame round a bounding box: its edges moved outward to multiples of the
/// cell size.
pub open spec fn outer_frame_of<M: Math>(m: &M, bbox: BBox, cell: Single) -> Frame {
    let e_min = snap_down(m, bbox.e_min, cell);
    let n_min = snap_down(m, bbox.n_min, cell);
    let e_max = snap_up(m, bbox.e_max, cell);
    let n_max = snap_up(m, bbox.n_max, cell);
    Frame {
        bbox: BBox { e_min, n_min, e_max, n_max },
        rows: cells_between(m, n_min, n_max, cell),
        cols: cells_between(m, e_min, e_max, cell),
    }
}

/// The error for a cell size below the source resolution.
pub open spec fn too_fine() -> ErrorModel {
    ErrorModel::BadFormat("target_cell_m < 2 m is below source resolution"@)
}

/// The frame of a region for a bounding box.
pub fn plan_region<M: Math>(m: &M, bbox: BBox, target_cell_m: Single) -> (r: Result<
    Frame,
    DataError,
>)
    requires
        steady(m),
    ensures
        match r {
            Ok(f) => !target_cell_m.below(Single { bits: SOURCE_CELL_M }) && f == frame_of(
                m,
                bbox,
                target_cell_m,
            ),
            Err(e) => target_cell_m.below(Single { bits: SOURCE_CELL_M }) && e.model()
                == too_fine(),
        },
{
    if target_cell_m.lt(&Single { bits: SOURCE_CELL_M }) {
        return Err(
            DataError::BadFormat("target_cell_m < 2 m is below source resolution".to_owned()),
        );
    }
    let e_min = snap(m, bbox.e_min, target_cell_m);
    let n_min = snap(m, bbox.n_min, target_cell_m);
    let e_max = snap(m, bbox.e_max, target_cell_m);
    let n_max = snap(m, bbox.n_max, target_cell_m);
    Ok(
        Frame {
            bbox: BBox { e_min, n_min, e_max, n_max },
            rows: cells_between(m, n_min, n_max, target_cell_m),
            cols: cells_between(m, e_min, e_max, target_cell_m),
        },
    )
}

/// The bounding hull of some boxes.
pub open spec fn hull_of(boxes: Seq<BBox>) -> BBox
    decreases boxes.len(),
{
    if boxes.len() == 0 {
        BBox {
            e_min: Double { bits: 0x7ff0_0000_0000_0000 },
            n_min: Double { bits: 0x7ff0_0000_0000_0000 },
            e_max: Double { bits: 0xfff0_0000_0000_0000 },
            n_max: Double { bits: 0xfff0_0000_0000_0000 },
        }
    } else {
        let before = hull_of(boxes.drop_last());
        let b = boxes.last();
        BBox {
            e_min: before.e_min.min(b.e_min),
            n_min: before.n_min.min(b.n_min),
            e_max: before.e_max.max(b.e_max),
            n_max: before.n_max.max(b.n_max),
        }
    }
}

/// The frame of a region for several bounding boxes: round their hull, so that
/// it holds every one of them.
pub fn plan_multi_region<M: Math>(m: &M, boxes: &Vec<BBox>, target_cell_m: Single) -> (r: Result<
    Frame,
    DataError,
>)
    requires
        steady(m),
    ensures
        match r {
            Ok(f) => boxes@.len() > 0 && !target_cell_m.below(Single { bits: SOURCE_CELL_M }) && f
                == outer_frame_of(m, hull_of(boxes@), target_cell_m),
            Err(e) => if boxes@.len() == 0 {
                e.model() == ErrorModel::BadFormat("no bboxes given"@)
            } else {
                target_cell_m.below(Single { bits: SOURCE_CELL_M }) && e.model() == too_fine()
            },
        },
{
    if boxes.len() == 0 {
        return Err(DataError::BadFormat("no bboxes given".to_owned()));
    }
    if target_cell_m.lt(&Single { bits: SOURCE_CELL_M }) {
        return Err(
            DataError::BadFormat("target_cell_m < 2 m is below source resolution".to_owned()),
        );
    }
    let mut hull = BBox {
        e_min: Double { bits: 0x7ff0_0000_0000_0000 },
        n_min: Double { bits: 0x7ff0_0000_0000_0000 },
        e_max: Double { bits: 0xfff0_0000_0000_0000 },
        n_max: Double { bits: 0xfff0_0000_0000_0000 },
    };
    let mut i: usize = 0;
    assert(boxes@.take(0) =~= Seq::empty());
    while i < boxes.len()
        invariant
            i <= boxes@.len(),
            hull == hull_of(boxes@.take(i as int)),
        decreases boxes@.len() - i,
    {
        assert(boxes@.take(i + 1).drop_last() =~= boxes@.take(i as int));
        let b = boxes[i];
        hull = BBox {
            e_min: hull.e_min.min(b.e_min),
            n_min: hull.n_min.min(b.n_min),
            e_max: hull.e_max.max(b.e_max),
            n_max: hull.n_max.max(b.n_max),
        };
        i = i + 1;
    }
    assert(boxes@.take(boxes@.len() as int) =~= boxes@);
    let e_min = snap_down(m, hull.e_min, target_cell_m);
    let n_min = snap_down(m, hull.n_min, target_cell_m);
    let e_max = snap_up(m, hull.e_max, target_cell_m);
    let n_max = snap_up(m, hull.n_max, target_cell_m);
    Ok(
        Frame {
            bbox: BBox { e_min, n_min, e_max, n_max },
            rows: cells_between(m, n_min, n_max, target_cell_m),
            cols: cells_between(m, e_min, e_max, target_cell_m),
        },
    )
}

/// The hull holds every one of the boxes, wherever their edges are numbers.
pub proof fn hull_holds_every_box(boxes: Seq<BBox>, i: int)
    requires
        0 <= i < boxes.len(),
        forall|j: int|
            0 <= j < boxes.len() ==> !(#[trigger] boxes[j]).e_min.nan() && !boxes[j].n_min.nan()
                && !boxes[j].e_max.nan() && !boxes[j].n_max.nan(),
    ensures
        hull_of(boxes).e_min.at_most(boxes[i].e_min),
        hull_of(boxes).n_min.at_most(boxes[i].n_min),
        boxes[i].e_max.at_most(hull_of(boxes).e_max),
        boxes[i].n_max.at_most(hull_of(boxes).n_max),
    decreases boxes.len(),
{
    lemma_hull_is_number(boxes);
    let front = boxes.drop_last();
    assert forall|j: int| 0 <= j < front.len() implies !(#[trigger] front[j]).e_min.nan()
        && !front[j].n_min.nan() && !front[j].e_max.nan() && !front[j].n_max.nan() by {
        assert(front[j] == boxes[j]);
    }
    lemma_hull_is_number(front);
    assert(boxes.last() == boxes[boxes.len() - 1]);
    if i < front.len() {
        hull_holds_every_box(front, i);
        assert(front[i] == boxes[i]);
    }
}

/// The frame of a region for several boxes holds every one of them, wherever
/// their edges are numbers and the arithmetic moves no edge of the hull inward.
pub proof fn frames_hold_every_box<M: Math>(m: &M, boxes: Seq<BBox>, cell: Single, i: int)
    requires
        0 <= i < boxes.len(),
        forall|j: int|
            0 <= j < boxes.len() ==> !(#[trigger] boxes[j]).e_min.nan() && !boxes[j].n_min.nan()
                && !boxes[j].e_max.nan() && !boxes[j].n_max.nan(),
        snap_down(m, hull_of(boxes).e_min, cell).at_most(hull_of(boxes).e_min),
        snap_down(m, hull_of(boxes).n_min, cell).at_most(hull_of(boxes).n_min),
        hull_of(boxes).e_max.at_most(snap_up(m, hull_of(boxes).e_max, cell)),
        hull_of(boxes).n_max.at_most(snap_up(m, hull_of(boxes).n_max, cell)),
    ensures
        outer_frame_of(m, hull_of(boxes), cell).bbox.e_min.at_most(boxes[i].e_min),
        outer_frame_of(m, hull_of(boxes), cell).bbox.n_min.at_most(boxes[i].n_min),
        boxes[i].e_max.at_most(outer_frame_of(m, hull_of(boxes), cell).bbox.e_max),
        boxes[i].n_max.at_most(outer_frame_of(m, hull_of(boxes), cell).bbox.n_max),
{
    hull_holds_every_box(boxes, i);
    lemma_hull_is_number(boxes);
}

proof fn lemma_hull_is_number(boxes: Seq<BBox>)
    requires
        forall|j: int|
            0 <= j < boxes.len() ==> !(#[trigger] boxes[j]).e_min.nan() && !boxes[j].n_min.nan()
                && !boxes[j].e_max.nan() && !boxes[j].n_max.nan(),
    ensures
        !hull_of(boxes).e_min.nan(),
        !hull_of(boxes).n_min.nan(),
        !hull_of(boxes).e_max.nan(),
        !hull_of(boxes).n_max.nan(),
    decreases boxes.len(),
{
    if boxes.len() > 0 {
        let front = boxes.drop_last();
        assert forall|j: int| 0 <= j < front.len() implies !(#[trigger] front[j]).e_min.nan()
            && !front[j].n_min.nan() && !front[j].e_max.nan() && !front[j].n_max.nan() by {
            assert(front[j] == boxes[j]);
        }
        lemma_hull_is_number(front);
        assert(boxes.last() == boxes[boxes.len() - 1]);
    }
}

/// A region with nothing in it yet.
///
/// Origin = LV95 of cell (0, 0)'s CENTER. Cell (0, 0) covers
/// east [e_min, e_min+cs), north [n_max-cs, n_max). So center is
/// (e_min + cs/2, n_max - cs/2).
pub fn blank_region<M: Math>(m: &M, frame: Frame, target_cell_m: Single) -> (r: Region)
    requires
        steady(m),
        frame.rows * frame.cols <= u32::MAX,
    ensures
        r.origin_e == plus_d(
            m,
            frame.bbox.e_min,
            times_d(m, widen(m, target_cell_m), Double { bits: HALF_D }),
        ),
        r.origin_n == minus_d(
            m,
            frame.bbox.n_max,
            times_d(m, widen(m, target_cell_m), Double { bits: HALF_D }),
        ),
        r.cell_size_m == target_cell_m,
        r.rows == frame.rows,
        r.cols == frame.cols,
        r.bbox_lv95 == frame.bbox,
        r.data@.len() == frame.rows * frame.cols,
        forall|i: int| 0 <= i < r.data@.len() ==> (#[trigger] r.data@[i]).bits == 0x7fc0_0000,
{
    assert(0 <= frame.rows * frame.cols) by (nonlinear_arith)
        requires
            0 <= frame.rows,
            0 <= frame.cols,
    ;
    let half = times_d(m, widen(m, target_cell_m), Double { bits: HALF_D });
    Region {
        origin_e: plus_d(m, frame.bbox.e_min, half),
        origin_n: minus_d(m, frame.bbox.n_max, half),
        cell_size_m: target_cell_m,
        rows: frame.rows,
        cols: frame.cols,
        data: vec![Single::missing(); (frame.rows * frame.cols) as usize],
        bbox_lv95: frame.bbox,
    }
}

/// The error where no tile covers a bounding box; `shown` is the box in words.
pub fn require_tiles(tiles: &Vec<TileAsset>, shown: &str) -> (r: Result<(), DataError>)
    ensures
        match r {
            Ok(_) => tiles@.len() > 0,
            Err(e) => tiles@.len() == 0 && e.model() == ErrorModel::BadFormat(
                "no DEM tiles in bbox "@ + shown@,
            ),
        },
{
    if tiles.len() == 0 {
        return Err(DataError::BadFormat("no DEM tiles in bbox ".to_owned().concat(shown)));
    }
    Ok(())
}

/// Whether one of the tiles is of the place of a tile.
pub open spec fn has_place(tiles: Seq<TileAsset>, t: TileAsset) -> bool {
    exists|i: int| 0 <= i < tiles.len() && same_place(#[trigger] tiles[i], t)
}

/// Tiles with more tiles added: in turn, each of a place that is new.
pub open spec fn joined(tiles: Seq<TileAsset>, more: Seq<TileAsset>) -> Seq<TileAsset>
    decreases more.len(),
{
    if more.len() == 0 {
        tiles
    } else {
        let before = joined(tiles, more.drop_last());
        if has_place(before, more.last()) {
            before
        } else {
            before.push(more.last())
        }
    }
}

/// Adds the tiles of places that are new.
pub fn join_tiles(tiles: &mut Vec<TileAsset>, more: &Vec<TileAsset>)
    ensures
        final(tiles)@ == joined(old(tiles)@, more@),
{
    let ghost start = tiles@;
    let mut i: usize = 0;
    assert(more@.take(0) =~= Seq::empty());
    while i < more.len()
        invariant
            i <= more@.len(),
            tiles@ == joined(start, more@.take(i as int)),
        decreases more@.len() - i,
    {
        assert(more@.take(i + 1).drop_last() =~= more@.take(i as int));
        let t = &more[i];
        let mut known: bool = false;
        let mut k: usize = 0;
        while k < tiles.len() && !known
            invariant
                k <= tiles@.len(),
                known ==> has_place(tiles@, *t),
                !known ==> forall|j: int| 0 <= j < k ==> !same_place(#[trigger] tiles@[j], *t),
            decreases tiles@.len() - k,
        {
            if tiles[k].e_km == t.e_km && tiles[k].n_km == t.n_km {
                assert(same_place(tiles@[k as int], *t));
                known = true;
            }
            k = k + 1;
        }
        if !known {
            tiles.push(t.clone());
        }
        i = i + 1;
    }
    assert(more@.take(more@.len() as int) =~= more@);
}

/// Joining keeps tiles of different places: no two of the tiles are of one
/// place if none were before.
pub proof fn joined_tiles_are_of_different_places(
    tiles: Seq<TileAsset>,
    more: Seq<TileAsset>,
    i: int,
    j: int,
)
    requires
        forall|a: int, b: int|
            0 <= a < b < tiles.len() ==> !same_place(#[trigger] tiles[a], #[trigger] tiles[b]),
        0 <= i < j < joined(tiles, more).len(),
    ensures
        !same_place(joined(tiles, more)[i], joined(tiles, more)[j]),
    decreases more.len(),
{
    if more.len() > 0 {
        let before = joined(tiles, more.drop_last());
        if j < before.len() {
            joined_tiles_are_of_different_places(tiles, more.drop_last(), i, j);
        } else {
            assert(joined(tiles, more)[i] == before[i]);
        }
    }
}

/// Name of the file that a tile is cached in.
pub fn cache_file_name(tile: &TileAsset) -> (r: String)
    ensures
        r@ == "swissalti3d_"@ + decimal(tile.year as nat) + "_"@ + decimal(tile.e_km as nat) + "-"@
            + decimal(tile.n_km as nat) + "_2m.xyz.zip"@,
{
    let mut s: String = "swissalti3d_".to_owned();
    s.append(write_u32(tile.year).as_str());
    s.append("_");
    s.append(write_u32(tile.e_km).as_str());
    s.append("-");
    s.append(write_u32(tile.n_km).as_str());
    s.append("_2m.xyz.zip");
    s
}

/// A tile and the grid that it is laid over.
pub struct Overlay {
    /// Place of the tile.
    pub e_km: u32,
    pub n_km: u32,
    /// Pixels of the tile.
    pub width: u32,
    pub height: u32,
    pub pixels: Seq<Single>,
    /// Bounding box of the grid: (e_min, n_min, e_max, n_max).
    pub bbox: (Double, Double, Double, Double),
    /// Cells of the grid.
    pub cell: Single,
    pub rows: u32,
    pub cols: u32,
}

/// The four edges of a rectangle: west, east, south, north.
pub struct Edges {
    pub west: Double,
    pub east: Double,
    pub south: Double,
    pub north: Double,
}

/// LV95 footprint of a tile.
pub open spec fn tile_edges<M: Math>(m: &M, o: Overlay) -> Edges {
    let side = Double { bits: TILE_SIDE_M };
    let west = times_d(m, double(m, o.e_km as i128), side);
    let south = times_d(m, double(m, o.n_km as i128), side);
    Edges { west, east: plus_d(m, west, side), south, north: plus_d(m, south, side) }
}

/// The greater of two whole numbers.
pub open spec fn greater(a: int, b: int) -> int {
    if a < b {
        b
    } else {
        a
    }
}

/// The lesser of two whole numbers.
pub open spec fn lesser(a: int, b: int) -> int {
    if a < b {
        a
    } else {
        b
    }
}

/// Number of the first cell or pixel at an offset, in units of a size.
pub open spec fn first_at<M: Math>(m: &M, offset: Double, size: Double) -> int {
    greater(0, to_i64(to_int_d(m, floor_d(m, over_d(m, offset, size)))) as int)
}

/// Number of the first cell or pixel past an offset, in units of a size, out of
/// `count`.
pub open spec fn end_at<M: Math>(m: &M, offset: Double, size: Double, count: int) -> int {
    lesser(to_i64(to_int_d(m, ceil_d(m, over_d(m, offset, size)))) as int, count)
}

/// Whether the tile may cover cell (r, c).
pub open spec fn in_reach<M: Math>(m: &M, o: Overlay, r: int, c: int) -> bool {
    let t = tile_edges(m, o);
    let cs = widen(m, o.cell);
    &&& first_at(m, minus_d(m, t.west, o.bbox.0), cs) <= c < end_at(
        m,
        minus_d(m, t.east, o.bbox.0),
        cs,
        o.cols as int,
    )
    &&& first_at(m, minus_d(m, o.bbox.3, t.north), cs) <= r < end_at(
        m,
        minus_d(m, o.bbox.3, t.south),
        cs,
        o.rows as int,
    )
}

/// What cell (r, c) and the tile have in common. The cell covers
///   east  [e_min + c*cs, e_min + (c+1)*cs)
///   north [n_max - (r+1)*cs, n_max - r*cs)
pub open spec fn common<M: Math>(m: &M, o: Overlay, r: int, c: int) -> Edges {
    let t = tile_edges(m, o);
    let cs = widen(m, o.cell);
    let north = minus_d(m, o.bbox.3, times_d(m, double(m, r as i128), cs));
    let south = minus_d(m, north, cs);
    let west = plus_d(m, o.bbox.0, times_d(m, double(m, c as i128), cs));
    let east = plus_d(m, west, cs);
    Edges {
        west: west.max(t.west),
        east: east.min(t.east),
        south: south.max(t.south),
        north: north.min(t.north),
    }
}

/// Sum and number of the finite pixels from `lo` up to `hi` of a row that
/// starts at `off`, added to what there is already.
pub open spec fn row_sum<M: Math>(
    m: &M,
    pixels: Seq<Single>,
    off: int,
    lo: int,
    hi: int,
    start: (Double, nat),
) -> (Double, nat)
    decreases hi - lo,
{
    if hi <= lo {
        start
    } else {
        let before = row_sum(m, pixels, off, lo, hi - 1, start);
        let v = pixels[off + hi - 1];
        if v.finite() {
            (plus_d(m, before.0, widen(m, v)), before.1 + 1)
        } else {
            before
        }
    }
}

/// Sum and number of the finite pixels of the rows from `top` up to `bottom`,
/// from `lo` up to `hi` in each.
pub open spec fn window_sum<M: Math>(
    m: &M,
    pixels: Seq<Single>,
    width: int,
    top: int,
    bottom: int,
    lo: int,
    hi: int,
) -> (Double, nat)
    decreases bottom - top,
{
    if bottom <= top {
        (Double { bits: 0 }, 0)
    } else {
        row_sum(
            m,
            pixels,
            (bottom - 1) * width,
            lo,
            hi,
            window_sum(m, pixels, width, top, bottom - 1, lo, hi),
        )
    }
}

/// Average of the tile's pixels over a rectangle, if any of them is known.
pub open spec fn average_over<M: Math>(m: &M, o: Overlay, e: Edges) -> Option<Single> {
    let t = tile_edges(m, o);
    let size = over_d(m, Double { bits: TILE_SIDE_M }, double(m, o.width as i128));
    let (sum, count) = window_sum(
        m,
        o.pixels,
        o.width as int,
        first_at(m, minus_d(m, t.north, e.north), size),
        end_at(m, minus_d(m, t.north, e.south), size, o.height as int),
        first_at(m, minus_d(m, e.west, t.west), size),
        end_at(m, minus_d(m, e.east, t.west), size, o.width as int),
    );
    if count > 0 {
        Some(narrow(m, over_d(m, sum, double(m, count as i128))))
    } else {
        None
    }
}

/// Average of the tile's pixels over cell (r, c), where they overlap.
pub open spec fn sample_at<M: Math>(m: &M, o: Overlay, r: int, c: int) -> Option<Single> {
    let e = common(m, o, r, c);
    if !in_reach(m, o, r, c) || e.east.at_most(e.west) || e.north.at_most(e.south) {
        None
    } else {
        average_over(m, o, e)
    }
}

/// A cell with a sample laid over it: their mean where the cell is known from
/// a neighboring tile.
pub open spec fn overlaid<M: Math>(m: &M, prev: Single, sample: Option<Single>) -> Single {
    match sample {
        Some(avg) => if prev.finite() {
            times(m, plus(m, prev, avg), Single { bits: HALF })
        } else {
            avg
        },
        None => prev,
    }
}

/// The overlay of a tile on a grid.
pub open spec fn overlay_of(
    tile: &TileAsset,
    decoded: DecodedModel,
    bbox: (Double, Double, Double, Double),
    cell: Single,
    rows: u32,
    cols: u32,
) -> Overlay {
    Overlay {
        e_km: tile.e_km,
        n_km: tile.n_km,
        width: decoded.width,
        height: decoded.height,
        pixels: decoded.data,
        bbox,
        cell,
        rows,
        cols,
    }
}

fn first_of<M: Math>(m: &M, offset: Double, size: Double) -> (r: i64)
    requires
        steady(m),
    ensures
        r == first_at(m, offset, size),
        r >= 0,
{
    let v: i64 = to_i64(to_int_d(m, floor_d(m, over_d(m, offset, size))));
    if v < 0 {
        0
    } else {
        v
    }
}

fn end_of<M: Math>(m: &M, offset: Double, size: Double, count: u32) -> (r: i64)
    requires
        steady(m),
    ensures
        r == end_at(m, offset, size, count as int),
        r <= count,
{
    let v: i64 = to_i64(to_int_d(m, ceil_d(m, over_d(m, offset, size))));
    if v < count as i64 {
        v
    } else {
        count as i64
    }
}

/// Sum and number of the finite pixels in a window.
fn sum_window<M: Math>(
    m: &M,
    decoded: &DecodedTile,
    top: i64,
    bottom: i64,
    lo: i64,
    hi: i64,
) -> (r: (Double, usize))
    requires
        steady(m),
        decoded.data@.len() == decoded.width * decoded.height,
        0 <= top,
        bottom <= decoded.height,
        0 <= lo,
        hi <= decoded.width,
    ensures
        (r.0, r.1 as nat) == window_sum(
            m,
            decoded.data@,
            decoded.width as int,
            top as int,
            bottom as int,
            lo as int,
            hi as int,
        ),
{
    let ghost w = decoded.width as int;
    let n: usize = decoded.data.len();
    let mut sum = Double { bits: 0 };
    let mut count: usize = 0;
    let mut pr: i64 = top;
    assert((pr - top) * w == 0) by (nonlinear_arith)
        requires
            pr == top,
    ;
    while pr < bottom
        invariant
            steady(m),
            w == decoded.width,
            n == decoded.data@.len(),
            decoded.data@.len() == decoded.width * decoded.height,
            0 <= top <= pr,
            bottom <= decoded.height,
            0 <= lo,
            hi <= decoded.width,
            top < bottom ==> pr <= bottom,
            top >= bottom ==> pr == top,
            (sum, count as nat) == window_sum(
                m,
                decoded.data@,
                w,
                top as int,
                pr as int,
                lo as int,
                hi as int,
            ),
            count <= (pr - top) * w,
        decreases bottom - pr,
    {
        let ghost start = (sum, count as nat);
        let ghost off = pr * w;
        assert(0 <= off && off + w <= n && (pr - top) * w + w <= n) by (nonlinear_arith)
            requires
                0 <= top <= pr < bottom <= decoded.height,
                w == decoded.width,
                n == decoded.width * decoded.height,
                off == pr * w,
        ;
        let row_off: usize = pr as usize * decoded.width as usize;
        let mut pc: i64 = lo;
        while pc < hi
            invariant
                steady(m),
                w == decoded.width,
                n == decoded.data@.len(),
                row_off == off,
                0 <= off,
                off + w <= n,
                (pr - top) * w + w <= n,
                0 <= lo <= pc,
                hi <= w,
                lo < hi ==> pc <= hi,
                lo >= hi ==> pc == lo,
                (sum, count as nat) == row_sum(
                    m,
                    decoded.data@,
                    off,
                    lo as int,
                    pc as int,
                    start,
                ),
                count <= (pr - top) * w + (pc - lo),
            decreases hi - pc,
        {
            let v = decoded.data[row_off + pc as usize];
            if v.is_finite() {
                sum = plus_d(m, sum, widen(m, v));
                count = count + 1;
            }
            pc = pc + 1;
        }
        assert((pr + 1 - top) * w == (pr - top) * w + w) by (nonlinear_arith);
        assert((sum, count as nat) == row_sum(m, decoded.data@, off, lo as int, hi as int, start));
        pr = pr + 1;
    }
    (sum, count)
}

/// Average of the tile's pixels over cell (r, c), where they overlap.
fn sample_cell<M: Math>(
    m: &M,
    tile: &TileAsset,
    decoded: &DecodedTile,
    out_bbox: (Double, Double, Double, Double),
    target_cell_m: Single,
    r: u32,
    c: u32,
    Ghost(o): Ghost<Overlay>,
) -> (s: Option<Single>)
    requires
        steady(m),
        decoded.data@.len() == decoded.width * decoded.height,
        o == overlay_of(tile, decoded.model(), out_bbox, target_cell_m, o.rows, o.cols),
        in_reach(m, o, r as int, c as int),
    ensures
        s == sample_at(m, o, r as int, c as int),
{
    let side = Double { bits: TILE_SIDE_M };
    let tile_e_min = times_d(m, double(m, tile.e_km as i128), side);
    let tile_e_max = plus_d(m, tile_e_min, side);
    let tile_n_min = times_d(m, double(m, tile.n_km as i128), side);
    let tile_n_max = plus_d(m, tile_n_min, side);
    let cs = widen(m, target_cell_m);

    let cell_n_max = minus_d(m, out_bbox.3, times_d(m, double(m, r as i128), cs));
    let cell_n_min = minus_d(m, cell_n_max, cs);
    let cell_e_min = plus_d(m, out_bbox.0, times_d(m, double(m, c as i128), cs));
    let cell_e_max = plus_d(m, cell_e_min, cs);
    // Intersect with tile.
    let isect_e_min = cell_e_min.max(tile_e_min);
    let isect_e_max = cell_e_max.min(tile_e_max);
    let isect_n_min = cell_n_min.max(tile_n_min);
    let isect_n_max = cell_n_max.min(tile_n_max);
    if isect_e_max.le(&isect_e_min) || isect_n_max.le(&isect_n_min) {
        return None;
    }
    // Map to pixel coords inside the tile. pixel (0,0) is the NW
    // corner; col increases east, row increases south.
    let pixel_size = over_d(m, side, double(m, decoded.width as i128));
    let lo: i64 = first_of(m, minus_d(m, isect_e_min, tile_e_min), pixel_size);
    let hi: i64 = end_of(m, minus_d(m, isect_e_max, tile_e_min), pixel_size, decoded.width);
    let top: i64 = first_of(m, minus_d(m, tile_n_max, isect_n_max), pixel_size);
    let bottom: i64 = end_of(m, minus_d(m, tile_n_max, isect_n_min), pixel_size, decoded.height);
    let (sum, count) = sum_window(m, decoded, top, bottom, lo, hi);
    if count > 0 {
        Some(narrow(m, over_d(m, sum, double(m, count as i128))))
    } else {
        None
    }
}

/// For every cell of the output grid, sample (with simple averaging) from the
/// tile if the cell falls inside the tile's LV95 footprint.
pub fn composite_tile_into<M: Math>(
    m: &M,
    tile: &TileAsset,
    decoded: &DecodedTile,
    out_bbox: (Double, Double, Double, Double),
    target_cell_m: Single,
    rows: u32,
    cols: u32,
    out: &mut Vec<Single>,
)
    requires
        steady(m),
        decoded.data@.len() == decoded.width * decoded.height,
        old(out)@.len() == rows * cols,
        rows * cols <= u32::MAX,
    ensures
        final(out)@.len() == rows * cols,
        forall|r: int, c: int|
            0 <= r < rows && 0 <= c < cols ==> final(out)@[#[trigger] flat(cols as int, r, c)]
                == overlaid(
                m,
                old(out)@[flat(cols as int, r, c)],
                sample_at(
                    m,
                    overlay_of(tile, decoded.model(), out_bbox, target_cell_m, rows, cols),
                    r,
                    c,
                ),
            ),
{
    let ghost o = overlay_of(tile, decoded.model(), out_bbox, target_cell_m, rows, cols);
    let ghost start = out@;
    let side = Double { bits: TILE_SIDE_M };
    let tile_e_min = times_d(m, double(m, tile.e_km as i128), side);
    let tile_e_max = plus_d(m, tile_e_min, side);
    let tile_n_min = times_d(m, double(m, tile.n_km as i128), side);
    let tile_n_max = plus_d(m, tile_n_min, side);
    let cs = widen(m, target_cell_m);
    let (e_min, _, _, n_max) = out_bbox;
    let c_lo: i64 = first_of(m, minus_d(m, tile_e_min, e_min), cs);
    let c_hi: i64 = end_of(m, minus_d(m, tile_e_max, e_min), cs, cols);
    let r_lo: i64 = first_of(m, minus_d(m, n_max, tile_n_max), cs);
    let r_hi: i64 = end_of(m, minus_d(m, n_max, tile_n_min), cs, rows);
    proof {
        assert forall|r: int, c: int| in_reach(m, o, r, c) <==> (r_lo <= r < r_hi && c_lo <= c < c_hi) by {}
    }
    let mut r: i64 = r_lo;
    while r < r_hi
        invariant
            steady(m),
            decoded.data@.len() == decoded.width * decoded.height,
            rows * cols <= u32::MAX,
            out@.len() == rows * cols,
            start.len() == rows * cols,
            o == overlay_of(tile, decoded.model(), out_bbox, target_cell_m, rows, cols),
            forall|r: int, c: int| #[trigger]
                in_reach(m, o, r, c) <==> (r_lo <= r < r_hi && c_lo <= c < c_hi),
            0 <= r_lo <= r,
            r_lo < r_hi ==> r <= r_hi,
            r_hi <= rows,
            0 <= c_lo,
            c_hi <= cols,
            forall|a: int, b: int|
                0 <= a < rows && 0 <= b < cols ==> out@[#[trigger] flat(cols as int, a, b)] == if a
                    < r {
                    overlaid(m, start[flat(cols as int, a, b)], sample_at(m, o, a, b))
                } else {
                    start[flat(cols as int, a, b)]
                },
        decreases r_hi - r,
    {
        let mut c: i64 = c_lo;
        while c < c_hi
            invariant
                steady(m),
                decoded.data@.len() == decoded.width * decoded.height,
                rows * cols <= u32::MAX,
                out@.len() == rows * cols,
                start.len() == rows * cols,
                o == overlay_of(tile, decoded.model(), out_bbox, target_cell_m, rows, cols),
                forall|r: int, c: int| #[trigger]
                    in_reach(m, o, r, c) <==> (r_lo <= r < r_hi && c_lo <= c < c_hi),
                0 <= r_lo <= r < r_hi <= rows,
                0 <= c_lo <= c,
                c_lo < c_hi ==> c <= c_hi,
                c_hi <= cols,
                forall|a: int, b: int|
                    0 <= a < rows && 0 <= b < cols ==> out@[#[trigger] flat(cols as int, a, b)]
                        == if a < r || (a == r && b < c) {
                        overlaid(m, start[flat(cols as int, a, b)], sample_at(m, o, a, b))
                    } else {
                        start[flat(cols as int, a, b)]
                    },
            decreases c_hi - c,
        {
            let ghost before = out@;
            assert(in_reach(m, o, r as int, c as int));
            let sample = sample_cell(
                m,
                tile,
                decoded,
                out_bbox,
                target_cell_m,
                r as u32,
                c as u32,
                Ghost(o),
            );
            proof {
                lemma_flat_in_range(rows as int, cols as int, r as int, c as int);
            }
            let at: usize = (r as u32 * cols + c as u32) as usize;
            assert(at == flat(cols as int, r as int, c as int));
            if let Some(avg) = sample {
                let prev = out[at];
                out[at] = if prev.is_finite() {
                    // Average with whatever was there from a neighboring tile.
                    times(m, plus(m, prev, avg), Single { bits: HALF })
                } else {
                    avg
                };
            }
            proof {
                assert forall|a: int, b: int|
                    0 <= a < rows && 0 <= b < cols implies out@[#[trigger] flat(cols as int, a, b)]
                    == if a < r || (a == r && b < c + 1) {
                    overlaid(m, start[flat(cols as int, a, b)], sample_at(m, o, a, b))
                } else {
                    start[flat(cols as int, a, b)]
                } by {
                    lemma_flat_in_range(rows as int, cols as int, a, b);
                    lemma_flat_unique(cols as int, a, b);
                    lemma_flat_unique(cols as int, r as int, c as int);
                    if a == r && b == c {
                        assert(before[flat(cols as int, a, b)] == start[flat(cols as int, a, b)]);
                    } else {
                        assert(flat(cols as int, a, b) != at);
                        assert(out@[flat(cols as int, a, b)] == before[flat(cols as int, a, b)]);
                    }
                }
            }
            c = c + 1;
        }
        proof {
            assert forall|a: int, b: int|
                0 <= a < rows && 0 <= b < cols implies out@[#[trigger] flat(cols as int, a, b)]
                == if a < r + 1 {
                overlaid(m, start[flat(cols as int, a, b)], sample_at(m, o, a, b))
            } else {
                start[flat(cols as int, a, b)]
            } by {
                if a == r && b >= c {
                    assert(!in_reach(m, o, a, b));
                }
            }
        }
        r = r + 1;
    }
    proof {
        assert forall|a: int, b: int|
            0 <= a < rows && 0 <= b < cols implies out@[#[trigger] flat(cols as int, a, b)]
            == overlaid(m, start[flat(cols as int, a, b)], sample_at(m, o, a, b)) by {
            if a >= r {
                assert(!in_reach(m, o, a, b));
            }
        }
    }
}

/// The bounding box of a region as (e_min, n_min, e_max, n_max).
pub open spec fn box_of(region: Region) -> (Double, Double, Double, Double) {
    (region.bbox_lv95.e_min, region.bbox_lv95.n_min, region.bbox_lv95.e_max, region.bbox_lv95.n_max)
}

/// Whether `after` is a region with a tile laid over it.
pub open spec fn is_overlaid<M: Math>(
    m: &M,
    tile: &TileAsset,
    decoded: DecodedModel,
    before: Region,
    after: Region,
) -> bool {
    let o = overlay_of(tile, decoded, box_of(before), before.cell_size_m, before.rows, before.cols);
    &&& after.origin_e == before.origin_e
    &&& after.origin_n == before.origin_n
    &&& after.cell_size_m == before.cell_size_m
    &&& after.rows == before.rows
    &&& after.cols == before.cols
    &&& after.bbox_lv95 == before.bbox_lv95
    &&& after.data@.len() == before.data@.len()
    &&& forall|r: int, c: int|
        0 <= r < before.rows && 0 <= c < before.cols ==> after.data@[#[trigger] flat(
            before.cols as int,
            r,
            c,
        )] == overlaid(m, before.data@[flat(before.cols as int, r, c)], sample_at(m, o, r, c))
}

/// Lays a tile over a region: what its asset holds, or what is wrong with it.
pub fn add_tile<M: Math>(m: &M, tile: &TileAsset, bytes: &[u8], region: &mut Region) -> (r: Result<
    (),
    DataError,
>)
    requires
        steady(m),
        old(region).rows * old(region).cols <= u32::MAX,
        old(region).data@.len() == old(region).rows * old(region).cols,
    ensures
        match (r, asset_tile(m, tile.e_km, tile.n_km, bytes@)) {
            (Ok(_), Ok(decoded)) => is_overlaid(m, tile, decoded, *old(region), *final(region)),
            (Err(e), Err(model)) => e.model() == model && *final(region) == *old(region),
            _ => false,
        },
{
    let decoded = match decode(m, bytes, tile.e_km, tile.n_km) {
        Ok(t) => t,
        Err(e) => {
            return Err(e);
        },
    };
    let b = region.bbox_lv95;
    composite_tile_into(
        m,
        tile,
        &decoded,
        (b.e_min, b.n_min, b.e_max, b.n_max),
        region.cell_size_m,
        region.rows,
        region.cols,
        &mut region.data,
    );
    Ok(())
}

/// Coordinates are moved to the nearest multiple of the cell size, to the one
/// below or to the one above. Stated of coordinates within a quarter of a cell of
/// the multiple, or three quarters for the one below and the one above.
pub proof fn coordinates_are_moved_to_multiples<M: Math>(
    m: &M,
    rnd: spec_fn(real) -> int,
    wide: spec_fn(real) -> int,
    x: Double,
    cell: Single,
    side: int,
    k: int,
)
    requires
        rounds_d(m, wide),
        converts(m, rnd),
        steps_d(m),
        x.finite(),
        counts(cell, side),
        1 <= side <= 0x10_0000,
        -0x10_0000 <= k <= 0x10_0000,
    ensures
        ((4 * k - 1) * side) as real / 4real <= value_d(x) <= ((4 * k + 1) * side) as real / 4real
            ==> holds(snap(m, x, cell), k * side),
        ((4 * k) * side) as real / 4real <= value_d(x) <= ((4 * k + 3) * side) as real / 4real
            ==> holds(snap_down(m, x, cell), k * side),
        ((4 * k - 3) * side) as real / 4real <= value_d(x) <= ((4 * k) * side) as real / 4real
            ==> holds(snap_up(m, x, cell), k * side),
{
    let cs = widen(m, cell);
    let q = over_d(m, x, cs);
    assert(-0x100_0000_0000 <= k * side <= 0x100_0000_0000) by (nonlinear_arith)
        requires
            1 <= side <= 0x10_0000,
            -0x10_0000 <= k <= 0x10_0000,
    ;
    if ((4 * k - 1) * side) as real / 4real <= value_d(x) <= ((4 * k + 1) * side) as real
        / 4real {
        wide_shares_stay_between(m, wide, x, cs, side, 4 * k - 1, 4 * k + 1);
        assert(is_nearest_d(q, k));
        wide_whole_arithmetic_is_exact(m, wide, round_d(m, q), k, cs, side);
    }
    if ((4 * k) * side) as real / 4real <= value_d(x) <= ((4 * k + 3) * side) as real / 4real {
        wide_shares_stay_between(m, wide, x, cs, side, 4 * k, 4 * k + 3);
        assert(is_floor_d(q, k));
        wide_whole_arithmetic_is_exact(m, wide, floor_d(m, q), k, cs, side);
    }
    if ((4 * k - 3) * side) as real / 4real <= value_d(x) <= ((4 * k) * side) as real / 4real {
        wide_shares_stay_between(m, wide, x, cs, side, 4 * k - 3, 4 * k);
        assert(is_ceil_d(q, k));
        wide_whole_arithmetic_is_exact(m, wide, ceil_d(m, q), k, cs, side);
    }
}

/// There are as many cells between two coordinates as fit, to the nearest one.
pub proof fn cells_fit_between_coordinates<M: Math>(
    m: &M,
    rnd: spec_fn(real) -> int,
    wide: spec_fn(real) -> int,
    lo: Double,
    hi: Double,
    apart: Double,
    cell: Single,
    side: int,
    k: int,
)
    requires
        rounds_d(m, wide),
        converts(m, rnd),
        steps_d(m),
        lo.finite() && hi.finite() && apart.finite(),
        value_d(apart) == value_d(hi) - value_d(lo),
        counts(cell, side),
        1 <= side <= 0x10_0000,
        0 <= k <= 0x10_0000,
        ((4 * k - 1) * side) as real / 4real <= value_d(apart) <= ((4 * k + 1) * side) as real
            / 4real,
    ensures
        cells_between(m, lo, hi, cell) == k,
{
    let cs = widen(m, cell);
    let d = minus_d(m, hi, lo);
    wide_rounding_keeps_sides(m, wide, d, value_d(apart), apart);
    let q = over_d(m, d, cs);
    wide_shares_stay_between(m, wide, d, cs, side, 4 * k - 1, 4 * k + 1);
    assert(is_nearest_d(q, k));
    assert(is_integer_d(round_d(m, q), k));
}

/// The cells or pixels that a stretch touches run from the one that its start is
/// in up to the one that its end is in, as far as there are any.
pub proof fn stretches_touch_cells<M: Math>(
    m: &M,
    wide: spec_fn(real) -> int,
    offset: Double,
    size: Double,
    side: int,
    k: int,
    count: int,
)
    requires
        rounds_d(m, wide),
        steps_d(m),
        offset.finite(),
        holds(size, side),
        1 <= side <= 0x10_0000,
        -0x10_0000 <= k <= 0x10_0000,
    ensures
        ((4 * k) * side) as real / 4real <= value_d(offset) <= ((4 * k + 3) * side) as real / 4real
            ==> first_at(m, offset, size) == if k < 0 {
            0
        } else {
            k
        },
        ((4 * k - 3) * side) as real / 4real <= value_d(offset) <= ((4 * k) * side) as real / 4real
            ==> end_at(m, offset, size, count) == if k < count {
            k
        } else {
            count
        },
{
    let q = over_d(m, offset, size);
    if ((4 * k) * side) as real / 4real <= value_d(offset) <= ((4 * k + 3) * side) as real
        / 4real {
        wide_shares_stay_between(m, wide, offset, size, side, 4 * k, 4 * k + 3);
        assert(is_floor_d(q, k));
        assert(is_integer_d(floor_d(m, q), k));
    }
    if ((4 * k - 3) * side) as real / 4real <= value_d(offset) <= ((4 * k) * side) as real
        / 4real {
        wide_shares_stay_between(m, wide, offset, size, side, 4 * k - 3, 4 * k);
        assert(is_ceil_d(q, k));
        assert(is_integer_d(ceil_d(m, q), k));
    }
}

/// Where a cell is known already, what is laid over it is taken half and half:
/// between the two, and no other where they agree.
pub proof fn overlaid_cells_are_means<M: Math>(
    m: &M,
    rnd: spec_fn(real) -> int,
    prev: Single,
    i: int,
    sample: Single,
    j: int,
    mean: int,
)
    requires
        rounds(m, rnd),
        counts(prev, i) && counts(sample, j),
        -100_000 <= i <= 100_000,
        -100_000 <= j <= 100_000,
        i + j == 2 * mean,
    ensures
        counts(overlaid(m, prev, Some(sample)), mean),
{
    powers_of_two();
    whole_arithmetic_is_exact(m, rnd, prev, i, sample, j);
    let c = whole_numbers_are_exact(m, rnd, mean);
    rounding_keeps_sides(
        m,
        rnd,
        overlaid(m, prev, Some(sample)),
        ((i + j) as real) * (1real / 2real),
        c,
    );
}

} // verus!
