//! Gathering of data: tiles, regions, lifts, trails, obstacles, restricted areas.

use std::io::{Cursor, Write};

use hikefly::bafu::{
    all_layers, classify, layer_url, layer_warnings, IdentifyFeature, LAYER_CTR,
    LAYER_HUNTING_RESERVES, LAYER_NATIONAL_PARKS, LAYER_TMA, LAYER_WILDRUHEZONEN,
};
use hikefly::error::DataError;
use hikefly::json::{Json, Member};
use hikefly::lifts::{lifts_from, lifts_query, LiftElement, LiftKind};
use hikefly::lv95::lv95_to_wgs84;
use hikefly::math::{Binary, BinaryD, Math, Unary, UnaryD};
use hikefly::mosaic::{
    add_tile, blank_region, cache_file_name, cells_between, composite_tile_into, join_tiles,
    plan_multi_region, plan_region, require_tiles, snap,
};
use hikefly::obstacles::{obstacles_from, obstacles_url, ObstacleGeom, ObstacleKind};
use hikefly::osm::{OverpassPoint, Tag, Tags};
use hikefly::region::{decode_region, encode_region, BBox, Region};
use hikefly::scalar::{Double, Single};
use hikefly::stac::{
    first_page_url, latest_tiles, next_page, page_tiles, parse_tile, tiles_url, StacFeature,
    StacLink, TileAsset,
};
use hikefly::text::{chars_of, contains, ends_with, parse_u32, same_text, split, write_u32};
use hikefly::tile_reader::{decode, tile_from_content, tile_from_text, DecodedTile};
use hikefly::trails::{trail_segments, trails_query, SacScale, TrailElement};
use hikefly::union_find::UnionFind;
use hikefly::warnings::{
    point_in_polygon, warnings_from, warnings_query, OverpassMember, Severity, WarningElement,
    WarningKind,
};

/// The machine's own arithmetic.
struct Native;

fn s(x: f32) -> Single {
    Single { bits: x.to_bits() }
}

fn f(x: Single) -> f32 {
    f32::from_bits(x.bits)
}

fn d(x: f64) -> Double {
    Double { bits: x.to_bits() }
}

fn g(x: Double) -> f64 {
    f64::from_bits(x.bits)
}

impl Math for Native {
    fn unary(&self, op: Unary, a: Single) -> Single {
        let x = f(a);
        s(match op {
            Unary::Sqrt => x.sqrt(),
            Unary::Square => x.powi(2),
            Unary::Atan => x.atan(),
            Unary::Cos => x.cos(),
            Unary::Sin => x.sin(),
            Unary::Exp => x.exp(),
            Unary::Floor => x.floor(),
            Unary::Round => x.round(),
            Unary::Ceil => x.ceil(),
            Unary::ToRadians => x.to_radians(),
            Unary::ToDegrees => x.to_degrees(),
        })
    }

    fn binary(&self, op: Binary, a: Single, b: Single) -> Single {
        let (x, y) = (f(a), f(b));
        s(match op {
            Binary::Add => x + y,
            Binary::Sub => x - y,
            Binary::Mul => x * y,
            Binary::Div => x / y,
            Binary::Rem => x % y,
            Binary::RemEuclid => x.rem_euclid(y),
            Binary::Atan2 => x.atan2(y),
            Binary::Powf => x.powf(y),
        })
    }

    fn unary_d(&self, op: UnaryD, a: Double) -> Double {
        let x = g(a);
        d(match op {
            UnaryD::Sqrt => x.sqrt(),
            UnaryD::Square => x.powi(2),
            UnaryD::Cube => x.powi(3),
            UnaryD::Floor => x.floor(),
            UnaryD::Round => x.round(),
            UnaryD::Ceil => x.ceil(),
        })
    }

    fn binary_d(&self, op: BinaryD, a: Double, b: Double) -> Double {
        let (x, y) = (g(a), g(b));
        d(match op {
            BinaryD::Add => x + y,
            BinaryD::Sub => x - y,
            BinaryD::Mul => x * y,
            BinaryD::Div => x / y,
        })
    }

    fn single_from_int(&self, i: i128) -> Single {
        s(i as f32)
    }

    fn double_from_int(&self, i: i128) -> Double {
        d(i as f64)
    }

    fn single_to_int(&self, a: Single) -> i128 {
        f(a) as i128
    }

    fn double_to_int(&self, a: Double) -> i128 {
        g(a) as i128
    }

    fn widen(&self, a: Single) -> Double {
        d(f(a) as f64)
    }

    fn narrow(&self, a: Double) -> Single {
        s(g(a) as f32)
    }

    fn parse_single(&self, text: &str) -> Option<Single> {
        text.parse::<f32>().ok().map(s)
    }

    fn parse_double(&self, text: &str) -> Option<Double> {
        text.parse::<f64>().ok().map(d)
    }

    fn show_double(&self, a: Double) -> String {
        format!("{}", g(a))
    }

    fn show_whole(&self, a: Double) -> String {
        format!("{:.0}", g(a))
    }
}

const M: Native = Native;


fn text(t: &str) -> Json {
    Json::Text(t.to_string())
}

fn num(x: f64) -> Json {
    Json::Number(d(x))
}

fn object(members: Vec<(&str, Json)>) -> Json {
    Json::Object(
        members
            .into_iter()
            .map(|(key, value)| Member { key: key.to_string(), value })
            .collect(),
    )
}

fn tags(entries: &[(&str, &str)]) -> Tags {
    Tags {
        entries: entries
            .iter()
            .map(|(k, v)| Tag { key: k.to_string(), value: v.to_string() })
            .collect(),
    }
}

fn points(list: &[(f64, f64)]) -> Vec<OverpassPoint> {
    list.iter().map(|(lat, lon)| OverpassPoint { lat: d(*lat), lon: d(*lon) }).collect()
}

fn tile(e_km: u32, n_km: u32, year: u32) -> TileAsset {
    TileAsset { e_km, n_km, year, gsd: s(2.0), href: format!("{}-{}-{}", year, e_km, n_km) }
}

fn places(tiles: &[TileAsset]) -> Vec<(u32, u32, u32)> {
    tiles.iter().map(|t| (t.e_km, t.n_km, t.year)).collect()
}

// Tiles on offer.

#[test]
fn tile_requests_name_the_bbox() {
    assert_eq!(
        first_page_url(&M, d(7.5), d(46.25), d(8.0), d(47.0)),
        "https://data.geo.admin.ch/api/stac/v0.9/collections/ch.swisstopo.swissalti3d/items\
         ?bbox=7.5,46.25,8,47&limit=100"
    );
    // An LV95 box is named by its corners in degrees.
    let bbox = BBox {
        e_min: d(2_600_000.0),
        n_min: d(1_200_000.0),
        e_max: d(2_601_000.0),
        n_max: d(1_201_000.0),
    };
    let (lon_min, lat_min) = lv95_to_wgs84(&M, bbox.e_min, bbox.n_min);
    let (lon_max, lat_max) = lv95_to_wgs84(&M, bbox.e_max, bbox.n_max);
    assert!((g(lon_min) - 7.4386).abs() < 1e-3 && (g(lat_min) - 46.9511).abs() < 1e-3);
    assert_eq!(
        tiles_url(&M, &bbox),
        first_page_url(&M, lon_min, lat_min, lon_max, lat_max)
    );
}

#[test]
fn tiles_are_read_from_their_ids() {
    let assets = object(vec![
        ("swissalti3d_2019_2626-1171_0.5_2056_5728.xyz.zip", object(vec![("href", text("fine"))])),
        ("swissalti3d_2019_2626-1171_2_2056_5728.tif", object(vec![("href", text("tiff"))])),
        ("swissalti3d_2019_2626-1171_2_2056_5728.xyz.zip", object(vec![("href", text("url"))])),
    ]);
    let t = parse_tile("swissalti3d_2019_2626-1171", &assets).unwrap().unwrap();
    assert_eq!((t.e_km, t.n_km, t.year), (2626, 1171, 2019));
    assert_eq!(f(t.gsd), 2.0);
    assert_eq!(t.href, "url");
}

#[test]
fn ids_of_other_shapes_are_skipped() {
    let assets = object(vec![]);
    for id in [
        "swissalti3d_2019",
        "swissalti3d_x_2626-1171",
        "swissalti3d_2019_2626",
        "swissalti3d_2019_a-1171",
        "swissalti3d_2019_2626-b",
        "swissalti3d_2019_2626-4294967296",
    ] {
        assert!(parse_tile(id, &assets).unwrap().is_none(), "{}", id);
    }
}

#[test]
fn tiles_without_their_asset_are_missing() {
    let id = "swissalti3d_2019_2626-1171";
    for assets in [Json::Null, object(vec![]), object(vec![("a_2_2056_b.xyz.zip", Json::Null)])] {
        let e = parse_tile(id, &assets).unwrap_err();
        assert_eq!(e.message(), "no DEM tile in STAC item swissalti3d_2019_2626-1171");
        assert!(matches!(e, DataError::MissingAsset(_)));
    }
}

#[test]
fn pages_list_their_tiles() {
    let good = object(vec![("t_2_2056_5728.xyz.zip", object(vec![("href", text("u"))]))]);
    let page = vec![
        StacFeature { id: "odd".to_string(), assets: Json::Null },
        StacFeature { id: "swissalti3d_2019_2626-1171".to_string(), assets: good },
    ];
    assert_eq!(places(&page_tiles(&page).unwrap()), vec![(2626, 1171, 2019)]);
    let bad = vec![StacFeature { id: "a_1_2-3".to_string(), assets: Json::Null }];
    assert!(page_tiles(&bad).is_err());
}

#[test]
fn pages_lead_to_the_next() {
    let link = |rel: &str, href: &str| StacLink { rel: rel.to_string(), href: href.to_string() };
    assert_eq!(
        next_page(&vec![link("self", "a"), link("next", "b"), link("next", "c")]),
        Some("b".to_string())
    );
    assert_eq!(next_page(&vec![link("self", "a")]), None);
}

#[test]
fn only_the_latest_tile_of_a_place_is_kept() {
    let all = vec![tile(5, 1, 2019), tile(4, 9, 2020), tile(5, 1, 2022), tile(4, 2, 2018)];
    assert_eq!(
        places(&latest_tiles(&all)),
        vec![(4, 2, 2018), (4, 9, 2020), (5, 1, 2022)]
    );
}

// Tiles.

fn archive(name: &str, content: &[u8]) -> Vec<u8> {
    let mut w = zip::ZipWriter::new(Cursor::new(Vec::new()));
    let options = zip::write::SimpleFileOptions::default();
    w.start_file("readme.txt", options).unwrap();
    w.write_all(b"1 2 3").unwrap();
    w.start_file(name, options).unwrap();
    w.write_all(content).unwrap();
    w.finish().unwrap().into_inner()
}

#[test]
fn tiles_are_unpacked() {
    let content = b"2626000 1172000 500.5\n2626998.0 1171002.0 7\r\n\nx y z\n0 0 1\n";
    let t = decode(&M, &archive("tile.xyz", content), 2626, 1171).unwrap();
    assert_eq!((t.width, t.height), (500, 500));
    assert_eq!(t.data.len(), 250_000);
    assert_eq!(f(t.data[0]), 500.5);
    assert_eq!(f(t.data[499 * 500 + 499]), 7.0);
    assert!(t.data[1].is_nan());
}

#[test]
fn archives_without_points_are_refused() {
    let e = decode(&M, &archive("tile.txt", b"2626000 1172000 1"), 2626, 1171).unwrap_err();
    assert_eq!(e.message(), "invalid region binary: no .xyz file inside .xyz.zip");
    let e = decode(&M, b"no archive", 2626, 1171).unwrap_err();
    assert!(e.message().starts_with("invalid region binary: zip: "));
    let e = decode(&M, &archive("tile.xyz", &[0xff, 0xfe]), 2626, 1171).unwrap_err();
    assert!(e.message().starts_with("invalid region binary: xyz utf8: "));
    let e = decode(&M, &archive("tile.xyz", b"far 0 0"), 2626, 1171).unwrap_err();
    assert_eq!(e.message(), "invalid region binary: xyz had no usable rows");
}

#[test]
fn later_points_overwrite_earlier_ones() {
    let t = tile_from_text(&M, "2626002 1172000 1\n2626002 1172000 2", 2626, 1171).unwrap();
    assert_eq!(f(t.data[1]), 2.0);
    let t = tile_from_content(&M, "2626002 1172000 3".as_bytes(), 2626, 1171).unwrap();
    assert_eq!(f(t.data[1]), 3.0);
}

// Regions.

#[test]
fn frames_align_to_whole_cells() {
    assert_eq!(g(snap(&M, d(1012.0), s(25.0))), 1000.0);
    assert_eq!(g(snap(&M, d(1013.0), s(25.0))), 1025.0);
    assert_eq!(cells_between(&M, d(1000.0), d(1100.0), s(25.0)), 4);
    let bbox = BBox { e_min: d(1012.0), n_min: d(987.0), e_max: d(1113.0), n_max: d(1049.0) };
    let frame = plan_region(&M, bbox, s(25.0)).unwrap();
    assert_eq!((g(frame.bbox.e_min), g(frame.bbox.n_min)), (1000.0, 975.0));
    assert_eq!((g(frame.bbox.e_max), g(frame.bbox.n_max)), (1125.0, 1050.0));
    assert_eq!((frame.rows, frame.cols), (3, 5));
    let region = blank_region(&M, frame, s(25.0));
    assert_eq!((g(region.origin_e), g(region.origin_n)), (1012.5, 1037.5));
    assert_eq!(region.data.len(), 15);
    assert!(region.data.iter().all(|v| v.is_nan()));
}

#[test]
fn cells_below_the_source_resolution_are_refused() {
    let bbox = BBox { e_min: d(0.0), n_min: d(0.0), e_max: d(10.0), n_max: d(10.0) };
    let e = plan_region(&M, bbox, s(1.5)).unwrap_err();
    assert_eq!(
        e.message(),
        "invalid region binary: target_cell_m < 2 m is below source resolution"
    );
    assert!(plan_region(&M, bbox, s(2.0)).is_ok());
    assert!(plan_multi_region(&M, &vec![bbox], s(1.5)).is_err());
}

#[test]
fn hulls_hold_every_box() {
    let a = BBox { e_min: d(0.0), n_min: d(50.0), e_max: d(100.0), n_max: d(150.0) };
    let b = BBox { e_min: d(200.0), n_min: d(0.0), e_max: d(300.0), n_max: d(100.0) };
    let frame = plan_multi_region(&M, &vec![a, b], s(50.0)).unwrap();
    assert_eq!((g(frame.bbox.e_min), g(frame.bbox.n_min)), (0.0, 0.0));
    assert_eq!((g(frame.bbox.e_max), g(frame.bbox.n_max)), (300.0, 150.0));
    assert_eq!((frame.rows, frame.cols), (3, 6));
    // Edges between cells go outward: no box is cut.
    let c = BBox {
        e_min: d(2_600_013.0),
        n_min: d(1_200_024.0),
        e_max: d(2_600_101.0),
        n_max: d(1_200_112.0),
    };
    let frame = plan_multi_region(&M, &vec![c], s(25.0)).unwrap();
    assert_eq!((g(frame.bbox.e_min), g(frame.bbox.n_min)), (2_600_000.0, 1_200_000.0));
    assert_eq!((g(frame.bbox.e_max), g(frame.bbox.n_max)), (2_600_125.0, 1_200_125.0));
    assert_eq!((frame.rows, frame.cols), (5, 5));
    let e = plan_multi_region(&M, &vec![], s(50.0)).unwrap_err();
    assert_eq!(e.message(), "invalid region binary: no bboxes given");
}

#[test]
fn bboxes_without_tiles_are_refused() {
    assert!(require_tiles(&vec![tile(1, 1, 2020)], "B").is_ok());
    let e = require_tiles(&vec![], "B").unwrap_err();
    assert_eq!(e.message(), "invalid region binary: no DEM tiles in bbox B");
}

#[test]
fn shared_tiles_are_listed_once() {
    let mut all = vec![tile(1, 1, 2020)];
    join_tiles(&mut all, &vec![tile(1, 2, 2019), tile(1, 1, 2021), tile(1, 2, 2018)]);
    assert_eq!(places(&all), vec![(1, 1, 2020), (1, 2, 2019)]);
}

#[test]
fn cached_tiles_have_telling_names() {
    assert_eq!(cache_file_name(&tile(2626, 1171, 2019)), "swissalti3d_2019_2626-1171_2m.xyz.zip");
}

#[test]
fn tiles_are_averaged_into_cells() {
    // Two by two pixels of 500 m on cells of 1 km: one cell takes the mean.
    let decoded =
        DecodedTile { width: 2, height: 2, data: vec![s(1.0), s(2.0), s(3.0), Single::missing()] };
    let bbox = (d(0.0), d(0.0), d(2000.0), d(1000.0));
    let mut out = vec![Single::missing(); 2];
    composite_tile_into(&M, &tile(1, 0, 2020), &decoded, bbox, s(1000.0), 1, 2, &mut out);
    assert!(out[0].is_nan());
    assert_eq!(f(out[1]), 2.0);
    // Where there is a value, the mean of both stays.
    composite_tile_into(&M, &tile(1, 0, 2020), &decoded, bbox, s(1000.0), 1, 2, &mut out);
    assert_eq!(f(out[1]), 2.0);
    out[1] = s(6.0);
    composite_tile_into(&M, &tile(1, 0, 2020), &decoded, bbox, s(1000.0), 1, 2, &mut out);
    assert_eq!(f(out[1]), 4.0);
}

#[test]
fn tiles_beside_the_region_change_nothing() {
    let decoded = DecodedTile { width: 1, height: 1, data: vec![s(1.0)] };
    let bbox = (d(5000.0), d(5000.0), d(6000.0), d(6000.0));
    let mut out = vec![Single::missing(); 1];
    composite_tile_into(&M, &tile(1, 1, 2020), &decoded, bbox, s(1000.0), 1, 1, &mut out);
    composite_tile_into(&M, &tile(9, 9, 2020), &decoded, bbox, s(1000.0), 1, 1, &mut out);
    assert!(out[0].is_nan());
}

#[test]
fn assets_are_laid_over_regions() {
    let bbox = BBox { e_min: d(1000.0), n_min: d(0.0), e_max: d(2000.0), n_max: d(1000.0) };
    let frame = plan_region(&M, bbox, s(500.0)).unwrap();
    let mut region = blank_region(&M, frame, s(500.0));
    let bytes = archive("t.xyz", b"1000 1000 4\n1002 1000 6\n1998 2 9");
    add_tile(&M, &tile(1, 0, 2020), &bytes, &mut region).unwrap();
    assert_eq!(f(region.data[0]), 5.0);
    assert!(region.data[1].is_nan() && region.data[2].is_nan());
    assert_eq!(f(region.data[3]), 9.0);
    assert!(add_tile(&M, &tile(1, 0, 2020), b"junk", &mut region).is_err());
    assert_eq!(f(region.data[3]), 9.0);
}

fn small_region() -> Region {
    Region {
        origin_e: d(2_600_000.5),
        origin_n: d(1_200_000.25),
        cell_size_m: s(25.0),
        rows: 2,
        cols: 3,
        data: vec![s(1.0), s(-2.5), Single::missing(), s(4.0), s(5.0), s(0.0)],
        bbox_lv95: BBox { e_min: d(1.0), n_min: d(2.0), e_max: d(3.0), n_max: d(4.0) },
    }
}

#[test]
fn regions_survive_their_file() {
    let region = small_region();
    let bytes = encode_region(&region);
    assert_eq!(bytes.len(), 68 + 6 * 4);
    assert_eq!(&bytes[..8], b"HFLY\x01\x00\x00\x00");
    assert_eq!(&bytes[8..16], &2_600_000.5_f64.to_le_bytes());
    let back = decode_region(&bytes).unwrap();
    assert_eq!(back.origin_e, region.origin_e);
    assert_eq!(back.origin_n, region.origin_n);
    assert_eq!(back.cell_size_m, region.cell_size_m);
    assert_eq!((back.rows, back.cols), (2, 3));
    assert_eq!(back.data, region.data);
    assert_eq!(back.bbox_lv95, region.bbox_lv95);
    assert_eq!(encode_region(&back), bytes);
    // What follows the data is not read.
    let mut longer = bytes.clone();
    longer.push(7);
    assert_eq!(decode_region(&longer).unwrap().data, region.data);
}

#[test]
fn broken_region_files_are_refused() {
    let bytes = encode_region(&small_region());
    let mut magic = bytes.clone();
    magic[0] = b'X';
    assert_eq!(decode_region(&magic).unwrap_err().message(), "invalid region binary: bad magic");
    let mut version = bytes.clone();
    version[4] = 2;
    assert_eq!(
        decode_region(&version).unwrap_err().message(),
        "invalid region binary: unsupported version 2"
    );
    assert!(matches!(decode_region(&bytes[..bytes.len() - 1]), Err(DataError::Io(_))));
    assert!(matches!(decode_region(&bytes[..3]), Err(DataError::Io(_))));
}

#[test]
fn regions_know_their_altitudes() {
    let region = small_region();
    let (lo, hi) = region.altitude_range();
    assert_eq!((f(lo), f(hi)), (-2.5, 5.0));
    let dem = region.into_dem();
    assert_eq!(dem.get(1, 1).map(f), Some(5.0));
    assert_eq!(g(dem.origin.e), 2_600_000.5);
}

#[test]
fn errors_say_what_is_wrong() {
    let e = |x: DataError| x.message();
    assert_eq!(e(DataError::Http("a".to_string())), "http error: a");
    assert_eq!(e(DataError::Io("b".to_string())), "io: b");
    assert_eq!(e(DataError::Json("c".to_string())), "json: c");
    assert_eq!(e(DataError::MissingAsset("d".to_string())), "no DEM tile in STAC item d");
    assert_eq!(e(DataError::BadFormat("e".to_string())), "invalid region binary: e");
}

// Lifts.

#[test]
fn sets_are_joined() {
    let mut sets = UnionFind::new(5);
    sets.union(0, 1);
    sets.union(3, 4);
    assert_eq!(sets.find(0), sets.find(1));
    assert_ne!(sets.find(1), sets.find(3));
    sets.union(4, 0);
    assert_eq!(sets.find(1), sets.find(3));
    assert_ne!(sets.find(2), sets.find(3));
}

#[test]
fn on_equal_rank_the_first_root_stays() {
    let mut sets = UnionFind::new(5);
    assert_eq!((0..5).map(|i| sets.find(i)).collect::<Vec<usize>>(), vec![0, 1, 2, 3, 4]);
    sets.union(0, 1);
    sets.union(2, 3);
    sets.union(1, 3);
    assert_eq!((0..5).map(|i| sets.find(i)).collect::<Vec<usize>>(), vec![0, 0, 0, 0, 4]);
    // A set of higher rank takes in one of lower rank, whichever comes first.
    sets.union(4, 3);
    assert_eq!(sets.find(4), 0);
}

#[test]
fn kinds_of_lifts_are_read_from_tags() {
    let k = LiftKind::from_osm;
    assert_eq!(k(Some("cable_car"), None, None), Some(LiftKind::CableCar));
    assert_eq!(k(Some("gondola"), None, None), Some(LiftKind::Gondola));
    assert_eq!(k(Some("mixed_lift"), None, None), Some(LiftKind::Gondola));
    assert_eq!(k(Some("chair_lift"), None, None), Some(LiftKind::ChairLift));
    assert_eq!(k(Some("goods"), None, None), Some(LiftKind::GoodsLift));
    assert_eq!(k(Some("zip_line"), None, None), Some(LiftKind::GoodsLift));
    assert_eq!(k(Some("t-bar"), Some("funicular"), None), None);
    assert_eq!(k(None, Some("funicular"), None), Some(LiftKind::Funicular));
    assert_eq!(k(None, Some("rack_railway"), None), Some(LiftKind::CogRailway));
    assert_eq!(k(None, Some("rail"), Some("riggenbach")), Some(LiftKind::CogRailway));
    assert_eq!(k(None, Some("narrow_gauge"), Some("abt")), Some(LiftKind::CogRailway));
    assert_eq!(k(None, Some("rail"), None), None);
    assert_eq!(k(None, None, Some("abt")), None);
}

#[test]
fn lifts_have_speeds() {
    assert_eq!(f(LiftKind::CableCar.speed_ms()), 8.0);
    assert_eq!(f(LiftKind::Gondola.speed_ms()), 5.0);
    assert_eq!(f(LiftKind::ChairLift.speed_ms()), 2.5);
    assert_eq!(f(LiftKind::DragLift.speed_ms()), 2.5);
    assert_eq!(f(LiftKind::Funicular.speed_ms()), 8.0);
    assert_eq!(f(LiftKind::CogRailway.speed_ms()), 7.0);
    assert_eq!(f(LiftKind::GoodsLift.speed_ms()), 1.0);
    assert!(LiftKind::Gondola.is_human_transport());
    assert!(!LiftKind::GoodsLift.is_human_transport());
}

fn node(id: u64, lat: f64, lon: f64) -> LiftElement {
    LiftElement::Node { id, lat: d(lat), lon: d(lon) }
}

fn way(nodes: &[u64], entries: &[(&str, &str)]) -> LiftElement {
    LiftElement::Way { nodes: nodes.to_vec(), tags: tags(entries) }
}

#[test]
fn ways_that_touch_make_one_lift() {
    let elements = vec![
        way(&[1, 2], &[("railway", "rack_railway")]),
        way(&[9, 8], &[("aerialway", "gondola")]),
        way(&[2, 3], &[("railway", "rack_railway"), ("name", "Cog")]),
        way(&[3, 4], &[("railway", "funicular")]),
        way(&[4], &[("railway", "funicular"), ("name", "Short")]),
        node(1, 46.70, 7.80),
        node(2, 46.71, 7.80),
        node(3, 46.72, 7.80),
        node(4, 46.73, 7.80),
        node(9, 46.50, 7.50),
        node(8, 46.50, 7.51),
        LiftElement::Other,
    ];
    let lifts = lifts_from(&M, &elements);
    assert_eq!(lifts.len(), 2);
    assert_eq!(lifts[0].name, "Cog");
    assert_eq!(lifts[0].kind, LiftKind::CogRailway);
    assert_eq!((g(lifts[0].lower.lat), g(lifts[0].upper.lat)), (46.70, 46.73));
    assert!((f(lifts[0].length_m) - 3336.0).abs() < 5.0, "{}", f(lifts[0].length_m));
    let expected = f(lifts[0].length_m) / 7.0 + 180.0;
    assert!((f(lifts[0].travel_seconds) - expected).abs() < 0.1);
    assert_eq!(lifts[1].name, "Gondola");
}

#[test]
fn short_lines_are_junk() {
    let elements = vec![
        way(&[1, 2], &[("aerialway", "gondola")]),
        way(&[3, 4], &[("aerialway", "gondola")]),
        node(1, 46.7, 7.8),
        node(2, 46.7005, 7.8),
        node(3, 46.7, 7.9),
    ];
    assert!(lifts_from(&M, &elements).is_empty());
}

#[test]
fn lift_queries_name_the_bbox() {
    let q = lifts_query(&M, d(7.0), d(46.5), d(8.5), d(47.0));
    assert!(q.starts_with("[out:json][timeout:120];\n(\n"));
    assert_eq!(q.matches("(46.5,7,47,8.5)").count(), 4);
    assert!(q.ends_with(");\nout body;\n>;\nout skel;"));
}

// Trails.

#[test]
fn scales_have_names() {
    for (scale, name) in [
        (SacScale::T1Hiking, "hiking"),
        (SacScale::T2MountainHiking, "mountain_hiking"),
        (SacScale::T3DemandingMountain, "demanding_mountain_hiking"),
        (SacScale::T4AlpineHiking, "alpine_hiking"),
        (SacScale::T5DemandingAlpine, "demanding_alpine_hiking"),
        (SacScale::T6DifficultAlpine, "difficult_alpine_hiking"),
    ] {
        assert_eq!(SacScale::from_osm(name), Some(scale));
        assert_eq!(f(scale.cost_multiplier()), 1.0);
    }
    assert_eq!(SacScale::from_osm("T1"), None);
    assert_eq!(
        SacScale::overpass_regex(SacScale::T5DemandingAlpine),
        "^(demanding_alpine_hiking|difficult_alpine_hiking)$"
    );
}

#[test]
fn trails_are_ways_with_a_scale() {
    let way = |entries: &[(&str, &str)], geometry: &[(f64, f64)]| TrailElement::Way {
        geometry: points(geometry),
        tags: tags(entries),
    };
    let elements = vec![
        way(&[("sac_scale", "alpine_hiking")], &[(46.7, 7.8), (46.71, 7.81)]),
        way(&[("sac_scale", "alpine_hiking")], &[(46.7, 7.8)]),
        way(&[("sac_scale", "strolling")], &[(46.7, 7.8), (46.71, 7.81)]),
        way(&[], &[(46.7, 7.8), (46.71, 7.81)]),
        TrailElement::Other,
    ];
    let trails = trail_segments(&M, &elements);
    assert_eq!(trails.len(), 1);
    assert_eq!(trails[0].sac, SacScale::T4AlpineHiking);
    assert_eq!(trails[0].points.len(), 2);
    assert!((g(trails[0].points[0][0]) - 2_628_000.0).abs() < 2000.0);
}

#[test]
fn trail_queries_name_scales_and_bbox() {
    let q = trails_query(&M, d(7.0), d(46.5), d(8.5), d(47.0), SacScale::T6DifficultAlpine);
    assert_eq!(
        q,
        "[out:json][timeout:240];\n(\n  way[\"highway\"~\"^(path|footway|track)$\"]\
         [\"sac_scale\"~\"^(difficult_alpine_hiking)$\"](46.5,7,47,8.5);\n);\nout geom;"
    );
}

// Obstacles.

#[test]
fn kinds_of_obstacles_are_read() {
    for (name, kind) in [
        ("CATENARY", ObstacleKind::Catenary),
        ("CRANE", ObstacleKind::Crane),
        ("ANTENNA", ObstacleKind::Antenna),
        ("TOWER", ObstacleKind::Tower),
        ("WIND_TURBINE", ObstacleKind::WindTurbine),
        ("WINDTURBINE", ObstacleKind::WindTurbine),
        ("BUILDING", ObstacleKind::Building),
        ("CHIMNEY", ObstacleKind::Chimney),
        ("crane", ObstacleKind::Other),
    ] {
        assert_eq!(ObstacleKind::from_bazl(name), kind);
    }
}

fn position(e: f64, n: f64, z: f64) -> Json {
    Json::List(vec![num(e), num(n), num(z)])
}

#[test]
fn obstacles_are_read() {
    let crane = object(vec![
        (
            "properties",
            object(vec![
                ("obstacletype", text("CRANE")),
                ("registrationnumber", text("R1")),
                ("topelevationamsl", num(612.5)),
                ("maxheightagl", num(50.0)),
            ]),
        ),
        (
            "geometry",
            object(vec![
                ("type", text("Point")),
                ("coordinates", position(2_600_000.0, 1_200_000.0, 612.5)),
            ]),
        ),
    ]);
    let span = Json::List(vec![
        position(2_600_000.0, 1_200_000.0, 1.0),
        Json::Null,
        Json::List(vec![num(2_600_100.0), num(1_200_000.0)]),
    ]);
    let cable = object(vec![(
        "geometry",
        object(vec![("type", text("LineString")), ("coordinates", span)]),
    )]);
    let nowhere = object(vec![("properties", object(vec![]))]);
    let short = object(vec![(
        "geometry",
        object(vec![
            ("type", text("LineString")),
            ("coordinates", Json::List(vec![position(1.0, 2.0, 3.0)])),
        ]),
    )]);
    let body = object(vec![("results", Json::List(vec![crane, cable, nowhere, short]))]);
    let found = obstacles_from(&M, &body);
    assert_eq!(found.len(), 2);
    assert_eq!(found[0].kind, ObstacleKind::Crane);
    assert_eq!(found[0].registration, "R1");
    assert_eq!((f(found[0].top_amsl_m), f(found[0].max_agl_m)), (612.5, 50.0));
    match &found[0].geom {
        ObstacleGeom::Point([lat, lon, z]) => {
            assert!((g(*lat) - 46.951).abs() < 0.01 && (g(*lon) - 7.439).abs() < 0.01);
            assert_eq!(g(*z), 612.5);
        }
        ObstacleGeom::Line(_) => panic!("a crane is a point"),
    }
    assert_eq!(found[1].kind, ObstacleKind::Other);
    match &found[1].geom {
        ObstacleGeom::Line(line) => {
            assert_eq!(line.len(), 2);
            assert_eq!(g(line[1][2]), 0.0);
        }
        ObstacleGeom::Point(_) => panic!("a cable is a line"),
    }
    assert!(obstacles_from(&M, &Json::Null).is_empty());
}

#[test]
fn obstacle_requests_name_the_bbox() {
    let url = obstacles_url(&M, (d(1.0), d(2.5), d(3.0), d(4.0)));
    assert_eq!(url.matches("1,2.5,3,4").count(), 2);
    assert!(url.contains("&layers=all:ch.bazl.luftfahrthindernis&"));
    assert!(url.ends_with("&limit=2000"));
}

// Restricted areas.

#[test]
fn layers_are_classified() {
    assert_eq!(all_layers().len(), 5);
    assert_eq!(classify("ch.bafu.unknown"), None);
    assert_eq!(classify(LAYER_CTR).map(|c| c.0), Some(WarningKind::AirspaceCtr));
    let closed = |layer: &str| classify(layer).unwrap().1.no_fly();
    assert!(closed(LAYER_WILDRUHEZONEN) && closed(LAYER_HUNTING_RESERVES));
    assert!(closed(LAYER_NATIONAL_PARKS) && closed(LAYER_CTR));
    assert!(!closed(LAYER_TMA));
    let e = layer_url(&M, "nothing", (d(1.0), d(2.0), d(3.0), d(4.0))).unwrap_err();
    assert_eq!(e.message(), "invalid region binary: unknown BAFU layer: nothing");
    let url = layer_url(&M, LAYER_CTR, (d(1.0), d(2.0), d(3.0), d(4.0))).unwrap();
    assert!(url.contains("geometry=1,2,3,4&sr=2056") && url.contains(LAYER_CTR));
    assert!(layer_warnings(&M, "nothing", &vec![]).is_err());
}

fn ring() -> Json {
    Json::List(vec![
        position(2_600_000.0, 1_200_000.0, 0.0),
        position(2_601_000.0, 1_200_000.0, 0.0),
        position(2_601_000.0, 1_201_000.0, 0.0),
    ])
}

#[test]
fn layers_give_one_area_per_polygon() {
    let feature = |kind: &str, coordinates: Json, properties: Json| IdentifyFeature {
        geometry: Some(object(vec![("type", text(kind)), ("coordinates", coordinates)])),
        attributes: Json::Null,
        properties,
    };
    let airspace = object(vec![
        ("type", text("CTR")),
        ("name", text("GRENCHEN")),
        ("designator", text("LSZG")),
        ("loli_value", num(0.0)),
        ("upli_value", num(4500.0)),
        ("loli_type", text("AGL")),
    ]);
    let features = vec![
        feature("Polygon", Json::List(vec![ring()]), airspace),
        feature(
            "MultiPolygon",
            Json::List(vec![Json::List(vec![ring()]), Json::Null, Json::List(vec![ring()])]),
            object(vec![("wrz_name", text("")), ("name", text("Two"))]),
        ),
        feature("Point", ring(), Json::Null),
        IdentifyFeature { geometry: None, attributes: Json::Null, properties: Json::Null },
    ];
    let found = layer_warnings(&M, LAYER_CTR, &features).unwrap();
    assert_eq!(found.len(), 3);
    assert_eq!(found[0].name, "GRENCHEN (LSZG, 0AGL\u{2013}4500)");
    assert_eq!(found[1].name, "Two");
    assert_eq!(found[0].kind, WarningKind::AirspaceCtr);
    assert_eq!(found[0].polygon.len(), 3);
    assert!((g(found[0].polygon[0][0]) - 46.951).abs() < 0.01);
}

#[test]
fn osm_areas_are_classified() {
    let square = [(46.0, 7.0), (46.0, 8.0), (47.0, 8.0), (47.0, 7.0)];
    let way = |entries: &[(&str, &str)]| WarningElement::Way {
        geometry: points(&square),
        tags: tags(entries),
    };
    let elements = vec![
        way(&[("aeroway", "aerodrome"), ("aerodrome:type", "public"), ("name", "A")]),
        way(&[("aeroway", "aerodrome"), ("aerodrome:type", "private")]),
        way(&[("aeroway", "aerodrome"), ("icao", "LSZB")]),
        way(&[("aeroway", "aerodrome")]),
        way(&[("boundary", "protected_area"), ("name", "WILDRUHEZONE X")]),
        way(&[("leisure", "nature_reserve"), ("protect_class", "24")]),
        way(&[("boundary", "protected_area")]),
        way(&[("boundary", "other")]),
        WarningElement::Way { geometry: points(&square[..2]), tags: tags(&[]) },
        WarningElement::Other,
    ];
    let found: Vec<(String, WarningKind, Severity)> =
        warnings_from(&elements).into_iter().map(|w| (w.name, w.kind, w.severity)).collect();
    let named = |n: &str, k: WarningKind, v: Severity| (n.to_string(), k, v);
    assert_eq!(
        found,
        vec![
            named("A", WarningKind::Airport, Severity::Critical),
            named("Airport", WarningKind::Airport, Severity::Critical),
            named("WILDRUHEZONE X", WarningKind::Wildruhezone, Severity::High),
            named("Wildruhezone", WarningKind::Wildruhezone, Severity::High),
            named("NatureReserve", WarningKind::NatureReserve, Severity::Medium),
            named("Other", WarningKind::Other, Severity::Low),
        ]
    );
}

#[test]
fn relations_give_their_outer_rings() {
    let member = |role: &str, kind: &str, count: usize| OverpassMember {
        role: role.to_string(),
        member_type: kind.to_string(),
        geometry: points(&[(46.0, 7.0), (46.0, 8.0), (47.0, 8.0)][..count]),
    };
    let relation = WarningElement::Relation {
        members: vec![
            member("outer", "way", 3),
            member("inner", "way", 3),
            member("", "way", 3),
            member("outer", "node", 3),
            member("outer", "way", 2),
        ],
        tags: tags(&[("boundary", "protected_area"), ("name", "R")]),
    };
    let found = warnings_from(&vec![relation]);
    assert_eq!(found.len(), 2);
    assert_eq!(g(found[0].polygon[1][1]), 8.0);
}

#[test]
fn points_are_in_polygons_or_not() {
    let p = |lat: f64, lon: f64| [d(lat), d(lon)];
    let square = vec![p(0.0, 0.0), p(0.0, 2.0), p(2.0, 2.0), p(2.0, 0.0)];
    assert!(point_in_polygon(&M, d(1.0), d(1.0), &square));
    assert!(!point_in_polygon(&M, d(1.0), d(3.0), &square));
    assert!(!point_in_polygon(&M, d(3.0), d(1.0), &square));
    assert!(!point_in_polygon(&M, d(1.0), d(1.0), &square[..2]));
    let mut closed = square.clone();
    closed.push(p(0.0, 0.0));
    assert!(point_in_polygon(&M, d(1.0), d(1.0), &closed));
    assert!(!point_in_polygon(&M, d(1.0), d(3.0), &closed));
    // Where the ring starts does not matter.
    let mut turned = vec![p(0.0, 0.0), p(0.0, 20.0), p(10.0, 20.0), p(10.0, 0.0)];
    for _ in 0..4 {
        assert!(point_in_polygon(&M, d(5.0), d(15.0), &turned));
        assert!(!point_in_polygon(&M, d(15.0), d(5.0), &turned));
        turned.rotate_left(1);
    }
}

#[test]
fn area_queries_name_the_bbox() {
    let q = warnings_query(&M, d(7.0), d(46.5), d(8.5), d(47.0));
    assert!(q.starts_with("[out:json][timeout:180];\n(\n"));
    assert_eq!(q.matches("(46.5,7,47,8.5);").count(), 6);
    assert!(q.ends_with(");\nout geom;"));
}

// Text and numbers.

#[test]
fn whole_numbers_read_back() {
    for n in [0, 7, 10, 2019, u32::MAX] {
        assert_eq!(write_u32(n), n.to_string());
        assert_eq!(parse_u32(&chars_of(&write_u32(n))), Some(n));
    }
    assert_eq!(parse_u32(&chars_of("+5")), Some(5));
    for wrong in ["", "+", "-1", "1x", " 1", "4294967296"] {
        assert_eq!(parse_u32(&chars_of(wrong)), None, "{:?}", wrong);
    }
}

#[test]
fn texts_are_taken_apart() {
    let parts: Vec<String> =
        split("a,,b\u{e9},", ',').into_iter().map(|p| p.into_iter().collect()).collect();
    assert_eq!(parts, vec!["a", "", "b\u{e9}", ""]);
    assert!(contains("wildruhezone", "ruhe") && contains("x", "") && !contains("ruh", "ruhe"));
    assert!(ends_with("a.xyz", ".xyz") && !ends_with("xyz", ".xyz"));
    assert!(same_text("\u{e9}", "\u{e9}") && !same_text("a", "A"));
}

#[test]
fn numbers_are_in_order() {
    let all = [
        f32::NEG_INFINITY, -2.5, -1e-40, -0.0, 0.0, 1e-45, 1.0, 1.5, f32::MAX, f32::INFINITY,
        f32::NAN,
    ];
    for a in all {
        assert_eq!(s(a).is_finite(), a.is_finite());
        assert_eq!(s(a).is_nan(), a.is_nan());
        assert_eq!(s(a).neg(), s(-a));
        assert_eq!(s(a).abs(), s(a.abs()));
        for b in all {
            assert_eq!(s(a).lt(&s(b)), a < b, "{} {}", a, b);
            assert_eq!(s(a).le(&s(b)), a <= b, "{} {}", a, b);
            assert_eq!(d(a as f64).lt(&d(b as f64)), a < b);
            assert_eq!(d(a as f64).le(&d(b as f64)), a <= b);
            if a != b && !a.is_nan() && !b.is_nan() {
                assert_eq!(f(s(a).max(s(b))), a.max(b));
                assert_eq!(f(s(a).min(s(b))), a.min(b));
                assert_eq!(g(d(a as f64).max(d(b as f64))), (a as f64).max(b as f64));
            }
        }
    }
    assert_eq!(f(Single::missing().max(s(3.0))), 3.0);
    assert_eq!(f(s(3.0).min(Single::missing())), 3.0);
    assert_eq!(f(s(7.0).clamp(s(0.0), s(1.0))), 1.0);
    assert_eq!(f(s(-7.0).clamp(s(0.0), s(1.0))), 0.0);
    assert_eq!(f(s(0.5).clamp(s(0.0), s(1.0))), 0.5);
}
