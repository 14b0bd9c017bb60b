//! Minimal swisstopo STAC client: list SwissALTI3D tile assets in a bbox.

use crate::error::{DataError, ErrorModel};
use crate::json::{Json, Member};
use crate::lv95::lv95_to_wgs84;
use crate::math::{show_double_of, steady, write_double, Math};
use crate::region::BBox;
use crate::scalar::{Double, Single};
use crate::sort::{precedes, sorted_order};
use crate::text::{
    contains, ends_with, has_ending, has_part, number_of, parse_u32, pieces, same_text, split,
    string_of, texts,
};
use vstd::prelude::*;

verus! {

/// 2 meters.
pub const TILE_GSD: u32 = 0x4000_0000;

/// One DEM tile resolved from the STAC API.
#[derive(Debug)]
pub struct TileAsset {
    /// 1km LV95 east origin (SW corner) in km, e.g. 2627.
    pub e_km: u32,
    /// 1km LV95 north origin (SW corner) in km, e.g. 1175.
    pub n_km: u32,
    /// Year of the snapshot (e.g. 2024).
    pub year: u32,
    /// Ground sample distance in meters (0.5 or 2.0).
    pub gsd: Single,
    /// Direct URL of the asset.
    pub href: String,
}

impl Clone for TileAsset {
    fn clone(&self) -> (r: Self)
        ensures
            r == *self,
    {
        TileAsset {
            e_km: self.e_km,
            n_km: self.n_km,
            year: self.year,
            gsd: self.gsd,
            href: self.href.clone(),
        }
    }
}

/// What a `TileAsset` holds.
pub struct TileModel {
    pub e_km: u32,
    pub n_km: u32,
    pub year: u32,
    pub gsd: Single,
    pub href: Seq<char>,
}

impl TileAsset {
    pub open spec fn model(self) -> TileModel {
        TileModel {
            e_km: self.e_km,
            n_km: self.n_km,
            year: self.year,
            gsd: self.gsd,
            href: self.href@,
        }
    }
}

/// What a list of tiles holds.
pub open spec fn tile_models(tiles: Seq<TileAsset>) -> Seq<TileModel> {
    tiles.map_values(|t: TileAsset| t.model())
}

/// One feature of a page.
#[derive(Debug)]
pub struct StacFeature {
    pub id: String,
    pub assets: Json,
}

/// One link of a page.
#[derive(Debug)]
pub struct StacLink {
    pub rel: String,
    pub href: String,
}

/// Address of the first page of tiles for a WGS84 bounding box.
pub open spec fn first_page_of<M: Math>(
    m: &M,
    lon_min: Double,
    lat_min: Double,
    lon_max: Double,
    lat_max: Double,
) -> Seq<char> {
    "https://data.geo.admin.ch/api/stac/v0.9/collections/ch.swisstopo.swissalti3d/items?bbox="@
        + show_double_of(m, lon_min) + ","@ + show_double_of(m, lat_min) + ","@ + show_double_of(
        m,
        lon_max,
    ) + ","@ + show_double_of(m, lat_max) + "&limit=100"@
}

/// Address of the first page of tiles for a WGS84 bounding box.
pub fn first_page_url<M: Math>(
    m: &M,
    lon_min: Double,
    lat_min: Double,
    lon_max: Double,
    lat_max: Double,
) -> (r: String)
    requires
        steady(m),
    ensures
        r@ == first_page_of(m, lon_min, lat_min, lon_max, lat_max),
{
    let mut s: String =
        "https://data.geo.admin.ch/api/stac/v0.9/collections/ch.swisstopo.swissalti3d/items?bbox=".to_owned();
    s.append(write_double(m, lon_min).as_str());
    s.append(",");
    s.append(write_double(m, lat_min).as_str());
    s.append(",");
    s.append(write_double(m, lon_max).as_str());
    s.append(",");
    s.append(write_double(m, lat_max).as_str());
    s.append("&limit=100");
    s
}

/// Address of the first page of tiles for an LV95 bounding box: its southwest
/// and its northeast corner, in WGS84.
pub fn tiles_url<M: Math>(m: &M, bbox: &BBox) -> (r: String)
    requires
        steady(m),
    ensures
        ({
            let (lon_min, lat_min) = lv95_to_wgs84(m, bbox.e_min, bbox.n_min);
            let (lon_max, lat_max) = lv95_to_wgs84(m, bbox.e_max, bbox.n_max);
            r@ == first_page_of(m, lon_min, lat_min, lon_max, lat_max)
        }),
{
    let (lon_min, lat_min) = lv95_to_wgs84(m, bbox.e_min, bbox.n_min);
    let (lon_max, lat_max) = lv95_to_wgs84(m, bbox.e_max, bbox.n_max);
    first_page_url(m, lon_min, lat_min, lon_max, lat_max)
}

/// Year and place (e, n) that the id of a tile gives, like
/// "swissalti3d_2019_2626-1171".
pub open spec fn place_of(id: Seq<char>) -> Option<(u32, u32, u32)> {
    let parts = pieces(id, '_');
    if parts.len() == 3 {
        let coords = pieces(parts[2], '-');
        if coords.len() == 2 {
            match (number_of(parts[1]), number_of(coords[0]), number_of(coords[1])) {
                (Some(year), Some(e), Some(n)) => Some((year, e, n)),
                _ => None,
            }
        } else {
            None
        }
    } else {
        None
    }
}

/// Address of an asset if it is a 2m EPSG:2056 .xyz.zip asset.
pub open spec fn grid_href(asset: Member) -> Option<Seq<char>> {
    if has_ending(asset.key@, ".xyz.zip"@) && has_part(asset.key@, "_2_2056_"@) {
        asset.value.text_at("href"@)
    } else {
        None
    }
}

/// Address of the first 2m EPSG:2056 .xyz.zip asset.
pub open spec fn first_href(assets: Seq<Member>) -> Option<Seq<char>>
    decreases assets.len(),
{
    if assets.len() == 0 {
        None
    } else {
        match first_href(assets.drop_last()) {
            Some(h) => Some(h),
            None => grid_href(assets.last()),
        }
    }
}

/// The tile that a feature is: nothing where the id gives no place, and an
/// error where the place has no asset.
pub open spec fn tile_of(id: Seq<char>, assets: Json) -> Result<Option<TileModel>, ErrorModel> {
    match place_of(id) {
        Some((year, e_km, n_km)) => {
            let href = match assets {
                Json::Object(members) => first_href(members@),
                _ => None,
            };
            match href {
                Some(h) => Ok(
                    Some(TileModel { e_km, n_km, year, gsd: Single { bits: TILE_GSD }, href: h }),
                ),
                None => Err(ErrorModel::MissingAsset(id)),
            }
        },
        None => Ok(None),
    }
}

/// Year and place (e, n) that the id of a tile gives.
fn parse_place(id: &str) -> (r: Option<(u32, u32, u32)>)
    ensures
        r == place_of(id@),
{
    let parts = split(id, '_');
    let ghost all = texts(parts@);
    if parts.len() != 3 {
        return None;
    }
    let n: usize = parts[2].len();
    assert(all[1] == parts@[1]@ && all[2] == parts@[2]@);
    let place = string_of(&parts[2], 0, n);
    assert(place@ =~= all[2]);
    let coords = split(place.as_str(), '-');
    let ghost both = texts(coords@);
    if coords.len() != 2 {
        return None;
    }
    assert(both[0] == coords@[0]@ && both[1] == coords@[1]@);
    let year: u32 = match parse_u32(&parts[1]) {
        Some(v) => v,
        None => return None,
    };
    let e: u32 = match parse_u32(&coords[0]) {
        Some(v) => v,
        None => return None,
    };
    let n: u32 = match parse_u32(&coords[1]) {
        Some(v) => v,
        None => return None,
    };
    Some((year, e, n))
}

/// An address once found stays the first.
proof fn lemma_first_href(assets: Seq<Member>, i: int)
    requires
        0 <= i <= assets.len(),
        first_href(assets.take(i)) is Some,
    ensures
        first_href(assets) == first_href(assets.take(i)),
    decreases assets.len() - i,
{
    if i < assets.len() {
        assert(assets.take(i + 1).drop_last() =~= assets.take(i));
        lemma_first_href(assets, i + 1);
    } else {
        assert(assets.take(i) =~= assets);
    }
}

/// Address of the first 2m EPSG:2056 .xyz.zip asset.
fn find_href(assets: &Vec<Member>) -> (r: Option<&str>)
    ensures
        first_href(assets@) == match r {
            Some(s) => Some(s@),
            None => None,
        },
{
    let mut i: usize = 0;
    assert(assets@.take(0) =~= Seq::empty());
    while i < assets.len()
        invariant
            i <= assets@.len(),
            first_href(assets@.take(i as int)) is None,
        decreases assets@.len() - i,
    {
        assert(assets@.take(i + 1).drop_last() =~= assets@.take(i as int));
        let asset = &assets[i];
        if ends_with(asset.key.as_str(), ".xyz.zip") && contains(asset.key.as_str(), "_2_2056_") {
            if let Some(href) = asset.value.str_at("href") {
                proof {
                    lemma_first_href(assets@, i + 1);
                }
                return Some(href);
            }
        }
        i = i + 1;
    }
    assert(assets@.take(assets@.len() as int) =~= assets@);
    None
}

/// The tile that a feature is.
pub fn parse_tile(id: &str, assets: &Json) -> (r: Result<Option<TileAsset>, DataError>)
    ensures
        tile_of(id@, *assets) == match r {
            Ok(Some(t)) => Ok(Some(t.model())),
            Ok(None) => Ok(None),
            Err(e) => Err(e.model()),
        },
{
    let (year, e_km, n_km) = match parse_place(id) {
        Some(p) => p,
        None => return Ok(None),
    };
    // The .xyz.zip asset is more decode-robust than the COG.
    let found = match assets {
        Json::Object(members) => find_href(members),
        _ => None,
    };
    match found {
        Some(href) => Ok(
            Some(
                TileAsset {
                    e_km,
                    n_km,
                    year,
                    gsd: Single { bits: TILE_GSD },
                    href: href.to_owned(),
                },
            ),
        ),
        None => Err(DataError::MissingAsset(id.to_owned())),
    }
}

/// The tiles of a page, or the first error.
pub open spec fn page_of(features: Seq<StacFeature>) -> Result<Seq<TileModel>, ErrorModel>
    decreases features.len(),
{
    if features.len() == 0 {
        Ok(Seq::empty())
    } else {
        match page_of(features.drop_last()) {
            Ok(before) => match tile_of(features.last().id@, features.last().assets) {
                Ok(Some(t)) => Ok(before.push(t)),
                Ok(None) => Ok(before),
                Err(e) => Err(e),
            },
            Err(e) => Err(e),
        }
    }
}

/// An error once met stays the first.
proof fn lemma_page_error(features: Seq<StacFeature>, i: int)
    requires
        0 <= i <= features.len(),
        page_of(features.take(i)) is Err,
    ensures
        page_of(features) == page_of(features.take(i)),
    decreases features.len() - i,
{
    if i < features.len() {
        assert(features.take(i + 1).drop_last() =~= features.take(i));
        lemma_page_error(features, i + 1);
    } else {
        assert(features.take(i) =~= features);
    }
}

/// The tiles of a page, or the first error.
pub fn page_tiles(features: &Vec<StacFeature>) -> (r: Result<Vec<TileAsset>, DataError>)
    ensures
        page_of(features@) == match r {
            Ok(v) => Ok(tile_models(v@)),
            Err(e) => Err(e.model()),
        },
{
    let mut out: Vec<TileAsset> = Vec::new();
    let mut i: usize = 0;
    assert(features@.take(0) =~= Seq::empty());
    assert(tile_models(out@) =~= Seq::empty());
    while i < features.len()
        invariant
            i <= features@.len(),
            page_of(features@.take(i as int)) == Ok::<Seq<TileModel>, ErrorModel>(
                tile_models(out@),
            ),
        decreases features@.len() - i,
    {
        assert(features@.take(i + 1).drop_last() =~= features@.take(i as int));
        let ghost before = out@;
        match parse_tile(features[i].id.as_str(), &features[i].assets) {
            Ok(Some(t)) => {
                let ghost model = t.model();
                out.push(t);
                assert(tile_models(out@) =~= tile_models(before).push(model));
            },
            Ok(None) => {},
            Err(e) => {
                proof {
                    lemma_page_error(features@, i + 1);
                }
                return Err(e);
            },
        }
        i = i + 1;
    }
    assert(features@.take(features@.len() as int) =~= features@);
    Ok(out)
}

/// Address that the first link to the next page gives.
pub open spec fn next_of(links: Seq<StacLink>) -> Option<Seq<char>>
    decreases links.len(),
{
    if links.len() == 0 {
        None
    } else if links[0].rel@ == "next"@ {
        Some(links[0].href@)
    } else {
        next_of(links.drop_first())
    }
}

/// Address of the next page.
pub fn next_page(links: &Vec<StacLink>) -> (r: Option<String>)
    ensures
        next_of(links@) == match r {
            Some(s) => Some(s@),
            None => None,
        },
{
    let n: usize = links.len();
    let mut i: usize = 0;
    assert(links@.subrange(0, n as int) =~= links@);
    while i < n
        invariant
            n == links@.len(),
            i <= n,
            next_of(links@) == next_of(links@.subrange(i as int, n as int)),
        decreases n - i,
    {
        let ghost rest = links@.subrange(i as int, n as int);
        assert(rest.drop_first() =~= links@.subrange(i + 1, n as int));
        if same_text(links[i].rel.as_str(), "next") {
            return Some(links[i].href.clone());
        }
        i = i + 1;
    }
    None
}

/// Whether two tiles are of one place.
pub open spec fn same_place(a: TileAsset, b: TileAsset) -> bool {
    a.e_km == b.e_km && a.n_km == b.n_km
}

/// Whether tile `i` is the latest of its place: the first of those of the
/// latest year.
pub open spec fn is_latest(all: Seq<TileAsset>, i: int) -> bool {
    &&& 0 <= i < all.len()
    &&& forall|j: int|
        0 <= j < all.len() && same_place(all[i], #[trigger] all[j]) ==> all[j].year < all[i].year || (
        all[j].year == all[i].year && i <= j)
}

/// Whether `picks` are the latest tiles of all places, by place.
pub open spec fn are_latest(all: Seq<TileAsset>, picks: Seq<int>) -> bool {
    &&& forall|k: int| 0 <= k < picks.len() ==> is_latest(all, #[trigger] picks[k])
    &&& forall|k: int, l: int|
        0 <= k < l < picks.len() ==> place_before(
            all[#[trigger] picks[k]],
            all[#[trigger] picks[l]],
        )
    &&& forall|i: int| 0 <= i < all.len() && is_latest(all, i) ==> #[trigger] picks.contains(i)
}

/// Whether a tile's place comes before another's: by east, and by north where
/// that is the same.
pub open spec fn place_before(a: TileAsset, b: TileAsset) -> bool {
    a.e_km < b.e_km || (a.e_km == b.e_km && a.n_km < b.n_km)
}

/// Place and year as one number: later years come first.
spec fn tile_key(t: TileAsset) -> int {
    t.e_km * 0x1_0000_0000_0000_0000 + t.n_km * 0x1_0000_0000 + (0xffff_ffff - t.year)
}

/// Keep latest year per (e_km, n_km).
pub fn latest_tiles(all: &Vec<TileAsset>) -> (r: Vec<TileAsset>)
    ensures
        exists|picks: Seq<int>| #[trigger]
            are_latest(all@, picks) && r@ == picks.map_values(|i: int| all@[i]),
{
    let mut keys: Vec<i128> = Vec::new();
    let mut i: usize = 0;
    while i < all.len()
        invariant
            i <= all@.len(),
            keys@.len() == i,
            forall|k: int| 0 <= k < i ==> #[trigger] keys@[k] == tile_key(all@[k]),
        decreases all@.len() - i,
    {
        let t = &all[i];
        let key: i128 = t.e_km as i128 * 0x1_0000_0000_0000_0000 + t.n_km as i128 * 0x1_0000_0000
            + (0xffff_ffff - t.year as i128);
        keys.push(key);
        i = i + 1;
    }
    let order = sorted_order(&keys);
    let mut latest: Vec<TileAsset> = Vec::new();
    let ghost mut picks: Seq<int> = Seq::empty();
    let mut k: usize = 0;
    while k < order.len()
        invariant
            keys@.len() == all@.len(),
            order@.len() == all@.len(),
            forall|i: int| 0 <= i < all@.len() ==> #[trigger] keys@[i] == tile_key(all@[i]),
            forall|i: int| 0 <= i < order@.len() ==> #[trigger] order@[i] < all@.len(),
            forall|i: int, j: int|
                0 <= i < j < order@.len() ==> precedes(
                    keys@,
                    #[trigger] order@[i] as int,
                    #[trigger] order@[j] as int,
                ),
            forall|v: usize| v < all@.len() ==> #[trigger] order@.contains(v),
            k <= order@.len(),
            latest@ == picks.map_values(|i: int| all@[i]),
            forall|a: int|
                0 <= a < picks.len() ==> is_latest(all@, #[trigger] picks[a])
                    && picked_before(order@, k as int, picks[a]),
            forall|a: int, b: int|
                0 <= a < b < picks.len() ==> place_before(
                    all@[#[trigger] picks[a]],
                    all@[#[trigger] picks[b]],
                ),
            forall|p: int|
                0 <= p < k ==> has_place(all@, picks, all@[#[trigger] order@[p] as int]),
        decreases order@.len() - k,
    {
        let c: usize = order[k];
        let t = &all[c];
        let ghost old_picks = picks;
        // Tiles of one place are next to each other.
        let fresh: bool = latest.len() == 0 || latest[latest.len() - 1].e_km != t.e_km
            || latest[latest.len() - 1].n_km != t.n_km;
        proof {
            if picks.len() > 0 {
                assert(latest@[latest@.len() - 1] == all@[picks.last()]);
            }
            if fresh {
                lemma_no_place_yet(all@, keys@, order@, picks, k as int);
                lemma_latest_first(all@, keys@, order@, picks, k as int);
            } else {
                assert(same_place(all@[picks[picks.len() - 1]], *t));
                assert(has_place(all@, picks, *t));
            }
        }
        if fresh {
            latest.push(t.clone());
            proof {
                picks = picks.push(c as int);
                assert(latest@ =~= picks.map_values(|i: int| all@[i]));
                assert(picks[old_picks.len() as int] == c);
                assert(has_place(all@, picks, all@[c as int]));
                assert forall|p: int| 0 <= p < k implies has_place(
                    all@,
                    picks,
                    all@[#[trigger] order@[p] as int],
                ) by {
                    assert(has_place(all@, old_picks, all@[order@[p] as int]));
                    let a = choose|a: int|
                        0 <= a < old_picks.len() && same_place(
                            all@[#[trigger] old_picks[a]],
                            all@[order@[p] as int],
                        );
                    assert(same_place(all@[picks[a]], all@[order@[p] as int]));
                }
            }
        }
        proof {
            assert forall|a: int| 0 <= a < picks.len() implies is_latest(all@, #[trigger] picks[a])
                && picked_before(order@, k + 1, picks[a]) by {
                if a < old_picks.len() {
                    assert(picks[a] == old_picks[a]);
                    let p = choose|p: int| 0 <= p < k && #[trigger] order@[p] == old_picks[a];
                    assert(order@[p] == picks[a]);
                } else {
                    assert(order@[k as int] == picks[a]);
                }
            }
        }
        k = k + 1;
    }
    proof {
        assert forall|i: int| 0 <= i < all@.len() && is_latest(all@, i) implies #[trigger] picks.contains(
            i,
        ) by {
            assert(order@.contains(i as usize));
            let p = choose|p: int| 0 <= p < order@.len() && order@[p] == i as usize;
            assert(has_place(all@, picks, all@[order@[p] as int]));
            let a = choose|a: int|
                0 <= a < picks.len() && same_place(
                    all@[#[trigger] picks[a]],
                    all@[order@[p] as int],
                );
            assert(is_latest(all@, picks[a]));
            assert(same_place(all@[i], all@[picks[a]]));
            assert(picks[a] == i);
        }
        assert(are_latest(all@, picks));
    }
    latest
}

/// Whether tile `i` is one of the first `k` in order.
spec fn picked_before(order: Seq<usize>, k: int, i: int) -> bool {
    exists|p: int| 0 <= p < k && #[trigger] order[p] == i
}

/// Whether one of the tiles picked is of the place of a tile.
spec fn has_place(all: Seq<TileAsset>, picks: Seq<int>, t: TileAsset) -> bool {
    exists|a: int| 0 <= a < picks.len() && same_place(all[#[trigger] picks[a]], t)
}

proof fn lemma_key_order(a: TileAsset, b: TileAsset)
    requires
        tile_key(a) <= tile_key(b),
    ensures
        place_before(a, b) || (same_place(a, b) && a.year >= b.year),
{
}

/// A tile that is not of the place of the last one picked is of a place after
/// those of all tiles picked.
proof fn lemma_no_place_yet(
    all: Seq<TileAsset>,
    keys: Seq<i128>,
    order: Seq<usize>,
    picks: Seq<int>,
    k: int,
)
    requires
        0 <= k < order.len(),
        keys.len() == all.len(),
        forall|i: int| 0 <= i < all.len() ==> #[trigger] keys[i] == tile_key(all[i]),
        forall|i: int| 0 <= i < order.len() ==> #[trigger] order[i] < all.len(),
        forall|i: int, j: int|
            0 <= i < j < order.len() ==> precedes(
                keys,
                #[trigger] order[i] as int,
                #[trigger] order[j] as int,
            ),
        forall|a: int|
            0 <= a < picks.len() ==> is_latest(all, #[trigger] picks[a]) && picked_before(
                order,
                k,
                picks[a],
            ),
        forall|a: int, b: int|
            0 <= a < b < picks.len() ==> place_before(
                all[#[trigger] picks[a]],
                all[#[trigger] picks[b]],
            ),
        picks.len() > 0 ==> !same_place(all[picks.last()], all[order[k] as int]),
    ensures
        forall|a: int|
            0 <= a < picks.len() ==> place_before(all[#[trigger] picks[a]], all[order[k] as int]),
{
    if picks.len() > 0 {
        let last = picks[picks.len() - 1];
        assert(picked_before(order, k, last));
        let p = choose|p: int| 0 <= p < k && #[trigger] order[p] == last;
        assert(precedes(keys, order[p] as int, order[k] as int));
        lemma_key_order(all[last], all[order[k] as int]);
        assert forall|a: int| 0 <= a < picks.len() implies place_before(
            all[#[trigger] picks[a]],
            all[order[k] as int],
        ) by {
            if a < picks.len() - 1 {
                assert(place_before(all[picks[a]], all[picks[picks.len() - 1]]));
            }
        }
    }
}

/// The first tile of its place in order is the latest.
proof fn lemma_latest_first(
    all: Seq<TileAsset>,
    keys: Seq<i128>,
    order: Seq<usize>,
    picks: Seq<int>,
    k: int,
)
    requires
        0 <= k < order.len(),
        keys.len() == all.len(),
        forall|i: int| 0 <= i < all.len() ==> #[trigger] keys[i] == tile_key(all[i]),
        forall|i: int| 0 <= i < order.len() ==> #[trigger] order[i] < all.len(),
        forall|i: int, j: int|
            0 <= i < j < order.len() ==> precedes(
                keys,
                #[trigger] order[i] as int,
                #[trigger] order[j] as int,
            ),
        forall|v: usize| v < all.len() ==> #[trigger] order.contains(v),
        forall|p: int| 0 <= p < k ==> has_place(all, picks, all[#[trigger] order[p] as int]),
        forall|a: int|
            0 <= a < picks.len() ==> place_before(all[#[trigger] picks[a]], all[order[k] as int]),
        all.len() <= usize::MAX,
    ensures
        is_latest(all, order[k] as int),
{
    let c = order[k] as int;
    assert forall|j: int| 0 <= j < all.len() && same_place(all[c], #[trigger] all[j]) implies all[j].year
        < all[c].year || (all[j].year == all[c].year && c <= j) by {
        assert(order.contains(j as usize));
        let p = choose|p: int| 0 <= p < order.len() && order[p] == j as usize;
        if p < k {
            assert(has_place(all, picks, all[order[p] as int]));
            let a = choose|a: int|
                0 <= a < picks.len() && same_place(
                    all[#[trigger] picks[a]],
                    all[order[p] as int],
                );
            assert(place_before(all[picks[a]], all[c]));
        } else if p > k {
            assert(precedes(keys, order[k] as int, order[p] as int));
            lemma_key_order(all[c], all[j]);
        }
    }
}

/// The tiles that are kept are of different places, each the latest of its
/// place, and every place has one.
pub proof fn one_latest_tile_per_place(all: Seq<TileAsset>, picks: Seq<int>, i: int) -> (k: int)
    requires
        are_latest(all, picks),
        0 <= i < all.len(),
    ensures
        0 <= k < picks.len(),
        same_place(all[picks[k]], all[i]),
        all[i].year <= all[picks[k]].year,
        forall|l: int|
            0 <= l < picks.len() && l != k ==> !same_place(all[#[trigger] picks[l]], all[i]),
{
    let best = lemma_some_latest(all, i, all.len() as int);
    assert(picks.contains(best));
    let k = choose|k: int| 0 <= k < picks.len() && picks[k] == best;
    assert forall|l: int| 0 <= l < picks.len() && l != k implies !same_place(
        all[#[trigger] picks[l]],
        all[i],
    ) by {
        if l < k {
            assert(place_before(all[picks[l]], all[picks[k]]));
        } else {
            assert(place_before(all[picks[k]], all[picks[l]]));
        }
    }
    assert(same_place(all[best], all[i]));
    k
}

/// Some tile of the place of tile `i` is the latest.
proof fn lemma_some_latest(all: Seq<TileAsset>, i: int, n: int) -> (b: int)
    requires
        0 <= i < all.len(),
        0 <= n <= all.len(),
    ensures
        0 <= b < all.len(),
        same_place(all[b], all[i]),
        n == all.len() ==> is_latest(all, b),
        forall|j: int|
            0 <= j < n && same_place(all[i], #[trigger] all[j]) ==> all[j].year < all[b].year || (
            all[j].year == all[b].year && b <= j),
        b == i || b < n,
    decreases n,
{
    if n == 0 {
        i
    } else {
        let c = lemma_some_latest(all, i, n - 1);
        let d = n - 1;
        if same_place(all[i], all[d]) && (all[c].year < all[d].year || (all[c].year == all[d].year
            && d < c)) {
            d
        } else {
            c
        }
    }
}

} // verus!
