//! Swiss BAFU canonical protected-area data via swisstopo's API3 identify
//! endpoint. Authoritative source for Wildruhezonen, federal hunting reserves
//! and national parks.

use crate::error::{DataError, ErrorModel};
use crate::json::Json;
use crate::lv95::lv95_to_wgs84;
use crate::math::{show_whole_of, steady, write_whole, Math};
use crate::obstacles::{envelope, or_empty, write_envelope};
use crate::scalar::Double;
use crate::text::same_text;
use crate::warnings::{copy_ring, models, Severity, Warning, WarningKind, WarningModel};
use vstd::prelude::*;

verus! {

/// BAFU layer codes (use for the `layers=all:<bodId>` parameter).
pub const LAYER_WILDRUHEZONEN: &'static str = "ch.bafu.wrz-wildruhezonen_portal";

pub const LAYER_HUNTING_RESERVES: &'static str = "ch.bafu.bundesinventare-jagdbanngebiete";

pub const LAYER_NATIONAL_PARKS: &'static str = "ch.bafu.schutzgebiete-paerke_nationaler_bedeutung";

/// BAZL airspace control zones (CTR, around airports).
pub const LAYER_CTR: &'static str = "ch.bazl.luftraeume-kontrollzonen";

/// BAZL terminal manoeuvring areas (TMA, approach/departure).
pub const LAYER_TMA: &'static str = "ch.bazl.luftraeume-nahkontrollbezirke";

/// LV95 bbox: (e_min, n_min, e_max, n_max).
pub type BBoxLv95 = (Double, Double, Double, Double);

/// One feature of a reply.
#[derive(Debug)]
pub struct IdentifyFeature {
    pub geometry: Option<Json>,
    pub attributes: Json,
    pub properties: Json,
}

/// What the areas of a layer are.
pub open spec fn class_of(layer: Seq<char>) -> Option<(WarningKind, Severity)> {
    if layer == LAYER_WILDRUHEZONEN@ {
        Some((WarningKind::Wildruhezone, Severity::High))
    } else if layer == LAYER_HUNTING_RESERVES@ {
        Some((WarningKind::HuntingReserve, Severity::Critical))
    } else if layer == LAYER_NATIONAL_PARKS@ {
        Some((WarningKind::NationalPark, Severity::High))
    } else if layer == LAYER_CTR@ {
        Some((WarningKind::AirspaceCtr, Severity::Critical))
    } else if layer == LAYER_TMA@ {
        Some((WarningKind::AirspaceTma, Severity::Medium))
    } else {
        None
    }
}

/// What the areas of a layer are.
pub fn classify(layer: &str) -> (r: Option<(WarningKind, Severity)>)
    ensures
        r == class_of(layer@),
{
    if same_text(layer, LAYER_WILDRUHEZONEN) {
        Some((WarningKind::Wildruhezone, Severity::High))
    } else if same_text(layer, LAYER_HUNTING_RESERVES) {
        Some((WarningKind::HuntingReserve, Severity::Critical))
    } else if same_text(layer, LAYER_NATIONAL_PARKS) {
        Some((WarningKind::NationalPark, Severity::High))
    } else if same_text(layer, LAYER_CTR) {
        // CTR is the absolute exclusion around an airport: penetrating it
        // unannounced means a near-miss with airline traffic.
        Some((WarningKind::AirspaceCtr, Severity::Critical))
    } else if same_text(layer, LAYER_TMA) {
        // TMAs typically have a high floor (3000-4000 m AMSL); penalty is
        // medium: tag the launch but don't auto-filter, since most never
        // reach the floor in practice.
        Some((WarningKind::AirspaceTma, Severity::Medium))
    } else {
        None
    }
}

/// The layers to ask for, in turn.
pub fn all_layers() -> (r: Vec<&'static str>)
    ensures
        r@ == seq![
            LAYER_WILDRUHEZONEN,
            LAYER_HUNTING_RESERVES,
            LAYER_NATIONAL_PARKS,
            LAYER_CTR,
            LAYER_TMA,
        ],
        forall|i: int| 0 <= i < r@.len() ==> class_of((#[trigger] r@[i])@) is Some,
{
    let layers = vec![
        LAYER_WILDRUHEZONEN,
        LAYER_HUNTING_RESERVES,
        LAYER_NATIONAL_PARKS,
        LAYER_CTR,
        LAYER_TMA,
    ];
    assert(layers@ =~= seq![
        LAYER_WILDRUHEZONEN,
        LAYER_HUNTING_RESERVES,
        LAYER_NATIONAL_PARKS,
        LAYER_CTR,
        LAYER_TMA,
    ]);
    layers
}

/// A text in the properties of a feature, or else in its attributes.
pub open spec fn text_in(props: Json, attrs: Json, key: Seq<char>) -> Option<Seq<char>> {
    match props.text_at(key) {
        Some(s) => Some(s),
        None => attrs.text_at(key),
    }
}

/// A number in the properties of a feature, or in its attributes where the
/// properties have nothing under the key.
pub open spec fn number_in(props: Json, attrs: Json, key: Seq<char>) -> Option<Double> {
    match props.at(key) {
        Some(v) => v.number(),
        None => attrs.number_at(key),
    }
}

/// Read a string-ish field from either `attributes` or `properties` (the API
/// is inconsistent across layer kinds).
fn attr_string<'a>(props: &'a Json, attrs: &'a Json, key: &str) -> (r: Option<&'a str>)
    ensures
        text_in(*props, *attrs, key@) == match r {
            Some(s) => Some(s@),
            None => None,
        },
{
    match props.str_at(key) {
        Some(s) => Some(s),
        None => attrs.str_at(key),
    }
}

fn attr_number(props: &Json, attrs: &Json, key: &str) -> (r: Option<Double>)
    ensures
        r == number_in(*props, *attrs, key@),
{
    match props.get(key) {
        Some(v) => v.as_number(),
        None => attrs.num_at(key),
    }
}

/// Whether a type is one of airspace.
pub open spec fn is_airspace(t: Option<Seq<char>>) -> bool {
    match t {
        Some(s) => s == "CTR"@ || s == "TMA"@ || s == "TMZ"@ || s == "RMZ"@ || s == "FIZ"@,
        None => false,
    }
}

/// Name of an airspace: name, designator and, where both are given, lower and
/// upper limit.
pub open spec fn airspace_name<M: Math>(m: &M, props: Json, attrs: Json) -> Seq<char> {
    let name = or_empty(text_in(props, attrs, "name"@));
    let dsg = or_empty(text_in(props, attrs, "designator"@));
    let lo_t = or_empty(text_in(props, attrs, "loli_type"@));
    match (number_in(props, attrs, "loli_value"@), number_in(props, attrs, "upli_value"@)) {
        (Some(lo), Some(hi)) => name + " ("@ + dsg + ", "@ + show_whole_of(m, lo) + lo_t + "–"@
            + show_whole_of(m, hi) + ")"@,
        _ => name + " ("@ + dsg + ")"@,
    }
}

/// The first of the keys from number `k` on whose text is there and not empty.
pub open spec fn plain_name(props: Json, attrs: Json, k: int) -> Seq<char>
    decreases 5 - k,
{
    if k >= 5 {
        "(unnamed)"@
    } else {
        match text_in(props, attrs, name_key(k)) {
            Some(s) => if s.len() > 0 {
                s
            } else {
                plain_name(props, attrs, k + 1)
            },
            None => plain_name(props, attrs, k + 1),
        }
    }
}

/// The keys that an area's name may stand under, in turn.
pub open spec fn name_key(k: int) -> Seq<char> {
    if k <= 0 {
        "wrz_name"@
    } else if k == 1 {
        "name"@
    } else if k == 2 {
        "bezeichnung"@
    } else if k == 3 {
        "objektname"@
    } else {
        "gebiet"@
    }
}

/// Name of an area.
pub open spec fn name_of<M: Math>(m: &M, props: Json, attrs: Json) -> Seq<char> {
    if is_airspace(text_in(props, attrs, "type"@)) {
        airspace_name(m, props, attrs)
    } else {
        plain_name(props, attrs, 0)
    }
}

fn pick_name<M: Math>(m: &M, props: &Json, attrs: &Json) -> (r: String)
    requires
        steady(m),
    ensures
        r@ == name_of(m, *props, *attrs),
{
    // Airspace items: combine type + name + designator + altitude range so
    // the tooltip shows e.g. "CTR GRENCHEN (LSZG, AGL to 4500 ft)".
    if let Some(t) = attr_string(props, attrs, "type") {
        if same_text(t, "CTR") || same_text(t, "TMA") || same_text(t, "TMZ") || same_text(t, "RMZ")
            || same_text(t, "FIZ") {
            let mut s = text_or_empty(attr_string(props, attrs, "name"));
            let dsg = text_or_empty(attr_string(props, attrs, "designator"));
            let lo_t = text_or_empty(attr_string(props, attrs, "loli_type"));
            let lo = attr_number(props, attrs, "loli_value");
            let hi = attr_number(props, attrs, "upli_value");
            s.append(" (");
            s.append(dsg.as_str());
            if let (Some(lo), Some(hi)) = (lo, hi) {
                s.append(", ");
                s.append(write_whole(m, lo).as_str());
                s.append(lo_t.as_str());
                s.append("–");
                s.append(write_whole(m, hi).as_str());
            }
            s.append(")");
            return s;
        }
    }
    let mut k: usize = 0;
    while k < 5
        invariant
            k <= 5,
            !is_airspace(text_in(*props, *attrs, "type"@)),
            plain_name(*props, *attrs, 0) == plain_name(*props, *attrs, k as int),
        decreases 5 - k,
    {
        let key = if k == 0 {
            "wrz_name"
        } else if k == 1 {
            "name"
        } else if k == 2 {
            "bezeichnung"
        } else if k == 3 {
            "objektname"
        } else {
            "gebiet"
        };
        assert(key@ == name_key(k as int));
        if let Some(s) = attr_string(props, attrs, key) {
            if !s.is_empty() {
                return s.to_owned();
            }
        }
        k = k + 1;
    }
    "(unnamed)".to_owned()
}

fn text_or_empty(t: Option<&str>) -> (r: String)
    ensures
        r@ == or_empty(match t {
            Some(s) => Some(s@),
            None => None,
        }),
{
    match t {
        Some(s) => s.to_owned(),
        None => "".to_owned(),
    }
}

/// A ring point as [lat, lon]: at least two LV95 numbers.
pub open spec fn ring_point<M: Math>(m: &M, pt: Json) -> Option<[Double; 2]> {
    match pt.items() {
        Some(a) => if a.len() < 2 {
            None
        } else {
            match (a[0].number(), a[1].number()) {
                (Some(e), Some(n)) => {
                    let (lon, lat) = lv95_to_wgs84(m, e, n);
                    Some([lat, lon])
                },
                _ => None,
            }
        },
        None => None,
    }
}

/// Ring points, if every item is one.
pub open spec fn ring_points<M: Math>(m: &M, items: Seq<Json>) -> Option<Seq<[Double; 2]>>
    decreases items.len(),
{
    if items.len() == 0 {
        Some(Seq::empty())
    } else {
        match (ring_points(m, items.drop_last()), ring_point(m, items.last())) {
            (Some(before), Some(p)) => Some(before.push(p)),
            _ => None,
        }
    }
}

/// A GeoJSON ring (LV95 coords) as [lat, lon] pairs: at least three points,
/// all of the right shape.
pub open spec fn ring_of<M: Math>(m: &M, ring: Json) -> Option<Seq<[Double; 2]>> {
    match ring.items() {
        Some(a) => match ring_points(m, a) {
            Some(points) => if points.len() < 3 {
                None
            } else {
                Some(points)
            },
            None => None,
        },
        None => None,
    }
}

/// The outer ring of a polygon.
pub open spec fn outer_ring<M: Math>(m: &M, rings: Seq<Json>) -> Option<Seq<[Double; 2]>> {
    if rings.len() == 0 {
        None
    } else {
        ring_of(m, rings[0])
    }
}

/// The outer rings of the polygons of a multipolygon, in order.
pub open spec fn part_rings<M: Math>(m: &M, parts: Seq<Json>) -> Seq<Seq<[Double; 2]>>
    decreases parts.len(),
{
    if parts.len() == 0 {
        Seq::empty()
    } else {
        let before = part_rings(m, parts.drop_last());
        match parts.last().items() {
            Some(rings) => match outer_ring(m, rings) {
                Some(r) => before.push(r),
                None => before,
            },
            None => before,
        }
    }
}

/// The rings that a geometry gives.
pub open spec fn rings_of<M: Math>(m: &M, geometry: Json) -> Seq<Seq<[Double; 2]>> {
    let kind = or_empty(geometry.text_at("type"@));
    let coords = match geometry.at("coordinates"@) {
        Some(c) => c.items(),
        None => None,
    };
    match coords {
        Some(c) => if kind == "Polygon"@ {
            match outer_ring(m, c) {
                Some(r) => seq![r],
                None => Seq::empty(),
            }
        } else if kind == "MultiPolygon"@ {
            part_rings(m, c)
        } else {
            Seq::empty()
        },
        None => Seq::empty(),
    }
}

/// The warnings that a feature gives: one for each ring.
pub open spec fn feature_warnings<M: Math>(
    m: &M,
    feature: IdentifyFeature,
    kind: WarningKind,
    severity: Severity,
) -> Seq<WarningModel> {
    match feature.geometry {
        Some(g) => rings_of(m, g).map_values(
            |ring: Seq<[Double; 2]>|
                WarningModel {
                    name: name_of(m, feature.properties, feature.attributes),
                    kind,
                    severity,
                    polygon: ring,
                },
        ),
        None => Seq::empty(),
    }
}

/// The warnings that features give, in order.
pub open spec fn layer_warnings_of<M: Math>(
    m: &M,
    features: Seq<IdentifyFeature>,
    kind: WarningKind,
    severity: Severity,
) -> Seq<WarningModel>
    decreases features.len(),
{
    if features.len() == 0 {
        Seq::empty()
    } else {
        layer_warnings_of(m, features.drop_last(), kind, severity) + feature_warnings(
            m,
            features.last(),
            kind,
            severity,
        )
    }
}

/// Parse a GeoJSON ring (LV95 coords) into a vector of [lat, lon] WGS84
/// pairs. Returns None on shape errors.
fn parse_ring<M: Math>(m: &M, ring: &Json) -> (r: Option<Vec<[Double; 2]>>)
    requires
        steady(m),
    ensures
        ring_of(m, *ring) == match r {
            Some(v) => Some(v@),
            None => None,
        },
{
    let arr = match ring.as_list() {
        Some(a) => a,
        None => return None,
    };
    let mut out: Vec<[Double; 2]> = Vec::new();
    let mut i: usize = 0;
    assert(arr@.take(0) =~= Seq::empty());
    assert(out@ =~= Seq::empty());
    while i < arr.len()
        invariant
            steady(m),
            ring.items() == Some(arr@),
            i <= arr@.len(),
            ring_points(m, arr@.take(i as int)) == Some(out@),
        decreases arr@.len() - i,
    {
        assert(arr@.take(i + 1).drop_last() =~= arr@.take(i as int));
        match parse_ring_point(m, &arr[i]) {
            Some(p) => {
                out.push(p);
            },
            None => {
                proof {
                    lemma_bad_point(m, arr@, i + 1);
                }
                return None;
            },
        }
        i = i + 1;
    }
    assert(arr@.take(arr@.len() as int) =~= arr@);
    if out.len() < 3 {
        return None;
    }
    Some(out)
}

/// A ring with a bad point is none, however it goes on.
proof fn lemma_bad_point<M: Math>(m: &M, items: Seq<Json>, i: int)
    requires
        0 <= i <= items.len(),
        ring_points(m, items.take(i)) is None,
    ensures
        ring_points(m, items) is None,
    decreases items.len() - i,
{
    if i < items.len() {
        assert(items.take(i + 1).drop_last() =~= items.take(i));
        lemma_bad_point(m, items, i + 1);
    } else {
        assert(items.take(i) =~= items);
    }
}

fn parse_ring_point<M: Math>(m: &M, pt: &Json) -> (r: Option<[Double; 2]>)
    requires
        steady(m),
    ensures
        r == ring_point(m, *pt),
{
    let pa = match pt.as_list() {
        Some(a) => a,
        None => return None,
    };
    if pa.len() < 2 {
        return None;
    }
    let e = match pa[0].as_number() {
        Some(v) => v,
        None => return None,
    };
    let n = match pa[1].as_number() {
        Some(v) => v,
        None => return None,
    };
    let (lon, lat) = lv95_to_wgs84(m, e, n);
    Some([lat, lon])
}

/// What a list of rings holds.
spec fn ring_lists(rings: Seq<Vec<[Double; 2]>>) -> Seq<Seq<[Double; 2]>> {
    rings.map_values(|v: Vec<[Double; 2]>| v@)
}

/// The outer ring of a polygon.
fn parse_outer<M: Math>(m: &M, rings: &Vec<Json>) -> (r: Option<Vec<[Double; 2]>>)
    requires
        steady(m),
    ensures
        outer_ring(m, rings@) == match r {
            Some(v) => Some(v@),
            None => None,
        },
{
    if rings.len() == 0 {
        None
    } else {
        parse_ring(m, &rings[0])
    }
}

/// The rings that a geometry gives.
fn parse_rings<M: Math>(m: &M, geometry: &Json) -> (r: Vec<Vec<[Double; 2]>>)
    requires
        steady(m),
    ensures
        ring_lists(r@) == rings_of(m, *geometry),
{
    let mut out: Vec<Vec<[Double; 2]>> = Vec::new();
    assert(ring_lists(out@) =~= Seq::empty());
    let kind = match geometry.str_at("type") {
        Some(t) => t,
        None => "",
    };
    let coords = match geometry.get("coordinates") {
        Some(c) => match c.as_list() {
            Some(a) => a,
            None => return out,
        },
        None => return out,
    };
    if same_text(kind, "Polygon") {
        if let Some(ring) = parse_outer(m, coords) {
            let ghost ring_view = ring@;
            out.push(ring);
            assert(ring_lists(out@) =~= seq![ring_view]);
        }
    } else if same_text(kind, "MultiPolygon") {
        let mut i: usize = 0;
        assert(coords@.take(0) =~= Seq::empty());
        while i < coords.len()
            invariant
                steady(m),
                i <= coords@.len(),
                ring_lists(out@) == part_rings(m, coords@.take(i as int)),
            decreases coords@.len() - i,
        {
            assert(coords@.take(i + 1).drop_last() =~= coords@.take(i as int));
            let ghost before = ring_lists(out@);
            if let Some(rings) = coords[i].as_list() {
                if let Some(ring) = parse_outer(m, rings) {
                    let ghost ring_view = ring@;
                    out.push(ring);
                    assert(ring_lists(out@) =~= before.push(ring_view));
                }
            }
            i = i + 1;
        }
        assert(coords@.take(coords@.len() as int) =~= coords@);
    }
    out
}

/// The warnings that a feature gives: one for each ring.
fn parse_feature<M: Math>(
    m: &M,
    feature: &IdentifyFeature,
    kind: WarningKind,
    severity: Severity,
) -> (r: Vec<Warning>)
    requires
        steady(m),
    ensures
        models(r@) == feature_warnings(m, *feature, kind, severity),
{
    let mut out: Vec<Warning> = Vec::new();
    let name = pick_name(m, &feature.properties, &feature.attributes);
    let geometry = match &feature.geometry {
        Some(g) => g,
        None => {
            assert(models(out@) =~= Seq::empty());
            return out;
        },
    };
    let rings = parse_rings(m, geometry);
    let ghost all = feature_warnings(m, *feature, kind, severity);
    assert(all.len() == rings@.len());
    let mut i: usize = 0;
    assert(models(out@) =~= all.take(0));
    while i < rings.len()
        invariant
            i <= rings@.len(),
            all.len() == rings@.len(),
            forall|k: int|
                0 <= k < all.len() ==> #[trigger] all[k] == (WarningModel {
                    name: name@,
                    kind,
                    severity,
                    polygon: rings@[k]@,
                }),
            models(out@) == all.take(i as int),
        decreases rings@.len() - i,
    {
        let polygon = copy_ring(&rings[i]);
        let ghost before = out@;
        let w = Warning { name: name.clone(), kind, severity, polygon };
        assert(w.model() == all[i as int]);
        out.push(w);
        assert(models(out@) =~= models(before).push(all[i as int]));
        assert(models(out@) =~= all.take(i + 1));
        i = i + 1;
    }
    assert(all.take(all.len() as int) =~= all);
    out
}

/// The error for a layer that is not known.
pub open spec fn unknown_layer(layer: Seq<char>) -> ErrorModel {
    ErrorModel::BadFormat("unknown BAFU layer: "@ + layer)
}

/// Address of one BAFU layer for an LV95 bbox.
pub fn layer_url<M: Math>(m: &M, layer: &str, bbox: BBoxLv95) -> (r: Result<String, DataError>)
    requires
        steady(m),
    ensures
        match r {
            Ok(url) => class_of(layer@) is Some && url@ == ({
                let geom = envelope(m, bbox.0, bbox.1, bbox.2, bbox.3);
                "https://api3.geo.admin.ch/rest/services/api/MapServer/identify?geometryType=esriGeometryEnvelope&geometry="@
                    + geom + "&sr=2056&imageDisplay=500,500,96&mapExtent="@ + geom
                    + "&tolerance=10&layers=all:"@ + layer@
                    + "&returnGeometry=true&geometryFormat=geojson&limit=400"@
            }),
            Err(e) => class_of(layer@) is None && e.model() == unknown_layer(layer@),
        },
{
    if classify(layer).is_none() {
        return Err(DataError::BadFormat("unknown BAFU layer: ".to_owned().concat(layer)));
    }
    let geom = write_envelope(m, bbox.0, bbox.1, bbox.2, bbox.3);
    let mut s: String =
        "https://api3.geo.admin.ch/rest/services/api/MapServer/identify?geometryType=esriGeometryEnvelope&geometry=".to_owned();
    s.append(geom.as_str());
    s.append("&sr=2056&imageDisplay=500,500,96&mapExtent=");
    s.append(geom.as_str());
    s.append("&tolerance=10&layers=all:");
    s.append(layer);
    s.append("&returnGeometry=true&geometryFormat=geojson&limit=400");
    Ok(s)
}

/// The warnings that a reply for one BAFU layer gives: one per polygon ring;
/// multipolygon members each become their own warning (we drop hole topology
/// like the OSM path).
pub fn layer_warnings<M: Math>(m: &M, layer: &str, features: &Vec<IdentifyFeature>) -> (r: Result<
    Vec<Warning>,
    DataError,
>)
    requires
        steady(m),
    ensures
        match class_of(layer@) {
            Some((kind, severity)) => match r {
                Ok(ws) => models(ws@) == layer_warnings_of(m, features@, kind, severity),
                Err(_) => false,
            },
            None => match r {
                Ok(_) => false,
                Err(e) => e.model() == unknown_layer(layer@),
            },
        },
{
    let (kind, severity) = match classify(layer) {
        Some(t) => t,
        None => return Err(DataError::BadFormat("unknown BAFU layer: ".to_owned().concat(layer))),
    };
    let mut out: Vec<Warning> = Vec::new();
    let mut i: usize = 0;
    assert(features@.take(0) =~= Seq::empty());
    assert(models(out@) =~= Seq::empty());
    while i < features.len()
        invariant
            steady(m),
            i <= features@.len(),
            models(out@) == layer_warnings_of(m, features@.take(i as int), kind, severity),
        decreases features@.len() - i,
    {
        assert(features@.take(i + 1).drop_last() =~= features@.take(i as int));
        let mut more = parse_feature(m, &features[i], kind, severity);
        let ghost before = out@;
        let ghost added = more@;
        out.append(&mut more);
        assert(models(out@) =~= models(before) + models(added));
        i = i + 1;
    }
    assert(features@.take(features@.len() as int) =~= features@);
    Ok(out)
}

/// Areas of the layers of wildlife sanctuaries, hunting reserves, parks and
/// control zones are closed to takeoffs; those of approach areas are not.
pub proof fn protected_layers_close_takeoffs()
    ensures
        class_of(LAYER_WILDRUHEZONEN@) matches Some((_, s)) && s.no_fly(),
        class_of(LAYER_HUNTING_RESERVES@) matches Some((_, s)) && s.no_fly(),
        class_of(LAYER_NATIONAL_PARKS@) matches Some((_, s)) && s.no_fly(),
        class_of(LAYER_CTR@) matches Some((_, s)) && s.no_fly(),
        class_of(LAYER_TMA@) matches Some((_, s)) && !s.no_fly(),
{
    reveal_strlit("ch.bafu.wrz-wildruhezonen_portal");
    reveal_strlit("ch.bafu.bundesinventare-jagdbanngebiete");
    reveal_strlit("ch.bafu.schutzgebiete-paerke_nationaler_bedeutung");
    reveal_strlit("ch.bazl.luftraeume-kontrollzonen");
    reveal_strlit("ch.bazl.luftraeume-nahkontrollbezirke");
    assert(LAYER_WILDRUHEZONEN@.len() == 32);
    assert(LAYER_HUNTING_RESERVES@.len() == 39);
    assert(LAYER_NATIONAL_PARKS@.len() == 49);
    assert(LAYER_CTR@.len() == 32);
    assert(LAYER_TMA@.len() == 37);
}

} // verus!
