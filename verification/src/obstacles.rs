//! BAZL aviation-obstacle catalog (Luftfahrthindernis from 25 m AGL, plus
//! anything from 5 m around aerodromes). Includes overhead cables (CATENARY),
//! cranes, antennas, wind turbines, towers, chimneys: every low-altitude
//! flight hazard the federal authority tracks.
//!
//! Layer: `ch.bazl.luftfahrthindernis`. CATENARY come back as 3D LineStrings
//! (cable span endpoints with altitude), CRANE/etc. as 3D Points.

use crate::json::Json;
use crate::lv95::lv95_to_wgs84;
use crate::math::{narrow, show_double_of, steady, write_double, Math};
use crate::scalar::{Double, Single};
use crate::text::same_text;
use vstd::prelude::*;

verus! {

#[derive(Debug, Clone, Copy, PartialEq, Eq, Structural)]
pub enum ObstacleKind {
    Catenary,
    Crane,
    Antenna,
    Tower,
    WindTurbine,
    Building,
    Chimney,
    Other,
}

/// Kind of an obstacle by its name in the catalog.
pub open spec fn kind_named(s: Seq<char>) -> ObstacleKind {
    if s == "CATENARY"@ {
        ObstacleKind::Catenary
    } else if s == "CRANE"@ {
        ObstacleKind::Crane
    } else if s == "ANTENNA"@ {
        ObstacleKind::Antenna
    } else if s == "TOWER"@ {
        ObstacleKind::Tower
    } else if s == "WIND_TURBINE"@ || s == "WINDTURBINE"@ {
        ObstacleKind::WindTurbine
    } else if s == "BUILDING"@ {
        ObstacleKind::Building
    } else if s == "CHIMNEY"@ {
        ObstacleKind::Chimney
    } else {
        ObstacleKind::Other
    }
}

impl ObstacleKind {
    pub fn from_bazl(s: &str) -> (r: Self)
        ensures
            r == kind_named(s@),
    {
        if same_text(s, "CATENARY") {
            ObstacleKind::Catenary
        } else if same_text(s, "CRANE") {
            ObstacleKind::Crane
        } else if same_text(s, "ANTENNA") {
            ObstacleKind::Antenna
        } else if same_text(s, "TOWER") {
            ObstacleKind::Tower
        } else if same_text(s, "WIND_TURBINE") || same_text(s, "WINDTURBINE") {
            ObstacleKind::WindTurbine
        } else if same_text(s, "BUILDING") {
            ObstacleKind::Building
        } else if same_text(s, "CHIMNEY") {
            ObstacleKind::Chimney
        } else {
            ObstacleKind::Other
        }
    }
}

#[derive(Debug)]
pub enum ObstacleGeom {
    /// Single point [lat, lon, z_amsl_m].
    Point([Double; 3]),
    /// Cable span / linear obstacle as a sequence of [lat, lon, z_amsl_m].
    Line(Vec<[Double; 3]>),
}

#[derive(Debug)]
pub struct Obstacle {
    pub kind: ObstacleKind,
    pub registration: String,
    /// Top elevation in meters AMSL.
    pub top_amsl_m: Single,
    /// Max height above ground in meters.
    pub max_agl_m: Single,
    pub geom: ObstacleGeom,
}

/// What an `ObstacleGeom` holds.
pub enum GeomModel {
    Point([Double; 3]),
    Line(Seq<[Double; 3]>),
}

/// What an `Obstacle` holds.
pub struct ObstacleModel {
    pub kind: ObstacleKind,
    pub registration: Seq<char>,
    pub top_amsl_m: Single,
    pub max_agl_m: Single,
    pub geom: GeomModel,
}

impl ObstacleGeom {
    pub open spec fn model(self) -> GeomModel {
        match self {
            ObstacleGeom::Point(p) => GeomModel::Point(p),
            ObstacleGeom::Line(v) => GeomModel::Line(v@),
        }
    }
}

impl Obstacle {
    pub open spec fn model(self) -> ObstacleModel {
        ObstacleModel {
            kind: self.kind,
            registration: self.registration@,
            top_amsl_m: self.top_amsl_m,
            max_agl_m: self.max_agl_m,
            geom: self.geom.model(),
        }
    }
}

/// What a list of obstacles holds.
pub open spec fn models(obstacles: Seq<Obstacle>) -> Seq<ObstacleModel> {
    obstacles.map_values(|o: Obstacle| o.model())
}

/// A number, or 0 where there is none.
pub open spec fn or_zero(n: Option<Double>) -> Double {
    match n {
        Some(v) => v,
        None => Double { bits: 0 },
    }
}

/// A text, or an empty one where there is none.
pub open spec fn or_empty(t: Option<Seq<char>>) -> Seq<char> {
    match t {
        Some(s) => s,
        None => ""@,
    }
}

/// The point [lat, lon, z] that LV95 coordinates give: at least two numbers,
/// and a third for the altitude, which is 0 otherwise.
pub open spec fn point_of<M: Math>(m: &M, c: Json) -> Option<[Double; 3]> {
    match c.items() {
        Some(a) => if a.len() < 2 {
            None
        } else {
            match (a[0].number(), a[1].number()) {
                (Some(e), Some(n)) => {
                    let z = if a.len() > 2 {
                        or_zero(a[2].number())
                    } else {
                        Double { bits: 0 }
                    };
                    let (lon, lat) = lv95_to_wgs84(m, e, n);
                    Some([lat, lon, z])
                },
                _ => None,
            }
        },
        None => None,
    }
}

/// The points among items, in order.
pub open spec fn points_of<M: Math>(m: &M, items: Seq<Json>) -> Seq<[Double; 3]>
    decreases items.len(),
{
    if items.len() == 0 {
        Seq::empty()
    } else {
        let before = points_of(m, items.drop_last());
        match point_of(m, items.last()) {
            Some(p) => before.push(p),
            None => before,
        }
    }
}

/// The line that coordinates give: at least two points.
pub open spec fn line_of<M: Math>(m: &M, c: Json) -> Option<Seq<[Double; 3]>> {
    match c.items() {
        Some(a) => if points_of(m, a).len() < 2 {
            None
        } else {
            Some(points_of(m, a))
        },
        None => None,
    }
}

/// The geometry that a GeoJSON geometry gives: a point, a line, or the outer
/// ring of a polygon as a line.
pub open spec fn geom_of<M: Math>(m: &M, geometry: Json) -> Option<GeomModel> {
    let kind = or_empty(geometry.text_at("type"@));
    match geometry.at("coordinates"@) {
        Some(c) => if kind == "Point"@ {
            match point_of(m, c) {
                Some(p) => Some(GeomModel::Point(p)),
                None => None,
            }
        } else if kind == "LineString"@ {
            match line_of(m, c) {
                Some(l) => Some(GeomModel::Line(l)),
                None => None,
            }
        } else if kind == "Polygon"@ {
            match c.items() {
                Some(rings) => if rings.len() == 0 {
                    None
                } else {
                    match line_of(m, rings[0]) {
                        Some(l) => Some(GeomModel::Line(l)),
                        None => None,
                    }
                },
                None => None,
            }
        } else {
            None
        },
        None => None,
    }
}

/// The obstacle that a feature describes, if it has a geometry that can be
/// read.
pub open spec fn obstacle_of<M: Math>(m: &M, feature: Json) -> Option<ObstacleModel> {
    let props = match feature.at("properties"@) {
        Some(p) => p,
        None => Json::Null,
    };
    match feature.at("geometry"@) {
        Some(g) => match geom_of(m, g) {
            Some(geom) => Some(
                ObstacleModel {
                    kind: kind_named(or_empty(props.text_at("obstacletype"@))),
                    registration: or_empty(props.text_at("registrationnumber"@)),
                    top_amsl_m: narrow(m, or_zero(props.number_at("topelevationamsl"@))),
                    max_agl_m: narrow(m, or_zero(props.number_at("maxheightagl"@))),
                    geom,
                },
            ),
            None => None,
        },
        None => None,
    }
}

/// The obstacles among features, in order.
pub open spec fn obstacles_of<M: Math>(m: &M, features: Seq<Json>) -> Seq<ObstacleModel>
    decreases features.len(),
{
    if features.len() == 0 {
        Seq::empty()
    } else {
        let before = obstacles_of(m, features.drop_last());
        match obstacle_of(m, features.last()) {
            Some(o) => before.push(o),
            None => before,
        }
    }
}

/// The features that a reply holds.
pub open spec fn results_of(body: Json) -> Seq<Json> {
    match body.at("results"@) {
        Some(r) => match r.items() {
            Some(a) => a,
            None => Seq::empty(),
        },
        None => Seq::empty(),
    }
}

/// The bounding box as the service takes it.
pub open spec fn envelope<M: Math>(
    m: &M,
    e_min: Double,
    n_min: Double,
    e_max: Double,
    n_max: Double,
) -> Seq<char> {
    show_double_of(m, e_min) + ","@ + show_double_of(m, n_min) + ","@ + show_double_of(m, e_max)
        + ","@ + show_double_of(m, n_max)
}

/// Writes the bounding box as the service takes it.
pub fn write_envelope<M: Math>(
    m: &M,
    e_min: Double,
    n_min: Double,
    e_max: Double,
    n_max: Double,
) -> (r: String)
    requires
        steady(m),
    ensures
        r@ == envelope(m, e_min, n_min, e_max, n_max),
{
    let mut s = write_double(m, e_min);
    s.append(",");
    s.append(write_double(m, n_min).as_str());
    s.append(",");
    s.append(write_double(m, e_max).as_str());
    s.append(",");
    s.append(write_double(m, n_max).as_str());
    s
}

/// Address of the obstacles in an LV95 bbox (e_min, n_min, e_max, n_max).
pub fn obstacles_url<M: Math>(m: &M, bbox: (Double, Double, Double, Double)) -> (r: String)
    requires
        steady(m),
    ensures
        ({
            let geom = envelope(m, bbox.0, bbox.1, bbox.2, bbox.3);
            r@
                == "https://api3.geo.admin.ch/rest/services/api/MapServer/identify?geometryType=esriGeometryEnvelope&geometry="@
                + geom + "&sr=2056&imageDisplay=500,500,96&mapExtent="@ + geom
                + "&tolerance=0&layers=all:ch.bazl.luftfahrthindernis&returnGeometry=true&geometryFormat=geojson&limit=2000"@
        }),
{
    let geom = write_envelope(m, bbox.0, bbox.1, bbox.2, bbox.3);
    let mut s: String =
        "https://api3.geo.admin.ch/rest/services/api/MapServer/identify?geometryType=esriGeometryEnvelope&geometry=".to_owned();
    s.append(geom.as_str());
    s.append("&sr=2056&imageDisplay=500,500,96&mapExtent=");
    s.append(geom.as_str());
    s.append(
        "&tolerance=0&layers=all:ch.bazl.luftfahrthindernis&returnGeometry=true&geometryFormat=geojson&limit=2000",
    );
    s
}

fn parse_point<M: Math>(m: &M, c: &Json) -> (r: Option<[Double; 3]>)
    requires
        steady(m),
    ensures
        r == point_of(m, *c),
{
    let arr = match c.as_list() {
        Some(a) => a,
        None => return None,
    };
    if arr.len() < 2 {
        return None;
    }
    let e = match arr[0].as_number() {
        Some(v) => v,
        None => return None,
    };
    let n = match arr[1].as_number() {
        Some(v) => v,
        None => return None,
    };
    let zero = Double { bits: 0 };
    let z = if arr.len() > 2 {
        match arr[2].as_number() {
            Some(v) => v,
            None => zero,
        }
    } else {
        zero
    };
    let (lon, lat) = lv95_to_wgs84(m, e, n);
    Some([lat, lon, z])
}

fn parse_linestring<M: Math>(m: &M, c: &Json) -> (r: Option<Vec<[Double; 3]>>)
    requires
        steady(m),
    ensures
        line_of(m, *c) == match r {
            Some(v) => Some(v@),
            None => None,
        },
{
    let arr = match c.as_list() {
        Some(a) => a,
        None => return None,
    };
    let mut out: Vec<[Double; 3]> = Vec::new();
    let mut i: usize = 0;
    assert(arr@.take(0) =~= Seq::empty());
    while i < arr.len()
        invariant
            steady(m),
            i <= arr@.len(),
            out@ == points_of(m, arr@.take(i as int)),
        decreases arr@.len() - i,
    {
        assert(arr@.take(i + 1).drop_last() =~= arr@.take(i as int));
        if let Some(p) = parse_point(m, &arr[i]) {
            out.push(p);
        }
        i = i + 1;
    }
    assert(arr@.take(arr@.len() as int) =~= arr@);
    if out.len() < 2 {
        None
    } else {
        Some(out)
    }
}

/// The geometry that a GeoJSON geometry gives.
fn parse_geom<M: Math>(m: &M, geometry: &Json) -> (r: Option<ObstacleGeom>)
    requires
        steady(m),
    ensures
        geom_of(m, *geometry) == match r {
            Some(g) => Some(g.model()),
            None => None,
        },
{
    let kind = match geometry.str_at("type") {
        Some(t) => t,
        None => "",
    };
    let coords = match geometry.get("coordinates") {
        Some(c) => c,
        None => return None,
    };
    if same_text(kind, "Point") {
        match parse_point(m, coords) {
            Some(p) => Some(ObstacleGeom::Point(p)),
            None => None,
        }
    } else if same_text(kind, "LineString") {
        match parse_linestring(m, coords) {
            Some(l) => Some(ObstacleGeom::Line(l)),
            None => None,
        }
    } else if same_text(kind, "Polygon") {
        let rings = match coords.as_list() {
            Some(a) => a,
            None => return None,
        };
        if rings.len() == 0 {
            return None;
        }
        match parse_linestring(m, &rings[0]) {
            Some(l) => Some(ObstacleGeom::Line(l)),
            None => None,
        }
    } else {
        None
    }
}

/// The obstacle that a feature describes.
fn parse_obstacle<M: Math>(m: &M, feature: &Json) -> (r: Option<Obstacle>)
    requires
        steady(m),
    ensures
        obstacle_of(m, *feature) == match r {
            Some(o) => Some(o.model()),
            None => None,
        },
{
    let nothing = Json::Null;
    let props = match feature.get("properties") {
        Some(p) => p,
        None => &nothing,
    };
    let kind = ObstacleKind::from_bazl(
        match props.str_at("obstacletype") {
            Some(t) => t,
            None => "",
        },
    );
    let registration = match props.str_at("registrationnumber") {
        Some(t) => t.to_owned(),
        None => "".to_owned(),
    };
    let zero = Double { bits: 0 };
    let top = match props.num_at("topelevationamsl") {
        Some(v) => v,
        None => zero,
    };
    let agl = match props.num_at("maxheightagl") {
        Some(v) => v,
        None => zero,
    };
    let geometry = match feature.get("geometry") {
        Some(g) => g,
        None => return None,
    };
    match parse_geom(m, geometry) {
        Some(geom) => Some(
            Obstacle {
                kind,
                registration,
                top_amsl_m: narrow(m, top),
                max_agl_m: narrow(m, agl),
                geom,
            },
        ),
        None => None,
    }
}

/// The obstacles that a reply describes, in order.
pub fn obstacles_from<M: Math>(m: &M, body: &Json) -> (r: Vec<Obstacle>)
    requires
        steady(m),
    ensures
        models(r@) == obstacles_of(m, results_of(*body)),
{
    let mut out: Vec<Obstacle> = Vec::new();
    let results = match body.get("results") {
        Some(v) => match v.as_list() {
            Some(a) => a,
            None => {
                assert(models(out@) =~= Seq::empty());
                return out;
            },
        },
        None => {
            assert(models(out@) =~= Seq::empty());
            return out;
        },
    };
    let mut i: usize = 0;
    assert(results@.take(0) =~= Seq::empty());
    assert(models(out@) =~= obstacles_of(m, results@.take(0)));
    while i < results.len()
        invariant
            steady(m),
            i <= results@.len(),
            models(out@) == obstacles_of(m, results@.take(i as int)),
        decreases results@.len() - i,
    {
        assert(results@.take(i + 1).drop_last() =~= results@.take(i as int));
        let ghost before = out@;
        if let Some(o) = parse_obstacle(m, &results[i]) {
            let ghost model = o.model();
            out.push(o);
            assert(models(out@) =~= models(before).push(model));
        }
        i = i + 1;
    }
    assert(results@.take(results@.len() as int) =~= results@);
    out
}

} // verus!
