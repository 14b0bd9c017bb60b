//! OSM hiking trails filtered by SAC scale (Swiss Alpine Club difficulty).
//!
//! `sac_scale=hiking`: T1, yellow Wanderweg (skipped by default)
//! `sac_scale=mountain_hiking`: T2, white-red-white Bergweg
//! `sac_scale=demanding_mountain_hiking`: T3, harder Bergweg
//! `sac_scale=alpine_hiking`: T4, blue-white-blue Alpinwanderweg
//! `sac_scale=demanding_alpine_hiking` / `difficult_alpine_hiking`: T5/T6
//!
//! For paragliding takeoff approaches we typically want T2+ (skip the yellow
//! valley-floor Wanderwege). The `min_sac` filter selects the entry point.

use crate::lv95::wgs84_to_lv95;
use crate::math::{steady, Math};
use crate::osm::{box_text, write_box, OverpassPoint, Tags};
use crate::scalar::{Double, Single, ONE};
use crate::text::same_text;
use vstd::prelude::*;

verus! {

#[derive(Debug, Clone, Copy, PartialEq, Eq, PartialOrd, Ord, Structural)]
pub enum SacScale {
    /// T1: yellow Wanderweg, valley floors / forest paths.
    T1Hiking,
    /// T2: white-red-white Bergweg, mountain hiking.
    T2MountainHiking,
    /// T3: demanding Bergweg.
    T3DemandingMountain,
    /// T4: blue-white-blue Alpinwanderweg.
    T4AlpineHiking,
    /// T5: demanding alpine.
    T5DemandingAlpine,
    /// T6: difficult alpine, glaciated.
    T6DifficultAlpine,
}

impl SacScale {
    /// The scale as a number, from 1 to 6.
    pub open spec fn level(self) -> int {
        match self {
            SacScale::T1Hiking => 1,
            SacScale::T2MountainHiking => 2,
            SacScale::T3DemandingMountain => 3,
            SacScale::T4AlpineHiking => 4,
            SacScale::T5DemandingAlpine => 5,
            SacScale::T6DifficultAlpine => 6,
        }
    }

    /// The value of the `sac_scale` tag that stands for the scale.
    pub open spec fn osm_name(self) -> Seq<char> {
        match self {
            SacScale::T1Hiking => "hiking"@,
            SacScale::T2MountainHiking => "mountain_hiking"@,
            SacScale::T3DemandingMountain => "demanding_mountain_hiking"@,
            SacScale::T4AlpineHiking => "alpine_hiking"@,
            SacScale::T5DemandingAlpine => "demanding_alpine_hiking"@,
            SacScale::T6DifficultAlpine => "difficult_alpine_hiking"@,
        }
    }

    pub fn from_osm(s: &str) -> (r: Option<Self>)
        ensures
            match r {
                Some(scale) => s@ == scale.osm_name(),
                None => forall|scale: SacScale| s@ != #[trigger] scale.osm_name(),
            },
    {
        if same_text(s, "hiking") {
            Some(SacScale::T1Hiking)
        } else if same_text(s, "mountain_hiking") {
            Some(SacScale::T2MountainHiking)
        } else if same_text(s, "demanding_mountain_hiking") {
            Some(SacScale::T3DemandingMountain)
        } else if same_text(s, "alpine_hiking") {
            Some(SacScale::T4AlpineHiking)
        } else if same_text(s, "demanding_alpine_hiking") {
            Some(SacScale::T5DemandingAlpine)
        } else if same_text(s, "difficult_alpine_hiking") {
            Some(SacScale::T6DifficultAlpine)
        } else {
            None
        }
    }

    /// Trail-class multiplier on the standard Wanderwege time formula. Held
    /// at 1.0 across classes: the formula is calibrated against Swiss
    /// signpost times which already account for typical pace on each class.
    pub fn cost_multiplier(&self) -> (r: Single)
        ensures
            r.bits == ONE,
    {
        Single { bits: ONE }
    }

    /// Regular expression for the `sac_scale` values of `min` and above.
    pub fn overpass_regex(min: SacScale) -> (r: String)
        ensures
            r@ == "^("@ + names_from(min.level()) + ")$"@,
    {
        let mut s: String = "^(".to_owned();
        let first: u8 = match min {
            SacScale::T1Hiking => 1,
            SacScale::T2MountainHiking => 2,
            SacScale::T3DemandingMountain => 3,
            SacScale::T4AlpineHiking => 4,
            SacScale::T5DemandingAlpine => 5,
            SacScale::T6DifficultAlpine => 6,
        };
        let mut level: u8 = first;
        while level <= 6
            invariant
                1 <= first <= level <= 7,
                level == 7 ==> s@ == "^("@ + names_from(first as int),
                level <= 6 ==> s@ + names_from(level as int) == "^("@ + names_from(first as int),
            decreases 7 - level,
        {
            let name = match level {
                1 => "hiking",
                2 => "mountain_hiking",
                3 => "demanding_mountain_hiking",
                4 => "alpine_hiking",
                5 => "demanding_alpine_hiking",
                _ => "difficult_alpine_hiking",
            };
            assert(name@ == name_at(level as int));
            let ghost before = s@;
            s.append(name);
            if level < 6 {
                s.append("|");
                proof {
                    let rest = names_from(level + 1);
                    assert(before + names_from(level as int) =~= s@ + rest);
                }
            }
            level = level + 1;
        }
        s.append(")$");
        s
    }
}

/// Name of the scale at a level.
pub open spec fn name_at(level: int) -> Seq<char> {
    if level <= 1 {
        SacScale::T1Hiking.osm_name()
    } else if level == 2 {
        SacScale::T2MountainHiking.osm_name()
    } else if level == 3 {
        SacScale::T3DemandingMountain.osm_name()
    } else if level == 4 {
        SacScale::T4AlpineHiking.osm_name()
    } else if level == 5 {
        SacScale::T5DemandingAlpine.osm_name()
    } else {
        SacScale::T6DifficultAlpine.osm_name()
    }
}

/// Names of the scales from a level on, with bars between them.
pub open spec fn names_from(level: int) -> Seq<char>
    decreases 6 - level,
{
    if level >= 6 {
        name_at(level)
    } else {
        name_at(level) + "|"@ + names_from(level + 1)
    }
}

/// No two scales have the same name.
pub proof fn scale_names_are_distinct(a: SacScale, b: SacScale)
    requires
        a.osm_name() == b.osm_name(),
    ensures
        a == b,
{
    reveal_strlit("hiking");
    reveal_strlit("mountain_hiking");
    reveal_strlit("demanding_mountain_hiking");
    reveal_strlit("alpine_hiking");
    reveal_strlit("demanding_alpine_hiking");
    reveal_strlit("difficult_alpine_hiking");
    assert("hiking"@.len() == 6);
    assert("mountain_hiking"@.len() == 15);
    assert("demanding_mountain_hiking"@.len() == 25);
    assert("alpine_hiking"@.len() == 13);
    assert("demanding_alpine_hiking"@.len() == 23 && "demanding_alpine_hiking"@[1] == 'e');
    assert("difficult_alpine_hiking"@.len() == 23 && "difficult_alpine_hiking"@[1] == 'i');
}

#[derive(Debug)]
pub struct TrailSegment {
    pub sac: SacScale,
    /// Polyline as LV95 (e, n) points.
    pub points: Vec<[Double; 2]>,
}

/// One element of Overpass's reply to the trail query.
#[derive(Debug)]
pub enum TrailElement {
    Way { geometry: Vec<OverpassPoint>, tags: Tags },
    Other,
}

/// Points of a geometry in LV95.
pub open spec fn to_lv95<M: Math>(m: &M, geometry: Seq<OverpassPoint>) -> Seq<[Double; 2]> {
    geometry.map_values(
        |p: OverpassPoint|
            {
                let (e, n) = wgs84_to_lv95(m, p.lon, p.lat);
                [e, n]
            },
    )
}

/// Scale and points of the trail that an element describes, if it is one: a
/// way with at least two points and a known scale.
pub open spec fn trail_of<M: Math>(m: &M, element: TrailElement) -> Option<
    (SacScale, Seq<[Double; 2]>),
> {
    match element {
        TrailElement::Way { geometry, tags } => if geometry@.len() < 2 {
            None
        } else {
            match tags.value("sac_scale"@) {
                Some(v) => if exists|scale: SacScale| v == #[trigger] scale.osm_name() {
                    Some((choose|scale: SacScale| v == #[trigger] scale.osm_name(), to_lv95(
                        m,
                        geometry@,
                    )))
                } else {
                    None
                },
                None => None,
            }
        },
        TrailElement::Other => None,
    }
}

/// The trails among elements, in order.
pub open spec fn trails_of<M: Math>(m: &M, elements: Seq<TrailElement>) -> Seq<
    (SacScale, Seq<[Double; 2]>),
>
    decreases elements.len(),
{
    if elements.len() == 0 {
        Seq::empty()
    } else {
        let before = trails_of(m, elements.drop_last());
        match trail_of(m, elements.last()) {
            Some(t) => before.push(t),
            None => before,
        }
    }
}

/// What a list of segments holds.
pub open spec fn segments_view(segments: Seq<TrailSegment>) -> Seq<
    (SacScale, Seq<[Double; 2]>),
> {
    segments.map_values(|s: TrailSegment| (s.sac, s.points@))
}

/// The text of the query for hiking ways with `sac_scale >= min_sac` in the
/// WGS84 bbox.
pub fn trails_query<M: Math>(
    m: &M,
    lon_min: Double,
    lat_min: Double,
    lon_max: Double,
    lat_max: Double,
    min_sac: SacScale,
) -> (r: String)
    requires
        steady(m),
    ensures
        r@ == "[out:json][timeout:240];\n(\n  way[\"highway\"~\"^(path|footway|track)$\"][\"sac_scale\"~\""@
            + ("^("@ + names_from(min_sac.level()) + ")$"@) + "\"]"@ + box_text(
            m,
            lon_min,
            lat_min,
            lon_max,
            lat_max,
        ) + ";\n);\nout geom;"@,
{
    let mut s: String =
        "[out:json][timeout:240];\n(\n  way[\"highway\"~\"^(path|footway|track)$\"][\"sac_scale\"~\"".to_owned();
    s.append(SacScale::overpass_regex(min_sac).as_str());
    s.append("\"]");
    s.append(write_box(m, lon_min, lat_min, lon_max, lat_max).as_str());
    s.append(";\n);\nout geom;");
    s
}

/// The trails that a reply describes, in order.
pub fn trail_segments<M: Math>(m: &M, elements: &Vec<TrailElement>) -> (r: Vec<TrailSegment>)
    requires
        steady(m),
    ensures
        segments_view(r@) == trails_of(m, elements@),
{
    let mut out: Vec<TrailSegment> = Vec::new();
    let mut i: usize = 0;
    assert(segments_view(out@) =~= trails_of(m, elements@.take(0)));
    while i < elements.len()
        invariant
            steady(m),
            i <= elements@.len(),
            segments_view(out@) == trails_of(m, elements@.take(i as int)),
        decreases elements@.len() - i,
    {
        let ghost seen = elements@.take(i + 1);
        assert(seen.drop_last() =~= elements@.take(i as int));
        if let TrailElement::Way { geometry, tags } = &elements[i] {
            if geometry.len() >= 2 {
                if let Some(v) = tags.get("sac_scale") {
                    if let Some(sac) = SacScale::from_osm(v) {
                        let points = geometry_to_lv95(m, geometry);
                        proof {
                            let scale = choose|scale: SacScale| v@ == #[trigger] scale.osm_name();
                            scale_names_are_distinct(sac, scale);
                            assert(trail_of(m, elements@[i as int]) == Some((sac, points@)));
                        }
                        let ghost before = out@;
                        out.push(TrailSegment { sac, points });
                        assert(segments_view(out@) =~= segments_view(before).push((sac, points@)));
                    }
                }
            }
        }
        i = i + 1;
    }
    assert(elements@.take(elements@.len() as int) =~= elements@);
    out
}

/// Points of a geometry in LV95.
fn geometry_to_lv95<M: Math>(m: &M, geometry: &Vec<OverpassPoint>) -> (r: Vec<[Double; 2]>)
    requires
        steady(m),
    ensures
        r@ == to_lv95(m, geometry@),
{
    let mut points: Vec<[Double; 2]> = Vec::new();
    let mut i: usize = 0;
    while i < geometry.len()
        invariant
            steady(m),
            i <= geometry@.len(),
            points@ == to_lv95(m, geometry@).take(i as int),
        decreases geometry@.len() - i,
    {
        let p = geometry[i];
        let (e, n) = wgs84_to_lv95(m, p.lon, p.lat);
        points.push([e, n]);
        assert(points@ =~= to_lv95(m, geometry@).take(i + 1));
        i = i + 1;
    }
    points
}

} // verus!
