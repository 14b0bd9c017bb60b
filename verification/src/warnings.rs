//! Safety / legal warning polygons from OSM Overpass.
//!
//! Currently covers:
//!   * Wildruhezonen (seasonal wildlife sanctuaries, OSM `boundary=protected_area`
//!     with name or protect_class hinting at "Wildruhezone")
//!   * Nature reserves (other `boundary=protected_area`)
//!   * Airports (`aeroway=aerodrome`): a crude CTR proxy
//!
//! Multi-polygon OSM relations are flattened to individual member-way
//! polygons; we lose hole topology but still cover the overlay accurately
//! enough for "is the launch inside any restricted area".

use crate::exact::size;
use crate::exact_wide::{
    rounds_d, value_d, wide_rounding_keeps_sides, wide_rounding_stays_between,
    wide_values_are_in_order, wide_whole_numbers_are_exact, wide_zero_is_nothing,
};
use crate::math::{minus_d, over_d, plus_d, steady, times_d, Math};
use crate::osm::{box_text, text_of, write_box, OverpassPoint, Tags};
use crate::scalar::Double;
use crate::text::{contains, has_part, is_text, lowercase, lowercase_of, same_text};
use vstd::prelude::*;

verus! {

#[derive(Debug, Clone, Copy, PartialEq, Eq, Structural)]
pub enum WarningKind {
    /// BAFU Wildruhezone: seasonal wildlife sanctuary.
    Wildruhezone,
    /// Federal hunting reserve (Eidg. Jagdbanngebiet): year-round.
    HuntingReserve,
    /// Swiss National Park or park of national importance.
    NationalPark,
    /// Generic OSM `boundary=protected_area`.
    NatureReserve,
    /// Controlled airspace: CTR around an airport.
    AirspaceCtr,
    /// Controlled airspace: TMA / approach area.
    AirspaceTma,
    /// Airport / aerodrome (legacy).
    Airport,
    Other,
}

impl WarningKind {
    /// Name of the kind.
    pub open spec fn label(self) -> Seq<char> {
        match self {
            WarningKind::Wildruhezone => "Wildruhezone"@,
            WarningKind::HuntingReserve => "HuntingReserve"@,
            WarningKind::NationalPark => "NationalPark"@,
            WarningKind::NatureReserve => "NatureReserve"@,
            WarningKind::AirspaceCtr => "AirspaceCtr"@,
            WarningKind::AirspaceTma => "AirspaceTma"@,
            WarningKind::Airport => "Airport"@,
            WarningKind::Other => "Other"@,
        }
    }

    /// Name of the kind.
    pub fn name(&self) -> (r: &'static str)
        ensures
            r@ == self.label(),
    {
        match self {
            WarningKind::Wildruhezone => "Wildruhezone",
            WarningKind::HuntingReserve => "HuntingReserve",
            WarningKind::NationalPark => "NationalPark",
            WarningKind::NatureReserve => "NatureReserve",
            WarningKind::AirspaceCtr => "AirspaceCtr",
            WarningKind::AirspaceTma => "AirspaceTma",
            WarningKind::Airport => "Airport",
            WarningKind::Other => "Other",
        }
    }
}

#[derive(Debug, Clone, Copy, PartialEq, Eq, PartialOrd, Ord, Structural)]
pub enum Severity {
    Critical,
    High,
    Medium,
    Low,
}

impl Severity {
    /// Name of the severity.
    pub open spec fn label(self) -> Seq<char> {
        match self {
            Severity::Critical => "Critical"@,
            Severity::High => "High"@,
            Severity::Medium => "Medium"@,
            Severity::Low => "Low"@,
        }
    }

    /// Name of the severity.
    pub fn name(&self) -> (r: &'static str)
        ensures
            r@ == self.label(),
    {
        match self {
            Severity::Critical => "Critical",
            Severity::High => "High",
            Severity::Medium => "Medium",
            Severity::Low => "Low",
        }
    }

    /// Whether an area of this severity is closed to takeoffs.
    pub open spec fn spec_no_fly(&self) -> bool {
        *self == Severity::Critical || *self == Severity::High
    }

    /// Whether an area of this severity is closed to takeoffs.
    #[verifier::when_used_as_spec(spec_no_fly)]
    pub fn no_fly(&self) -> (r: bool)
        ensures
            r == self.no_fly(),
    {
        matches!(self, Severity::Critical | Severity::High)
    }
}

#[derive(Debug)]
pub struct Warning {
    pub name: String,
    pub kind: WarningKind,
    pub severity: Severity,
    /// Closed polygon ring as [lat, lon] points. May not be self-closed; the
    /// point-in-polygon test treats first and last as connected.
    pub polygon: Vec<[Double; 2]>,
}

/// What a `Warning` holds.
pub struct WarningModel {
    pub name: Seq<char>,
    pub kind: WarningKind,
    pub severity: Severity,
    pub polygon: Seq<[Double; 2]>,
}

impl Warning {
    pub open spec fn model(self) -> WarningModel {
        WarningModel {
            name: self.name@,
            kind: self.kind,
            severity: self.severity,
            polygon: self.polygon@,
        }
    }
}

/// A polygon ring like the one given.
pub fn copy_ring(ring: &Vec<[Double; 2]>) -> (r: Vec<[Double; 2]>)
    ensures
        r@ == ring@,
{
    let mut copy: Vec<[Double; 2]> = Vec::new();
    let mut i: usize = 0;
    while i < ring.len()
        invariant
            i <= ring@.len(),
            copy@ == ring@.take(i as int),
        decreases ring@.len() - i,
    {
        copy.push(ring[i]);
        assert(copy@ =~= ring@.take(i + 1));
        i = i + 1;
    }
    assert(ring@.take(i as int) =~= ring@);
    copy
}

impl Clone for Warning {
    fn clone(&self) -> (r: Self)
        ensures
            r.model() == self.model(),
    {
        Warning {
            name: self.name.clone(),
            kind: self.kind,
            severity: self.severity,
            polygon: copy_ring(&self.polygon),
        }
    }
}

/// What a list of warnings holds.
pub open spec fn models(warnings: Seq<Warning>) -> Seq<WarningModel> {
    warnings.map_values(|w: Warning| w.model())
}

/// One member of a relation.
#[derive(Debug)]
pub struct OverpassMember {
    pub role: String,
    pub member_type: String,
    pub geometry: Vec<OverpassPoint>,
}

/// One element of Overpass's reply to the warnings query.
#[derive(Debug)]
pub enum WarningElement {
    Way { geometry: Vec<OverpassPoint>, tags: Tags },
    Relation { members: Vec<OverpassMember>, tags: Tags },
    Other,
}

/// The text of the query for restricted areas in the WGS84 bbox.
pub fn warnings_query<M: Math>(
    m: &M,
    lon_min: Double,
    lat_min: Double,
    lon_max: Double,
    lat_max: Double,
) -> (r: String)
    requires
        steady(m),
    ensures
        ({
            let area = box_text(m, lon_min, lat_min, lon_max, lat_max);
            r@ == "[out:json][timeout:180];\n(\n  way[\"boundary\"=\"protected_area\"]"@ + area
                + ";\n  relation[\"boundary\"=\"protected_area\"]"@ + area
                + ";\n  way[\"leisure\"=\"nature_reserve\"]"@ + area
                + ";\n  relation[\"leisure\"=\"nature_reserve\"]"@ + area
                + ";\n  way[\"aeroway\"=\"aerodrome\"]"@ + area
                + ";\n  relation[\"aeroway\"=\"aerodrome\"]"@ + area + ";\n);\nout geom;"@
        }),
{
    let area = write_box(m, lon_min, lat_min, lon_max, lat_max);
    let mut s: String = "[out:json][timeout:180];\n(\n  way[\"boundary\"=\"protected_area\"]".to_owned();
    s.append(area.as_str());
    s.append(";\n  relation[\"boundary\"=\"protected_area\"]");
    s.append(area.as_str());
    s.append(";\n  way[\"leisure\"=\"nature_reserve\"]");
    s.append(area.as_str());
    s.append(";\n  relation[\"leisure\"=\"nature_reserve\"]");
    s.append(area.as_str());
    s.append(";\n  way[\"aeroway\"=\"aerodrome\"]");
    s.append(area.as_str());
    s.append(";\n  relation[\"aeroway\"=\"aerodrome\"]");
    s.append(area.as_str());
    s.append(";\n);\nout geom;");
    s
}

/// Whether an aerodrome is more than a private grass strip or an unmarked
/// field: by its type, or by a code where no type is given.
pub open spec fn is_public_aerodrome(tags: Tags) -> bool {
    match tags.value("aerodrome:type"@) {
        Some(t) => t == "public"@ || t == "international"@ || t == "regional"@ || t == "military"@,
        None => tags.value("iata"@) is Some || tags.value("icao"@) is Some,
    }
}

/// Whether a protected area is a Wildruhezone: by its name in lower case or by
/// the protection class of Swiss wildlife areas.
pub open spec fn is_quiet_zone(tags: Tags, lowered: Option<Seq<char>>) -> bool {
    ||| match lowered {
        Some(n) => has_part(n, "wildruhe"@),
        None => false,
    }
    ||| tags.value("protect_class"@) == Some("4"@)
    ||| tags.value("protect_class"@) == Some("24"@)
}

/// What the tags of an area, with its name in lower case, make it; `None` for
/// what is no restriction.
pub open spec fn restriction_of(tags: Tags, lowered: Option<Seq<char>>) -> Option<
    (WarningKind, Severity),
> {
    if tags.value("aeroway"@) == Some("aerodrome"@) {
        if is_public_aerodrome(tags) {
            Some((WarningKind::Airport, Severity::Critical))
        } else {
            None
        }
    } else if tags.value("boundary"@) == Some("protected_area"@) || tags.value("leisure"@) == Some(
        "nature_reserve"@,
    ) {
        if is_quiet_zone(tags, lowered) {
            Some((WarningKind::Wildruhezone, Severity::High))
        } else {
            Some((WarningKind::NatureReserve, Severity::Medium))
        }
    } else {
        Some((WarningKind::Other, Severity::Low))
    }
}

/// The name of an area in lower case.
pub open spec fn lowered_name(tags: Tags) -> Option<Seq<char>> {
    match tags.value("name"@) {
        Some(n) => Some(lowercase_of(n)),
        None => None,
    }
}

/// Points of a geometry as [lat, lon].
pub open spec fn ring_of(geometry: Seq<OverpassPoint>) -> Seq<[Double; 2]> {
    geometry.map_values(|p: OverpassPoint| [p.lat, p.lon])
}

/// The warning that an area with these tags gives.
pub open spec fn warning_of(tags: Tags, geometry: Seq<OverpassPoint>) -> Option<WarningModel> {
    match restriction_of(tags, lowered_name(tags)) {
        Some((kind, severity)) => Some(
            WarningModel {
                name: match tags.value("name"@) {
                    Some(n) => n,
                    None => kind.label(),
                },
                kind,
                severity,
                polygon: ring_of(geometry),
            },
        ),
        None => None,
    }
}

/// Whether a member of a relation is a ring that counts: a way with at least
/// three points that is not a hole.
pub open spec fn is_outer(member: OverpassMember) -> bool {
    member.member_type@ == "way"@ && member.geometry@.len() >= 3 && member.role@ != "inner"@
}

/// The warnings that the members of a relation give, in order.
pub open spec fn member_warnings(tags: Tags, members: Seq<OverpassMember>) -> Seq<WarningModel>
    decreases members.len(),
{
    if members.len() == 0 {
        Seq::empty()
    } else {
        let before = member_warnings(tags, members.drop_last());
        if is_outer(members.last()) {
            match warning_of(tags, members.last().geometry@) {
                Some(w) => before.push(w),
                None => before,
            }
        } else {
            before
        }
    }
}

/// The warnings that an element gives: ways with at least three points, and
/// the outer rings of relations.
pub open spec fn element_warnings(element: WarningElement) -> Seq<WarningModel> {
    match element {
        WarningElement::Way { geometry, tags } => if geometry@.len() < 3 {
            Seq::empty()
        } else {
            match warning_of(tags, geometry@) {
                Some(w) => seq![w],
                None => Seq::empty(),
            }
        },
        WarningElement::Relation { members, tags } => member_warnings(tags, members@),
        WarningElement::Other => Seq::empty(),
    }
}

/// The warnings that elements give, in order.
pub open spec fn warnings_of(elements: Seq<WarningElement>) -> Seq<WarningModel>
    decreases elements.len(),
{
    if elements.len() == 0 {
        Seq::empty()
    } else {
        warnings_of(elements.drop_last()) + element_warnings(elements.last())
    }
}

/// What the tags of an area, with its name in lower case, make it.
pub fn restriction(tags: &Tags, lowered: Option<&str>) -> (r: Option<(WarningKind, Severity)>)
    ensures
        r == restriction_of(*tags, text_of(lowered)),
{
    if is_text(tags.get("aeroway"), "aerodrome") {
        // Skip private grass strips and small unmarked fields.
        let public = match tags.get("aerodrome:type") {
            Some(t) => same_text(t, "public") || same_text(t, "international") || same_text(
                t,
                "regional",
            ) || same_text(t, "military"),
            None => tags.get("iata").is_some() || tags.get("icao").is_some(),
        };
        if public {
            Some((WarningKind::Airport, Severity::Critical))
        } else {
            None
        }
    } else if is_text(tags.get("boundary"), "protected_area") || is_text(
        tags.get("leisure"),
        "nature_reserve",
    ) {
        // Heuristic: name-contains "Wildruhe" or protect_class 4/24 (CH wildlife)
        let named = match lowered {
            Some(n) => contains(n, "wildruhe"),
            None => false,
        };
        let class = tags.get("protect_class");
        if named || is_text(class, "4") || is_text(class, "24") {
            Some((WarningKind::Wildruhezone, Severity::High))
        } else {
            Some((WarningKind::NatureReserve, Severity::Medium))
        }
    } else {
        Some((WarningKind::Other, Severity::Low))
    }
}

/// The warning that an area with these tags gives.
pub fn build_warning(tags: &Tags, geometry: &Vec<OverpassPoint>) -> (r: Option<Warning>)
    ensures
        warning_of(*tags, geometry@) == match r {
            Some(w) => Some(w.model()),
            None => None,
        },
{
    let name = tags.get("name");
    let found = match name {
        Some(n) => {
            let low = lowercase(n);
            restriction(tags, Some(low.as_str()))
        },
        None => restriction(tags, None),
    };
    let (kind, severity) = match found {
        Some(k) => k,
        None => return None,
    };
    let mut polygon: Vec<[Double; 2]> = Vec::new();
    let mut i: usize = 0;
    while i < geometry.len()
        invariant
            i <= geometry@.len(),
            polygon@ == ring_of(geometry@).take(i as int),
        decreases geometry@.len() - i,
    {
        let p = geometry[i];
        polygon.push([p.lat, p.lon]);
        assert(polygon@ =~= ring_of(geometry@).take(i + 1));
        i = i + 1;
    }
    assert(polygon@ =~= ring_of(geometry@));
    let title = match name {
        Some(n) => n.to_owned(),
        None => kind.name().to_owned(),
    };
    Some(Warning { name: title, kind, severity, polygon })
}

/// The warnings that a reply gives, in order.
pub fn warnings_from(elements: &Vec<WarningElement>) -> (r: Vec<Warning>)
    ensures
        models(r@) == warnings_of(elements@),
{
    let mut out: Vec<Warning> = Vec::new();
    let mut i: usize = 0;
    assert(elements@.take(0) =~= Seq::empty());
    assert(models(out@) =~= warnings_of(elements@.take(0)));
    while i < elements.len()
        invariant
            i <= elements@.len(),
            models(out@) == warnings_of(elements@.take(i as int)),
        decreases elements@.len() - i,
    {
        assert(elements@.take(i + 1).drop_last() =~= elements@.take(i as int));
        let ghost before = models(out@);
        match &elements[i] {
            WarningElement::Way { geometry, tags } => {
                if geometry.len() >= 3 {
                    if let Some(w) = build_warning(tags, geometry) {
                        let ghost model = w.model();
                        out.push(w);
                        assert(models(out@) =~= before + seq![model]);
                    } else {
                        assert(models(out@) =~= before + Seq::empty());
                    }
                } else {
                    assert(models(out@) =~= before + Seq::empty());
                }
            },
            WarningElement::Relation { members, tags } => {
                let mut j: usize = 0;
                assert(members@.take(0) =~= Seq::empty());
                assert(models(out@) =~= before + member_warnings(*tags, members@.take(0)));
                while j < members.len()
                    invariant
                        j <= members@.len(),
                        models(out@) == before + member_warnings(*tags, members@.take(j as int)),
                    decreases members@.len() - j,
                {
                    assert(members@.take(j + 1).drop_last() =~= members@.take(j as int));
                    let member = &members[j];
                    let ghost all = models(out@);
                    if same_text(member.member_type.as_str(), "way") && member.geometry.len() >= 3
                        && !same_text(member.role.as_str(), "inner") {
                        if let Some(w) = build_warning(tags, &member.geometry) {
                            let ghost model = w.model();
                            out.push(w);
                            assert(models(out@) =~= all.push(model));
                            assert(models(out@) =~= before + member_warnings(
                                *tags,
                                members@.take(j + 1),
                            ));
                        }
                    }
                    j = j + 1;
                }
                assert(members@.take(members@.len() as int) =~= members@);
            },
            WarningElement::Other => {
                assert(models(out@) =~= before + Seq::empty());
            },
        }
        i = i + 1;
    }
    assert(elements@.take(elements@.len() as int) =~= elements@);
    out
}

/// Whether the ray west to east from a point at (lat, lon) crosses the edge
/// from `b` to `a`, both [lat, lon].
pub open spec fn crosses<M: Math>(
    m: &M,
    lat: Double,
    lon: Double,
    a: [Double; 2],
    b: [Double; 2],
) -> bool {
    let reach = plus_d(
        m,
        over_d(
            m,
            times_d(m, minus_d(m, b[1], a[1]), minus_d(m, lat, a[0])),
            minus_d(m, b[0], a[0]),
        ),
        a[1],
    );
    lat.below(a[0]) != lat.below(b[0]) && lon.below(reach)
}

/// Number of edges that end in one of the first `n` points and that the ray
/// from (lat, lon) crosses. The edge before the first point comes from the
/// last.
pub open spec fn crossings<M: Math>(
    m: &M,
    lat: Double,
    lon: Double,
    poly: Seq<[Double; 2]>,
    n: int,
) -> nat
    decreases n,
{
    if n <= 0 {
        0
    } else {
        let from = if n == 1 {
            poly[poly.len() - 1]
        } else {
            poly[n - 2]
        };
        crossings(m, lat, lon, poly, n - 1) + if crosses(m, lat, lon, poly[n - 1], from) {
            1nat
        } else {
            0nat
        }
    }
}

/// Whether a point is inside a polygon: an odd number of edges is crossed.
pub open spec fn spec_point_in_polygon<M: Math>(
    m: &M,
    lat: Double,
    lon: Double,
    poly: Seq<[Double; 2]>,
) -> bool {
    poly.len() >= 3 && crossings(m, lat, lon, poly, poly.len() as int) % 2 == 1
}

/// Ray-casting point-in-polygon. Polygon is a list of [lat, lon] points;
/// implicitly closed.
pub fn point_in_polygon<M: Math>(m: &M, lat: Double, lon: Double, poly: &[[Double; 2]]) -> (r: bool)
    requires
        steady(m),
    ensures
        r == spec_point_in_polygon(m, lat, lon, poly@),
{
    if poly.len() < 3 {
        return false;
    }
    let mut inside: bool = false;
    let mut j: usize = poly.len() - 1;
    let mut i: usize = 0;
    while i < poly.len()
        invariant
            steady(m),
            3 <= poly@.len(),
            i <= poly@.len(),
            i == 0 ==> j == poly@.len() - 1,
            i > 0 ==> j == i - 1,
            inside == (crossings(m, lat, lon, poly@, i as int) % 2 == 1),
        decreases poly@.len() - i,
    {
        let a = poly[i];
        let b = poly[j];
        if lat.lt(&a[0]) != lat.lt(&b[0]) {
            let reach = plus_d(
                m,
                over_d(
                    m,
                    times_d(m, minus_d(m, b[1], a[1]), minus_d(m, lat, a[0])),
                    minus_d(m, b[0], a[0]),
                ),
                a[1],
            );
            if lon.lt(&reach) {
                inside = !inside;
            }
        }
        j = i;
        i = i + 1;
    }
    inside
}

/// A ring that repeats its first point at the end holds the same points as the
/// ring that does not.
pub proof fn closing_a_ring_changes_nothing<M: Math>(
    m: &M,
    lat: Double,
    lon: Double,
    poly: Seq<[Double; 2]>,
)
    requires
        poly.len() >= 3,
    ensures
        spec_point_in_polygon(m, lat, lon, poly.push(poly[0])) == spec_point_in_polygon(
            m,
            lat,
            lon,
            poly,
        ),
{
    let closed = poly.push(poly[0]);
    let n = poly.len() as int;
    lemma_crossings_shift(m, lat, lon, poly, n);
    assert(closed[n] == poly[0] && closed[n - 1] == poly[n - 1]);
    assert(crossings(m, lat, lon, poly, 1) == if crosses(m, lat, lon, poly[0], poly[n - 1]) {
        1nat
    } else {
        0nat
    }) by {
        reveal_with_fuel(crossings, 2);
    }
    assert(crossings(m, lat, lon, closed, n + 1) == crossings(m, lat, lon, poly, n));
}

proof fn lemma_crossings_shift<M: Math>(
    m: &M,
    lat: Double,
    lon: Double,
    poly: Seq<[Double; 2]>,
    n: int,
)
    requires
        1 <= n <= poly.len(),
    ensures
        crossings(m, lat, lon, poly.push(poly[0]), n) + crossings(m, lat, lon, poly, 1)
            == crossings(m, lat, lon, poly, n),
    decreases n,
{
    let closed = poly.push(poly[0]);
    if n == 1 {
        assert(closed[0] == poly[0]);
        assert(closed[closed.len() - 1] == poly[0]);
        reveal_with_fuel(crossings, 2);
    } else {
        lemma_crossings_shift(m, lat, lon, poly, n - 1);
        assert(closed[n - 1] == poly[n - 1]);
        assert(closed[n - 2] == poly[n - 2]);
    }
}

proof fn lemma_crossings_turned<M: Math>(
    m: &M,
    lat: Double,
    lon: Double,
    poly: Seq<[Double; 2]>,
    k: int,
)
    requires
        1 <= k < poly.len(),
    ensures
        crossings(m, lat, lon, poly.skip(1).push(poly[0]), k) + crossings(m, lat, lon, poly, 1)
            == crossings(m, lat, lon, poly, k + 1),
    decreases k,
{
    let turned = poly.skip(1).push(poly[0]);
    assert(turned[k - 1] == poly[k]);
    if k == 1 {
        assert(turned[turned.len() - 1] == poly[0]);
        reveal_with_fuel(crossings, 3);
    } else {
        lemma_crossings_turned(m, lat, lon, poly, k - 1);
        assert(turned[k - 2] == poly[k - 1]);
    }
}

/// A ring that starts at another one of its points holds the same points.
pub proof fn turning_a_ring_changes_nothing<M: Math>(
    m: &M,
    lat: Double,
    lon: Double,
    poly: Seq<[Double; 2]>,
    start: int,
)
    requires
        0 <= start <= poly.len(),
    ensures
        spec_point_in_polygon(m, lat, lon, poly.skip(start) + poly.take(start))
            == spec_point_in_polygon(m, lat, lon, poly),
    decreases start,
{
    let n = poly.len() as int;
    if start == 0 {
        assert(poly.skip(0) + poly.take(0) =~= poly);
    } else if n >= 3 {
        turning_a_ring_changes_nothing(m, lat, lon, poly, start - 1);
        let before = poly.skip(start - 1) + poly.take(start - 1);
        let turned = before.skip(1).push(before[0]);
        assert(poly.skip(start) + poly.take(start) =~= turned);
        lemma_crossings_turned(m, lat, lon, before, n - 1);
        assert(turned[n - 1] == before[0] && turned[n - 2] == before[n - 1]);
        assert(crossings(m, lat, lon, before, 1) == if crosses(
            m,
            lat,
            lon,
            before[0],
            before[n - 1],
        ) {
            1nat
        } else {
            0nat
        }) by {
            reveal_with_fuel(crossings, 2);
        }
        assert(crossings(m, lat, lon, turned, n) == crossings(m, lat, lon, before, n));
    }
}

/// Whether a point has these whole coordinates.
pub open spec fn stands_at(p: [Double; 2], lat: int, lon: int) -> bool {
    &&& p[0].finite() && value_d(p[0]) == lat as real && -0x10_0000 <= lat <= 0x10_0000
    &&& p[1].finite() && value_d(p[1]) == lon as real && -0x10_0000 <= lon <= 0x10_0000
}

/// An edge is straight: the ray from a point crosses it exactly where the point's
/// latitude is from that of one end on and below that of the other, and the point
/// is west of the edge at its latitude. Stated where the edge is then at a whole
/// coordinate, `along` from its end.
pub proof fn edges_are_straight<M: Math>(
    m: &M,
    rnd: spec_fn(real) -> int,
    lat: Double,
    lon: Double,
    a: [Double; 2],
    b: [Double; 2],
    at: (int, int),
    ends: ((int, int), (int, int)),
    along: int,
)
    requires
        rounds_d(m, rnd),
        stands_at([lat, lon], at.0, at.1),
        stands_at(a, ends.0.0, ends.0.1),
        stands_at(b, ends.1.0, ends.1.1),
        -0x20_0000 <= along <= 0x20_0000,
        (ends.1.1 - ends.0.1) * (at.0 - ends.0.0) == along * (ends.1.0 - ends.0.0),
    ensures
        crosses(m, lat, lon, a, b) <==> {
            &&& ends.0.0 <= at.0 < ends.1.0 || ends.1.0 <= at.0 < ends.0.0
            &&& at.1 < ends.0.1 + along
        },
{
    assert([lat, lon][0] == lat && [lat, lon][1] == lon);
    wide_values_are_in_order(lat, a[0]);
    wide_values_are_in_order(lat, b[0]);
    if ends.1.0 != ends.0.0 {
        let (p, q, h) = (ends.1.1 - ends.0.1, at.0 - ends.0.0, ends.1.0 - ends.0.0);
        let (x, y, z) = (
            wide_whole_numbers_are_exact(m, rnd, p),
            wide_whole_numbers_are_exact(m, rnd, q),
            wide_whole_numbers_are_exact(m, rnd, h),
        );
        let (dx, dy, dh) = (minus_d(m, b[1], a[1]), minus_d(m, lat, a[0]), minus_d(m, b[0], a[0]));
        wide_rounding_keeps_sides(m, rnd, dx, p as real, x);
        wide_rounding_keeps_sides(m, rnd, dy, q as real, y);
        wide_rounding_keeps_sides(m, rnd, dh, h as real, z);
        assert(-0x1000_0000_0000 <= p * q <= 0x1000_0000_0000) by (nonlinear_arith)
            requires
                -0x20_0000 <= p <= 0x20_0000,
                -0x20_0000 <= q <= 0x20_0000,
        ;
        let c = wide_whole_numbers_are_exact(m, rnd, p * q);
        assert((p * q) as real == (p as real) * (q as real)) by (nonlinear_arith);
        let t = times_d(m, dx, dy);
        wide_rounding_keeps_sides(m, rnd, t, (p * q) as real, c);
        let (u, v, w) = (value_d(t), h as real, along as real);
        assert(u == w * v) by (nonlinear_arith)
            requires
                u == (p * q) as real,
                p * q == along * h,
                v == h as real,
                w == along as real,
        ;
        assert(u / v == w) by (nonlinear_arith)
            requires
                u == w * v,
                v != 0real,
        ;
        let k = wide_whole_numbers_are_exact(m, rnd, along);
        let r = over_d(m, t, dh);
        wide_rounding_keeps_sides(m, rnd, r, w, k);
        let e = wide_whole_numbers_are_exact(m, rnd, ends.0.1 + along);
        let reach = plus_d(m, r, a[1]);
        wide_rounding_keeps_sides(m, rnd, reach, w + value_d(a[1]), e);
        wide_values_are_in_order(lon, reach);
    }
}

/// An edge that runs north is where its ends are.
proof fn lemma_upright_edge<M: Math>(
    m: &M,
    rnd: spec_fn(real) -> int,
    lat: Double,
    lon: Double,
    a: [Double; 2],
    b: [Double; 2],
)
    requires
        rounds_d(m, rnd),
        lat.finite() && lon.finite(),
        a[0].finite() && a[1].finite() && b[0].finite() && b[1].finite(),
        size(value_d(a[0])) <= 360real && size(value_d(b[0])) <= 360real,
        size(value_d(lat)) <= 360real,
        value_d(a[1]) == value_d(b[1]),
    ensures
        crosses(m, lat, lon, a, b) <==> {
            &&& value_d(a[0]) <= value_d(lat) < value_d(b[0]) || value_d(b[0]) <= value_d(lat)
                < value_d(a[0])
            &&& value_d(lon) < value_d(a[1])
        },
{
    wide_values_are_in_order(lat, a[0]);
    wide_values_are_in_order(lat, b[0]);
    if value_d(a[0]) != value_d(b[0]) {
        let zero = wide_whole_numbers_are_exact(m, rnd, 0);
        let low = wide_whole_numbers_are_exact(m, rnd, -720);
        let high = wide_whole_numbers_are_exact(m, rnd, 720);
        let (dx, dy, dh) = (minus_d(m, b[1], a[1]), minus_d(m, lat, a[0]), minus_d(m, b[0], a[0]));
        wide_rounding_keeps_sides(m, rnd, dx, 0real, zero);
        wide_rounding_stays_between(m, rnd, dy, value_d(lat) - value_d(a[0]), low, high);
        wide_rounding_stays_between(m, rnd, dh, value_d(b[0]) - value_d(a[0]), low, high);
        wide_zero_is_nothing();
        wide_values_are_in_order(dh, Double { bits: 0 });
        let t = times_d(m, dx, dy);
        let v = value_d(dy);
        assert(0real * v == 0real) by (nonlinear_arith);
        wide_rounding_keeps_sides(m, rnd, t, 0real, zero);
        let h = value_d(dh);
        assert(0real / h == 0real) by (nonlinear_arith)
            requires
                h != 0real,
        ;
        let r = over_d(m, t, dh);
        wide_rounding_keeps_sides(m, rnd, r, 0real, zero);
        let reach = plus_d(m, r, a[1]);
        wide_rounding_keeps_sides(m, rnd, reach, value_d(a[1]), a[1]);
        wide_values_are_in_order(lon, reach);
    }
}

/// A box from one corner to the opposite one holds exactly the points between its
/// edges, the southern and the western edge taken along.
pub proof fn boxes_hold_what_is_between_their_edges<M: Math>(
    m: &M,
    rnd: spec_fn(real) -> int,
    lat: Double,
    lon: Double,
    south: Double,
    west: Double,
    north: Double,
    east: Double,
)
    requires
        rounds_d(m, rnd),
        lat.finite() && lon.finite(),
        south.finite() && west.finite() && north.finite() && east.finite(),
        size(value_d(lat)) <= 360real,
        -360real <= value_d(south) <= value_d(north) <= 360real,
        value_d(west) <= value_d(east),
    ensures
        ({
            let ring = seq![[south, west], [south, east], [north, east], [north, west]];
            spec_point_in_polygon(m, lat, lon, ring) <==> {
                &&& value_d(south) <= value_d(lat) < value_d(north)
                &&& value_d(west) <= value_d(lon) < value_d(east)
            }
        }),
{
    let ring = seq![[south, west], [south, east], [north, east], [north, west]];
    assert([south, west][0] == south && [south, west][1] == west);
    assert([south, east][0] == south && [south, east][1] == east);
    assert([north, east][0] == north && [north, east][1] == east);
    assert([north, west][0] == north && [north, west][1] == west);
    lemma_upright_edge(m, rnd, lat, lon, [south, west], [north, west]);
    lemma_upright_edge(m, rnd, lat, lon, [north, east], [south, east]);
    assert(!crosses(m, lat, lon, [south, east], [south, west]));
    assert(!crosses(m, lat, lon, [north, west], [north, east]));
    assert(ring.len() == 4 && ring[0] == [south, west] && ring[1] == [south, east] && ring[2] == [
        north,
        east,
    ] && ring[3] == [north, west]);
    reveal_with_fuel(crossings, 5);
}

} // verus!
