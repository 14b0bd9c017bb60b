//! Cable cars, gondolas, chair lifts, funiculars and rack railways from OSM.
//!
//! Each lift becomes a hikefly "fast access" segment: lower-station seed at
//! cost 0, upper-station seed at cost `travel_seconds + boarding_overhead`.

use crate::clusters::{cluster, is_clustering, linked, lists, touch};
use crate::exact::{
    digits_bound_the_value, powers_of_two, rounding_keeps_sides, rounding_stays_between, rounds,
    value, whole_numbers_are_exact,
};
use crate::exact_wide::{
    rounds_d, value_d, wide_roots_grow, wide_roots_keep_sides, wide_rounding_keeps_sides,
    wide_squares_are_exact, wide_values_are_in_order, wide_whole_numbers_are_exact,
};
use crate::lv95::wgs84_to_lv95;
use crate::math::{
    minus_d, narrow, over, plus, plus_d, sqrt_d, square_d, steady, Math,
};
use crate::osm::{box_text, text_of, write_box, Tags};
use crate::scalar::{Double, Single, ONE};
use crate::text::{is_text, same_text};
use std::collections::{HashMap, HashSet};
use vstd::arithmetic::power2::lemma2_to64;
use vstd::prelude::*;

verus! {

/// 180: flat overhead in seconds for buying a ticket / boarding / waiting.
pub const BOARDING_OVERHEAD_S: u32 = 0x4334_0000;

/// 8.
pub const CABLE_CAR_MS: u32 = 0x4100_0000;

/// 5.
pub const GONDOLA_MS: u32 = 0x40a0_0000;

/// 2.5.
pub const CHAIR_LIFT_MS: u32 = 0x4020_0000;

/// 7.
pub const COG_RAILWAY_MS: u32 = 0x40e0_0000;

/// 100 in double precision: shorter lines are junk.
pub const SHORTEST_LINE: u64 = 0x4059_0000_0000_0000;

/// Endpoint of one lift, in WGS84 + LV95.
#[derive(Debug, Clone, Copy, PartialEq, Eq, Structural)]
pub struct LiftEndpoint {
    pub lat: Double,
    pub lon: Double,
    pub e: Double,
    pub n: Double,
}

#[derive(Debug, Clone, Copy, PartialEq, Eq, Structural)]
pub enum LiftKind {
    CableCar,
    Gondola,
    ChairLift,
    DragLift,
    Funicular,
    CogRailway,
    /// Material cable / Materialseilbahn: farmers' cargo lifts. NOT human
    /// transport, but a real paragliding-flight hazard.
    GoodsLift,
}

/// Kind of a lift by its tags. Drag lifts are ski-only, and of the railways
/// only mountain railways count: plain narrow gauge and rail include mainline
/// trains in valleys, unless they run on a rack.
pub open spec fn kind_of(
    aerialway: Option<Seq<char>>,
    railway: Option<Seq<char>>,
    rack: Option<Seq<char>>,
) -> Option<LiftKind> {
    match aerialway {
        Some(a) => if a == "cable_car"@ {
            Some(LiftKind::CableCar)
        } else if a == "gondola"@ || a == "mixed_lift"@ {
            Some(LiftKind::Gondola)
        } else if a == "chair_lift"@ {
            Some(LiftKind::ChairLift)
        } else if a == "goods"@ || a == "zip_line"@ {
            Some(LiftKind::GoodsLift)
        } else {
            None
        },
        None => match railway {
            Some(r) => if r == "funicular"@ {
                Some(LiftKind::Funicular)
            } else if r == "rack_railway"@ {
                Some(LiftKind::CogRailway)
            } else if (r == "narrow_gauge"@ || r == "rail"@) && rack is Some {
                Some(LiftKind::CogRailway)
            } else {
                None
            },
            None => None,
        },
    }
}

impl LiftKind {
    /// Typical along-cable / along-rail speed in m/s.
    pub open spec fn spec_speed_ms(&self) -> Single {
        match self {
            LiftKind::CableCar => Single { bits: CABLE_CAR_MS },
            LiftKind::Gondola => Single { bits: GONDOLA_MS },
            LiftKind::ChairLift => Single { bits: CHAIR_LIFT_MS },
            LiftKind::DragLift => Single { bits: CHAIR_LIFT_MS },
            LiftKind::Funicular => Single { bits: CABLE_CAR_MS },
            LiftKind::CogRailway => Single { bits: COG_RAILWAY_MS },
            LiftKind::GoodsLift => Single { bits: ONE },
        }
    }

    /// Typical along-cable / along-rail speed in m/s.
    #[verifier::when_used_as_spec(spec_speed_ms)]
    pub fn speed_ms(&self) -> (r: Single)
        ensures
            r == self.speed_ms(),
    {
        match self {
            LiftKind::CableCar => Single { bits: CABLE_CAR_MS },
            LiftKind::Gondola => Single { bits: GONDOLA_MS },
            LiftKind::ChairLift => Single { bits: CHAIR_LIFT_MS },
            LiftKind::DragLift => Single { bits: CHAIR_LIFT_MS },
            LiftKind::Funicular => Single { bits: CABLE_CAR_MS },
            LiftKind::CogRailway => Single { bits: COG_RAILWAY_MS },
            LiftKind::GoodsLift => Single { bits: ONE },
        }
    }

    /// Whether this lift is usable for human transport (and thus a valid
    /// hike-access seed). Goods lifts are visible hazards, not passenger
    /// transport.
    pub fn is_human_transport(&self) -> (r: bool)
        ensures
            r == (*self != LiftKind::GoodsLift),
    {
        !matches!(self, LiftKind::GoodsLift)
    }

    /// Name of the kind.
    pub open spec fn label(self) -> Seq<char> {
        match self {
            LiftKind::CableCar => "CableCar"@,
            LiftKind::Gondola => "Gondola"@,
            LiftKind::ChairLift => "ChairLift"@,
            LiftKind::DragLift => "DragLift"@,
            LiftKind::Funicular => "Funicular"@,
            LiftKind::CogRailway => "CogRailway"@,
            LiftKind::GoodsLift => "GoodsLift"@,
        }
    }

    /// Name of the kind.
    pub fn name(&self) -> (r: &'static str)
        ensures
            r@ == self.label(),
    {
        match self {
            LiftKind::CableCar => "CableCar",
            LiftKind::Gondola => "Gondola",
            LiftKind::ChairLift => "ChairLift",
            LiftKind::DragLift => "DragLift",
            LiftKind::Funicular => "Funicular",
            LiftKind::CogRailway => "CogRailway",
            LiftKind::GoodsLift => "GoodsLift",
        }
    }

    pub fn from_osm(
        aerialway: Option<&str>,
        railway: Option<&str>,
        rack: Option<&str>,
    ) -> (r: Option<Self>)
        ensures
            r == kind_of(text_of(aerialway), text_of(railway), text_of(rack)),
    {
        if let Some(a) = aerialway {
            return if same_text(a, "cable_car") {
                Some(LiftKind::CableCar)
            } else if same_text(a, "gondola") || same_text(a, "mixed_lift") {
                Some(LiftKind::Gondola)
            } else if same_text(a, "chair_lift") {
                Some(LiftKind::ChairLift)
            } else if same_text(a, "goods") || same_text(a, "zip_line") {
                Some(LiftKind::GoodsLift)
            } else {
                None
            };
        }
        if is_text(railway, "funicular") {
            return Some(LiftKind::Funicular);
        }
        if is_text(railway, "rack_railway") {
            return Some(LiftKind::CogRailway);
        }
        if (is_text(railway, "narrow_gauge") || is_text(railway, "rail")) && rack.is_some() {
            return Some(LiftKind::CogRailway);
        }
        None
    }
}

#[derive(Debug)]
pub struct Lift {
    pub name: String,
    pub kind: LiftKind,
    pub lower: LiftEndpoint,
    pub upper: LiftEndpoint,
    /// Along-track length in meters (Euclidean LV95).
    pub length_m: Single,
    /// Travel time in seconds, computed from kind speed + boarding overhead.
    pub travel_seconds: Single,
}

/// One element of Overpass's reply to the lift query.
#[derive(Debug)]
pub enum LiftElement {
    Node { id: u64, lat: Double, lon: Double },
    Way { nodes: Vec<u64>, tags: Tags },
    Other,
}

/// The text of the query for lifts whose geometry intersects the WGS84 bbox.
pub fn lifts_query<M: Math>(
    m: &M,
    lon_min: Double,
    lat_min: Double,
    lon_max: Double,
    lat_max: Double,
) -> (r: String)
    requires
        steady(m),
    ensures
        ({
            let area = box_text(m, lon_min, lat_min, lon_max, lat_max);
            r@
                == "[out:json][timeout:120];\n(\n  way[\"aerialway\"~\"^(cable_car|gondola|mixed_lift|chair_lift|goods|zip_line)$\"]"@
                + area + ";\n  way[\"railway\"=\"funicular\"]"@ + area
                + ";\n  way[\"railway\"=\"rack_railway\"]"@ + area
                + ";\n  way[\"railway\"~\"^(narrow_gauge|rail)$\"][\"rack\"]"@ + area
                + ";\n);\nout body;\n>;\nout skel;"@
        }),
{
    let area = write_box(m, lon_min, lat_min, lon_max, lat_max);
    let mut s: String =
        "[out:json][timeout:120];\n(\n  way[\"aerialway\"~\"^(cable_car|gondola|mixed_lift|chair_lift|goods|zip_line)$\"]".to_owned();
    s.append(area.as_str());
    s.append(";\n  way[\"railway\"=\"funicular\"]");
    s.append(area.as_str());
    s.append(";\n  way[\"railway\"=\"rack_railway\"]");
    s.append(area.as_str());
    s.append(";\n  way[\"railway\"~\"^(narrow_gauge|rail)$\"][\"rack\"]");
    s.append(area.as_str());
    s.append(";\n);\nout body;\n>;\nout skel;");
    s
}

/// A way of a lift: its nodes, its kind and its name.
pub struct WayModel {
    pub nodes: Seq<u64>,
    pub kind: LiftKind,
    pub name: Option<Seq<char>>,
}

/// The way of a lift that an element is, if it is one: a way with at least two
/// nodes and a known kind.
pub open spec fn way_of(element: LiftElement) -> Option<WayModel> {
    match element {
        LiftElement::Way { nodes, tags } => match kind_of(
            tags.value("aerialway"@),
            tags.value("railway"@),
            tags.value("rack"@),
        ) {
            Some(kind) => if nodes@.len() < 2 {
                None
            } else {
                Some(WayModel { nodes: nodes@, kind, name: tags.value("name"@) })
            },
            None => None,
        },
        _ => None,
    }
}

/// The ways of lifts among elements, in order.
pub open spec fn ways_of(elements: Seq<LiftElement>) -> Seq<WayModel>
    decreases elements.len(),
{
    if elements.len() == 0 {
        Seq::empty()
    } else {
        let before = ways_of(elements.drop_last());
        match way_of(elements.last()) {
            Some(w) => before.push(w),
            None => before,
        }
    }
}

/// Where nodes are, (lat, lon): the last position given counts.
pub open spec fn positions_of(elements: Seq<LiftElement>) -> Map<u64, (Double, Double)>
    decreases elements.len(),
{
    if elements.len() == 0 {
        Map::empty()
    } else {
        let before = positions_of(elements.drop_last());
        match elements.last() {
            LiftElement::Node { id, lat, lon } => before.insert(id, (lat, lon)),
            _ => before,
        }
    }
}

/// The two ends of each way.
pub open spec fn ends_of(ways: Seq<WayModel>) -> Seq<(u64, u64)> {
    ways.map_values(|w: WayModel| (w.nodes[0], w.nodes.last()))
}

/// The kinds of lift, in order.
pub open spec fn kind_at(k: int) -> LiftKind {
    if k <= 0 {
        LiftKind::CableCar
    } else if k == 1 {
        LiftKind::Gondola
    } else if k == 2 {
        LiftKind::ChairLift
    } else if k == 3 {
        LiftKind::DragLift
    } else if k == 4 {
        LiftKind::Funicular
    } else if k == 5 {
        LiftKind::CogRailway
    } else {
        LiftKind::GoodsLift
    }
}

/// How many ways of a group are of this kind.
pub open spec fn count_kind(ways: Seq<WayModel>, group: Seq<usize>, kind: LiftKind) -> nat
    decreases group.len(),
{
    if group.len() == 0 {
        0
    } else {
        count_kind(ways, group.drop_last(), kind) + if ways[group.last() as int].kind == kind {
            1nat
        } else {
            0nat
        }
    }
}

/// Whether the `k`-th kind is the first of the most frequent kinds of a group.
pub open spec fn is_dominant(ways: Seq<WayModel>, group: Seq<usize>, k: int) -> bool {
    &&& 0 <= k < 7
    &&& forall|j: int|
        0 <= j < 7 ==> #[trigger] count_kind(ways, group, kind_at(j)) <= count_kind(
            ways,
            group,
            kind_at(k),
        )
    &&& forall|j: int|
        0 <= j < k ==> #[trigger] count_kind(ways, group, kind_at(j)) < count_kind(
            ways,
            group,
            kind_at(k),
        )
}

/// The first name among the ways of a group.
pub open spec fn first_name(ways: Seq<WayModel>, group: Seq<usize>) -> Option<Seq<char>>
    decreases group.len(),
{
    if group.len() == 0 {
        None
    } else {
        match first_name(ways, group.drop_last()) {
            Some(n) => Some(n),
            None => ways[group.last() as int].name,
        }
    }
}

/// The nodes of the ways of a group, one way after the other.
pub open spec fn visits(ways: Seq<WayModel>, group: Seq<usize>) -> Seq<u64>
    decreases group.len(),
{
    if group.len() == 0 {
        Seq::empty()
    } else {
        visits(ways, group.drop_last()) + ways[group.last() as int].nodes
    }
}

/// Nodes without repetitions, in the order in which they first occur.
pub open spec fn distinct(nodes: Seq<u64>) -> Seq<u64>
    decreases nodes.len(),
{
    if nodes.len() == 0 {
        Seq::empty()
    } else {
        let before = distinct(nodes.drop_last());
        if nodes.drop_last().contains(nodes.last()) {
            before
        } else {
            before.push(nodes.last())
        }
    }
}

/// A position as an endpoint.
pub open spec fn spec_endpoint<M: Math>(m: &M, p: (Double, Double)) -> LiftEndpoint {
    let (e, n) = wgs84_to_lv95(m, p.1, p.0);
    LiftEndpoint { lat: p.0, lon: p.1, e, n }
}

/// A position as an endpoint.
#[verifier::when_used_as_spec(spec_endpoint)]
pub fn endpoint<M: Math>(m: &M, p: (Double, Double)) -> (r: LiftEndpoint)
    requires
        steady(m),
    ensures
        r == endpoint(m, p),
{
    let (e, n) = wgs84_to_lv95(m, p.1, p.0);
    LiftEndpoint { lat: p.0, lon: p.1, e, n }
}

/// Where nodes are, in order, without those whose position is not known.
pub open spec fn points_of<M: Math>(
    m: &M,
    positions: Map<u64, (Double, Double)>,
    nodes: Seq<u64>,
) -> Seq<LiftEndpoint>
    decreases nodes.len(),
{
    if nodes.len() == 0 {
        Seq::empty()
    } else {
        let before = points_of(m, positions, nodes.drop_last());
        if positions.contains_key(nodes.last()) {
            before.push(endpoint(m, positions[nodes.last()]))
        } else {
            before
        }
    }
}

/// Distance between two points in meters.
pub open spec fn spec_apart<M: Math>(m: &M, a: LiftEndpoint, b: LiftEndpoint) -> Double {
    sqrt_d(
        m,
        plus_d(
            m,
            square_d(m, minus_d(m, a.e, b.e)),
            square_d(m, minus_d(m, a.n, b.n)),
        ),
    )
}

/// Distance between two points in meters.
#[verifier::when_used_as_spec(spec_apart)]
pub fn apart<M: Math>(m: &M, a: LiftEndpoint, b: LiftEndpoint) -> (r: Double)
    requires
        steady(m),
    ensures
        r == apart(m, a, b),
{
    sqrt_d(
        m,
        plus_d(
            m,
            square_d(m, minus_d(m, a.e, b.e)),
            square_d(m, minus_d(m, a.n, b.n)),
        ),
    )
}

/// A length with the pieces along some nodes added, one after the other;
/// pieces with an end whose position is not known are left out.
pub open spec fn length_along<M: Math>(
    m: &M,
    positions: Map<u64, (Double, Double)>,
    nodes: Seq<u64>,
    start: Double,
) -> Double
    decreases nodes.len(),
{
    if nodes.len() < 2 {
        start
    } else {
        let before = length_along(m, positions, nodes.drop_last(), start);
        let a = nodes[nodes.len() - 2];
        let b = nodes.last();
        if positions.contains_key(a) && positions.contains_key(b) {
            plus_d(m, before, apart(m, endpoint(m, positions[b]), endpoint(m, positions[a])))
        } else {
            before
        }
    }
}

/// Length of the ways of a group together.
pub open spec fn line_length<M: Math>(
    m: &M,
    positions: Map<u64, (Double, Double)>,
    ways: Seq<WayModel>,
    group: Seq<usize>,
) -> Double
    decreases group.len(),
{
    if group.len() == 0 {
        Double { bits: 0 }
    } else {
        length_along(
            m,
            positions,
            ways[group.last() as int].nodes,
            line_length(m, positions, ways, group.drop_last()),
        )
    }
}

/// Whether pair (a, b) comes before pair (i, j), row by row.
pub open spec fn pair_before(a: int, b: int, i: int, j: int) -> bool {
    a < i || (a == i && b < j)
}

/// Whether points `i` and `j` are the two that are farthest apart, the first
/// such pair; both 0 where no two points are apart.
pub open spec fn is_farthest<M: Math>(m: &M, points: Seq<LiftEndpoint>, i: int, j: int) -> bool {
    ||| {
        &&& 0 <= i < j < points.len()
        &&& (Double { bits: 0 }).below(apart(m, points[i], points[j]))
        &&& forall|a: int, b: int|
            0 <= a < b < points.len() ==> !apart(m, points[i], points[j]).below(
                apart(m, #[trigger] points[a], #[trigger] points[b]),
            )
        &&& forall|a: int, b: int|
            0 <= a < b < points.len() && pair_before(a, b, i, j) ==> !apart(
                m,
                points[i],
                points[j],
            ).at_most(apart(m, #[trigger] points[a], #[trigger] points[b]))
    }
    ||| {
        &&& i == 0 && j == 0
        &&& forall|a: int, b: int|
            0 <= a < b < points.len() ==> !(Double { bits: 0 }).below(
                apart(m, #[trigger] points[a], #[trigger] points[b]),
            )
    }
}

/// The points of the ways of a group.
pub open spec fn line_points<M: Math>(
    m: &M,
    positions: Map<u64, (Double, Double)>,
    ways: Seq<WayModel>,
    group: Seq<usize>,
) -> Seq<LiftEndpoint> {
    points_of(m, positions, distinct(visits(ways, group)))
}

/// Whether a group of ways makes a lift: it has two points and is not too
/// short.
pub open spec fn makes_lift<M: Math>(
    m: &M,
    positions: Map<u64, (Double, Double)>,
    ways: Seq<WayModel>,
    group: Seq<usize>,
) -> bool {
    &&& line_points(m, positions, ways, group).len() >= 2
    &&& !line_length(m, positions, ways, group).below(Double { bits: SHORTEST_LINE })
}

/// Whether a lift is the one that a group of ways makes.
pub open spec fn is_lift<M: Math>(
    m: &M,
    positions: Map<u64, (Double, Double)>,
    ways: Seq<WayModel>,
    group: Seq<usize>,
    lift: Lift,
) -> bool {
    let points = line_points(m, positions, ways, group);
    let length = narrow(m, line_length(m, positions, ways, group));
    &&& exists|k: int| #[trigger] is_dominant(ways, group, k) && lift.kind == kind_at(k)
    &&& lift.name@ == match first_name(ways, group) {
        Some(n) => n,
        None => lift.kind.label(),
    }
    &&& exists|i: int, j: int| #[trigger]
        is_farthest(m, points, i, j) && lift.lower == points[i] && lift.upper == points[j]
    &&& lift.length_m == length
    &&& lift.travel_seconds == plus(
        m,
        over(m, length, lift.kind.speed_ms()),
        Single { bits: BOARDING_OVERHEAD_S },
    )
}

/// The groups that make a lift, in order.
pub open spec fn lift_groups<M: Math>(
    m: &M,
    positions: Map<u64, (Double, Double)>,
    ways: Seq<WayModel>,
    groups: Seq<Seq<usize>>,
) -> Seq<Seq<usize>>
    decreases groups.len(),
{
    if groups.len() == 0 {
        Seq::empty()
    } else {
        let before = lift_groups(m, positions, ways, groups.drop_last());
        if makes_lift(m, positions, ways, groups.last()) {
            before.push(groups.last())
        } else {
            before
        }
    }
}

/// Whether the lifts are those that the groups of ways make, in order.
pub open spec fn are_lifts<M: Math>(
    m: &M,
    positions: Map<u64, (Double, Double)>,
    ways: Seq<WayModel>,
    groups: Seq<Seq<usize>>,
    lifts: Seq<Lift>,
) -> bool {
    let kept = lift_groups(m, positions, ways, groups);
    &&& lifts.len() == kept.len()
    &&& forall|i: int|
        0 <= i < lifts.len() ==> is_lift(m, positions, ways, kept[i], #[trigger] lifts[i])
}

/// A way of a lift.
struct WayInfo {
    nodes: Vec<u64>,
    kind: LiftKind,
    name: Option<String>,
}

impl WayInfo {
    spec fn model(self) -> WayModel {
        WayModel {
            nodes: self.nodes@,
            kind: self.kind,
            name: match self.name {
                Some(n) => Some(n@),
                None => None,
            },
        }
    }
}

spec fn models(ways: Seq<WayInfo>) -> Seq<WayModel> {
    ways.map_values(|w: WayInfo| w.model())
}

/// The way of a lift that an element is, if it is one.
fn read_way(nodes: &Vec<u64>, tags: &Tags) -> (r: Option<WayInfo>)
    ensures
        way_of(LiftElement::Way { nodes: *nodes, tags: *tags }) == match r {
            Some(w) => Some(w.model()),
            None => None,
        },
{
    if nodes.len() < 2 {
        return None;
    }
    let kind = match LiftKind::from_osm(tags.get("aerialway"), tags.get("railway"), tags.get("rack")) {
        Some(k) => k,
        None => return None,
    };
    let name = match tags.get("name") {
        Some(n) => Some(n.to_owned()),
        None => None,
    };
    Some(WayInfo { nodes: nodes.clone(), kind, name })
}

/// The ways of lifts and the positions of nodes among elements.
fn read_elements(elements: &Vec<LiftElement>) -> (r: (Vec<WayInfo>, HashMap<u64, (Double, Double)>))
    ensures
        models(r.0@) == ways_of(elements@),
        r.1@ == positions_of(elements@),
{
    broadcast use vstd::std_specs::hash::group_hash_axioms;

    let mut ways: Vec<WayInfo> = Vec::new();
    let mut positions: HashMap<u64, (Double, Double)> = HashMap::new();
    let mut i: usize = 0;
    assert(elements@.take(0) =~= Seq::empty());
    assert(models(ways@) =~= ways_of(elements@.take(0)));
    while i < elements.len()
        invariant
            i <= elements@.len(),
            models(ways@) == ways_of(elements@.take(i as int)),
            positions@ == positions_of(elements@.take(i as int)),
        decreases elements@.len() - i,
    {
        assert(elements@.take(i + 1).drop_last() =~= elements@.take(i as int));
        let ghost before = ways@;
        match &elements[i] {
            LiftElement::Node { id, lat, lon } => {
                positions.insert(*id, (*lat, *lon));
            },
            LiftElement::Way { nodes, tags } => {
                if let Some(w) = read_way(nodes, tags) {
                    let ghost model = w.model();
                    ways.push(w);
                    assert(models(ways@) =~= models(before).push(model));
                }
            },
            LiftElement::Other => {},
        }
        i = i + 1;
    }
    assert(elements@.take(elements@.len() as int) =~= elements@);
    (ways, positions)
}

/// The two ends of each way.
fn way_ends(ways: &Vec<WayInfo>) -> (r: Vec<(u64, u64)>)
    requires
        forall|i: int| 0 <= i < ways@.len() ==> (#[trigger] ways@[i]).nodes@.len() >= 2,
    ensures
        r@ == ends_of(models(ways@)),
{
    let mut ends: Vec<(u64, u64)> = Vec::new();
    let mut i: usize = 0;
    while i < ways.len()
        invariant
            forall|i: int| 0 <= i < ways@.len() ==> (#[trigger] ways@[i]).nodes@.len() >= 2,
            i <= ways@.len(),
            ends@ == ends_of(models(ways@)).take(i as int),
        decreases ways@.len() - i,
    {
        let nodes = &ways[i].nodes;
        ends.push((nodes[0], nodes[nodes.len() - 1]));
        assert(ends@ =~= ends_of(models(ways@)).take(i + 1));
        i = i + 1;
    }
    assert(ends_of(models(ways@)).take(ways@.len() as int) =~= ends_of(models(ways@)));
    ends
}

proof fn lemma_ways_long(elements: Seq<LiftElement>)
    ensures
        forall|i: int|
            0 <= i < ways_of(elements).len() ==> (#[trigger] ways_of(elements)[i]).nodes.len() >= 2,
        ways_of(elements).len() <= elements.len(),
    decreases elements.len(),
{
    if elements.len() > 0 {
        lemma_ways_long(elements.drop_last());
    }
}

/// How many ways of a group are of this kind.
fn count_of(ways: &Vec<WayInfo>, group: &Vec<usize>, kind: LiftKind) -> (r: usize)
    requires
        forall|i: int| 0 <= i < group@.len() ==> #[trigger] group@[i] < ways@.len(),
    ensures
        r == count_kind(models(ways@), group@, kind),
{
    let mut count: usize = 0;
    let mut i: usize = 0;
    while i < group.len()
        invariant
            forall|i: int| 0 <= i < group@.len() ==> #[trigger] group@[i] < ways@.len(),
            i <= group@.len(),
            count <= i,
            count == count_kind(models(ways@), group@.take(i as int), kind),
        decreases group@.len() - i,
    {
        assert(group@.take(i + 1).drop_last() =~= group@.take(i as int));
        if ways[group[i]].kind == kind {
            count = count + 1;
        }
        i = i + 1;
    }
    assert(group@.take(group@.len() as int) =~= group@);
    count
}

/// The kind at a place in the order of kinds.
fn nth_kind(k: usize) -> (r: LiftKind)
    ensures
        r == kind_at(k as int),
{
    if k == 0 {
        LiftKind::CableCar
    } else if k == 1 {
        LiftKind::Gondola
    } else if k == 2 {
        LiftKind::ChairLift
    } else if k == 3 {
        LiftKind::DragLift
    } else if k == 4 {
        LiftKind::Funicular
    } else if k == 5 {
        LiftKind::CogRailway
    } else {
        LiftKind::GoodsLift
    }
}

/// The first of the most frequent kinds of a group.
fn dominant_kind(ways: &Vec<WayInfo>, group: &Vec<usize>) -> (r: LiftKind)
    requires
        forall|i: int| 0 <= i < group@.len() ==> #[trigger] group@[i] < ways@.len(),
    ensures
        exists|k: int| #[trigger] is_dominant(models(ways@), group@, k) && r == kind_at(k),
{
    let ghost all = models(ways@);
    let mut best: usize = 0;
    let mut most: usize = count_of(ways, group, nth_kind(0));
    let mut k: usize = 1;
    while k < 7
        invariant
            forall|i: int| 0 <= i < group@.len() ==> #[trigger] group@[i] < ways@.len(),
            all == models(ways@),
            1 <= k <= 7,
            best < k,
            most == count_kind(all, group@, kind_at(best as int)),
            forall|j: int| 0 <= j < k ==> #[trigger] count_kind(all, group@, kind_at(j)) <= most,
            forall|j: int| 0 <= j < best ==> #[trigger] count_kind(all, group@, kind_at(j)) < most,
        decreases 7 - k,
    {
        let count: usize = count_of(ways, group, nth_kind(k));
        if count > most {
            best = k;
            most = count;
        }
        k = k + 1;
    }
    assert(is_dominant(all, group@, best as int));
    nth_kind(best)
}

/// The first name among the ways of a group, or that of the kind.
fn line_name(ways: &Vec<WayInfo>, group: &Vec<usize>, kind: LiftKind) -> (r: String)
    requires
        forall|i: int| 0 <= i < group@.len() ==> #[trigger] group@[i] < ways@.len(),
    ensures
        r@ == match first_name(models(ways@), group@) {
            Some(n) => n,
            None => kind.label(),
        },
{
    let ghost all = models(ways@);
    let mut i: usize = 0;
    while i < group.len()
        invariant
            forall|i: int| 0 <= i < group@.len() ==> #[trigger] group@[i] < ways@.len(),
            all == models(ways@),
            i <= group@.len(),
            first_name(all, group@.take(i as int)) is None,
        decreases group@.len() - i,
    {
        assert(group@.take(i + 1).drop_last() =~= group@.take(i as int));
        if let Some(n) = &ways[group[i]].name {
            proof {
                assert(first_name(all, group@.take(i + 1)) == Some(n@));
                lemma_first_name(all, group@, i + 1);
            }
            return n.clone();
        }
        i = i + 1;
    }
    assert(group@.take(group@.len() as int) =~= group@);
    kind.name().to_owned()
}

/// A name once found stays the first.
proof fn lemma_first_name(ways: Seq<WayModel>, group: Seq<usize>, i: int)
    requires
        0 <= i <= group.len(),
        first_name(ways, group.take(i)) is Some,
    ensures
        first_name(ways, group) == first_name(ways, group.take(i)),
    decreases group.len() - i,
{
    if i < group.len() {
        assert(group.take(i + 1).drop_last() =~= group.take(i));
        lemma_first_name(ways, group, i + 1);
    } else {
        assert(group.take(i) =~= group);
    }
}

/// The points of the ways of a group.
fn collect_points<M: Math>(
    m: &M,
    positions: &HashMap<u64, (Double, Double)>,
    ways: &Vec<WayInfo>,
    group: &Vec<usize>,
) -> (r: Vec<LiftEndpoint>)
    requires
        steady(m),
        forall|i: int| 0 <= i < group@.len() ==> #[trigger] group@[i] < ways@.len(),
    ensures
        r@ == line_points(m, positions@, models(ways@), group@),
{
    broadcast use vstd::std_specs::hash::group_hash_axioms;

    let ghost all = models(ways@);
    let ghost known = positions@;
    let mut points: Vec<LiftEndpoint> = Vec::new();
    let mut seen: HashSet<u64> = HashSet::new();
    let ghost mut met: Seq<u64> = Seq::empty();
    assert(group@.take(0) =~= Seq::empty());
    assert(met =~= visits(all, group@.take(0)));
    let mut i: usize = 0;
    while i < group.len()
        invariant
            steady(m),
            forall|i: int| 0 <= i < group@.len() ==> #[trigger] group@[i] < ways@.len(),
            all == models(ways@),
            known == positions@,
            i <= group@.len(),
            met == visits(all, group@.take(i as int)),
            points@ == points_of(m, known, distinct(met)),
            forall|v: u64| #[trigger] seen@.contains(v) <==> met.contains(v),
        decreases group@.len() - i,
    {
        let nodes = &ways[group[i]].nodes;
        let ghost before = met;
        assert(group@.take(i + 1).drop_last() =~= group@.take(i as int));
        assert(before + nodes@.take(0) =~= before);
        let mut j: usize = 0;
        while j < nodes.len()
            invariant
                steady(m),
                known == positions@,
                j <= nodes@.len(),
                met == before + nodes@.take(j as int),
                points@ == points_of(m, known, distinct(met)),
                forall|v: u64| #[trigger] seen@.contains(v) <==> met.contains(v),
            decreases nodes@.len() - j,
        {
            let id: u64 = nodes[j];
            let ghost met0 = met;
            let ghost seen0 = seen@;
            let fresh: bool = seen.insert(id);
            proof {
                met = met.push(id);
                assert(met.drop_last() =~= met0);
                assert(met =~= before + nodes@.take(j + 1));
                assert(fresh == !met0.contains(id));
                assert forall|v: u64| #[trigger] seen@.contains(v) <==> met.contains(v) by {
                    if met0.contains(v) {
                        let w = choose|w: int| 0 <= w < met0.len() && met0[w] == v;
                        assert(met[w] == v);
                    }
                    if v == id {
                        assert(met[met0.len() as int] == v);
                    }
                    if met.contains(v) && v != id {
                        let w = choose|w: int| 0 <= w < met.len() && met[w] == v;
                        assert(met0[w] == v);
                    }
                }
            }
            if fresh {
                assert(distinct(met).drop_last() =~= distinct(met0));
                if let Some(p) = positions.get(&id) {
                    points.push(endpoint(m, *p));
                }
            }
            j = j + 1;
        }
        proof {
            assert(nodes@.take(nodes@.len() as int) =~= nodes@);
            assert(met =~= visits(all, group@.take(i + 1)));
        }
        i = i + 1;
    }
    assert(group@.take(group@.len() as int) =~= group@);
    points
}

/// Length of the ways of a group together.
fn total_length<M: Math>(
    m: &M,
    positions: &HashMap<u64, (Double, Double)>,
    ways: &Vec<WayInfo>,
    group: &Vec<usize>,
) -> (r: Double)
    requires
        steady(m),
        forall|i: int| 0 <= i < group@.len() ==> #[trigger] group@[i] < ways@.len(),
    ensures
        r == line_length(m, positions@, models(ways@), group@),
{
    broadcast use vstd::std_specs::hash::group_hash_axioms;

    let ghost all = models(ways@);
    let ghost known = positions@;
    let mut total = Double { bits: 0 };
    let mut i: usize = 0;
    assert(group@.take(0) =~= Seq::empty());
    while i < group.len()
        invariant
            steady(m),
            forall|i: int| 0 <= i < group@.len() ==> #[trigger] group@[i] < ways@.len(),
            all == models(ways@),
            known == positions@,
            i <= group@.len(),
            total == line_length(m, known, all, group@.take(i as int)),
        decreases group@.len() - i,
    {
        assert(group@.take(i + 1).drop_last() =~= group@.take(i as int));
        let nodes = &ways[group[i]].nodes;
        let ghost start = total;
        let mut j: usize = 1;
        while j < nodes.len()
            invariant
                steady(m),
                known == positions@,
                1 <= j,
                nodes@.len() >= 1 ==> j <= nodes@.len(),
                nodes@.len() == 0 ==> j == 1,
                nodes@.len() >= 1 ==> total == length_along(m, known, nodes@.take(j as int), start),
                nodes@.len() == 0 ==> total == start,
            decreases nodes@.len() - j,
        {
            assert(nodes@.take(j + 1).drop_last() =~= nodes@.take(j as int));
            if let Some(a) = positions.get(&nodes[j - 1]) {
                if let Some(b) = positions.get(&nodes[j]) {
                    total = plus_d(m, total, apart(m, endpoint(m, *b), endpoint(m, *a)));
                }
            }
            j = j + 1;
        }
        assert(nodes@.take(nodes@.len() as int) =~= nodes@);
        i = i + 1;
    }
    assert(group@.take(group@.len() as int) =~= group@);
    total
}

/// The two points that are farthest apart.
fn farthest_pair<M: Math>(m: &M, points: &Vec<LiftEndpoint>) -> (r: (usize, usize))
    requires
        steady(m),
        points@.len() > 0,
    ensures
        is_farthest(m, points@, r.0 as int, r.1 as int),
        r.0 < points@.len(),
        r.1 < points@.len(),
{
    let mut best: (usize, usize) = (0, 0);
    let mut far = Double { bits: 0 };
    let ghost pts = points@;
    let mut i: usize = 0;
    while i < points.len()
        invariant
            steady(m),
            pts == points@,
            pts.len() > 0,
            i <= pts.len(),
            best.0 <= i,
            best.0 < pts.len(),
            best.1 < pts.len(),
            farthest_so_far(m, pts, best, far, i as int, i as int),
        decreases pts.len() - i,
    {
        let mut j: usize = i + 1;
        while j < points.len()
            invariant
                steady(m),
                pts == points@,
                i < pts.len(),
                i < j <= pts.len(),
                best.0 < pts.len(),
                best.1 < pts.len(),
                best.0 <= i,
                farthest_so_far(m, pts, best, far, i as int, j as int),
            decreases pts.len() - j,
        {
            let d = apart(m, points[i], points[j]);
            if far.lt(&d) {
                best = (i, j);
                far = d;
            }
            j = j + 1;
        }
        i = i + 1;
    }
    best
}

/// Whether `best` is the pair farthest apart of those before pair (i, j), at
/// the distance `far`.
spec fn farthest_so_far<M: Math>(
    m: &M,
    points: Seq<LiftEndpoint>,
    best: (usize, usize),
    far: Double,
    i: int,
    j: int,
) -> bool {
    &&& !far.nan()
    &&& forall|a: int, b: int|
        0 <= a < b < points.len() && pair_before(a, b, i, j) ==> !far.below(
            apart(m, #[trigger] points[a], #[trigger] points[b]),
        )
    &&& best == (0usize, 0usize) ==> far.bits == 0
    &&& best != (0usize, 0usize) ==> {
        &&& best.0 < best.1
        &&& pair_before(best.0 as int, best.1 as int, i, j)
        &&& far == apart(m, points[best.0 as int], points[best.1 as int])
        &&& (Double { bits: 0 }).below(far)
        &&& forall|a: int, b: int|
            0 <= a < b < points.len() && pair_before(a, b, best.0 as int, best.1 as int)
                ==> !far.at_most(apart(m, #[trigger] points[a], #[trigger] points[b]))
    }
}

/// The lift that a group of ways makes, if it makes one.
fn assemble<M: Math>(
    m: &M,
    positions: &HashMap<u64, (Double, Double)>,
    ways: &Vec<WayInfo>,
    group: &Vec<usize>,
) -> (r: Option<Lift>)
    requires
        steady(m),
        forall|i: int| 0 <= i < group@.len() ==> #[trigger] group@[i] < ways@.len(),
    ensures
        r is Some <==> makes_lift(m, positions@, models(ways@), group@),
        r matches Some(lift) ==> is_lift(m, positions@, models(ways@), group@, lift),
{
    let kind = dominant_kind(ways, group);
    let name = line_name(ways, group, kind);
    let points = collect_points(m, positions, ways, group);
    if points.len() < 2 {
        return None;
    }
    let total = total_length(m, positions, ways, group);
    let (i, j) = farthest_pair(m, &points);
    if total.lt(&Double { bits: SHORTEST_LINE }) {
        return None;
    }
    let length_m = narrow(m, total);
    let travel_seconds = plus(
        m,
        over(m, length_m, kind.speed_ms()),
        Single { bits: BOARDING_OVERHEAD_S },
    );
    Some(Lift { name, kind, lower: points[i], upper: points[j], length_m, travel_seconds })
}

/// The lifts that a reply describes: one for each line that the ways make.
pub fn lifts_from<M: Math>(m: &M, elements: &Vec<LiftElement>) -> (r: Vec<Lift>)
    requires
        steady(m),
    ensures
        exists|groups: Seq<Seq<usize>>| #[trigger]
            is_clustering(ends_of(ways_of(elements@)), groups) && are_lifts(
                m,
                positions_of(elements@),
                ways_of(elements@),
                groups,
                r@,
            ),
{
    let (ways, positions) = read_elements(elements);
    let ghost all = models(ways@);
    proof {
        lemma_ways_long(elements@);
        assert forall|i: int| 0 <= i < ways@.len() implies (#[trigger] ways@[i]).nodes@.len()
            >= 2 by {
            assert(all[i].nodes.len() >= 2);
        }
    }
    let ends = way_ends(&ways);
    let groups = cluster(&ends);
    let ghost lines = lists(groups@);
    let mut lifts: Vec<Lift> = Vec::new();
    let mut g: usize = 0;
    assert(lines.take(0) =~= Seq::empty());
    while g < groups.len()
        invariant
            steady(m),
            all == models(ways@),
            lines == lists(groups@),
            ends@ == ends_of(all),
            is_clustering(ends@, lines),
            g <= groups@.len(),
            are_lifts(m, positions@, all, lines.take(g as int), lifts@),
        decreases groups@.len() - g,
    {
        let group = &groups[g];
        assert(lines[g as int] == group@);
        assert forall|i: int| 0 <= i < group@.len() implies #[trigger] group@[i] < ways@.len() by {
            assert(lines[g as int][i] < ends@.len());
        }
        assert(lines.take(g + 1).drop_last() =~= lines.take(g as int));
        let ghost before = lifts@;
        if let Some(lift) = assemble(m, &positions, &ways, group) {
            lifts.push(lift);
        }
        proof {
            let kept = lift_groups(m, positions@, all, lines.take(g + 1));
            assert forall|i: int| 0 <= i < lifts@.len() implies is_lift(
                m,
                positions@,
                all,
                kept[i],
                #[trigger] lifts@[i],
            ) by {
                if i < before.len() {
                    assert(lifts@[i] == before[i]);
                }
            }
        }
        g = g + 1;
    }
    assert(lines.take(lines.len() as int) =~= lines);
    lifts
}

/// Ways of lifts that share an end are in one line.
pub proof fn touching_ways_make_one_line(
    ends: Seq<(u64, u64)>,
    groups: Seq<Seq<usize>>,
    g: int,
    h: int,
    a: int,
    b: int,
)
    requires
        is_clustering(ends, groups),
        0 <= g < groups.len(),
        0 <= h < groups.len(),
        0 <= a < groups[g].len(),
        0 <= b < groups[h].len(),
        touch(ends, groups[g][a] as int, groups[h][b] as int),
    ensures
        g == h,
{
    let path = seq![groups[g][a] as int, groups[h][b] as int];
    assert(groups[g][a] < ends.len() && groups[h][b] < ends.len());
    assert(crate::clusters::chain(ends, path));
    assert(path.last() == groups[h][b] as int);
    assert(linked(ends, groups[g][a] as int, groups[h][b] as int));
}

/// Meters per second at which a kind of lift goes.
pub open spec fn pace(kind: LiftKind) -> real {
    match kind {
        LiftKind::CableCar => 8real,
        LiftKind::Gondola => 5real,
        LiftKind::ChairLift => 5real / 2real,
        LiftKind::DragLift => 5real / 2real,
        LiftKind::Funicular => 8real,
        LiftKind::CogRailway => 7real,
        LiftKind::GoodsLift => 1real,
    }
}

proof fn lemma_pace(kind: LiftKind)
    ensures
        kind.speed_ms().finite(),
        value(kind.speed_ms()) == pace(kind),
{
    lemma2_to64();
    powers_of_two();
    digits_bound_the_value(Single { bits: 0x4100_0000 }, 130, 0x80_0000, 1_048_576, 8real, 8real);
    digits_bound_the_value(Single { bits: 0x40a0_0000 }, 129, 0xa0_0000, 2_097_152, 5real, 5real);
    digits_bound_the_value(
        Single { bits: 0x4020_0000 },
        128,
        0xa0_0000,
        4_194_304,
        5real / 2real,
        5real / 2real,
    );
    digits_bound_the_value(Single { bits: 0x40e0_0000 }, 129, 0xe0_0000, 2_097_152, 7real, 7real);
}

/// A ride takes as many seconds as the lift's pace fits into its length, and
/// three minutes to board: where the pace fits from `seconds` to one time more,
/// so long and at most a second longer.
pub proof fn rides_take_their_length_by_the_pace<M: Math>(
    m: &M,
    rnd: spec_fn(real) -> int,
    positions: Map<u64, (Double, Double)>,
    ways: Seq<WayModel>,
    group: Seq<usize>,
    lift: Lift,
    seconds: int,
)
    requires
        rounds(m, rnd),
        is_lift(m, positions, ways, group, lift),
        lift.length_m.finite(),
        0 <= seconds <= 0x10_0000,
        (seconds as real) * pace(lift.kind) <= value(lift.length_m) <= (seconds as real + 1real)
            * pace(lift.kind),
    ensures
        lift.travel_seconds.finite(),
        seconds as real + 180real <= value(lift.travel_seconds) <= seconds as real + 181real,
        value(lift.length_m) == (seconds as real) * pace(lift.kind) ==> value(lift.travel_seconds)
            == seconds as real + 180real,
{
    lemma_pace(lift.kind);
    lemma2_to64();
    let board = Single { bits: 0x4334_0000 };
    digits_bound_the_value(board, 134, 0xb4_0000, 65_536, 180real, 180real);
    let ride = over(m, lift.length_m, lift.kind.speed_ms());
    let (k, l, p) = (seconds as real, value(lift.length_m), pace(lift.kind));
    let q = l / p;
    assert(k <= q <= k + 1real && (l == k * p ==> q == k)) by (nonlinear_arith)
        requires
            0real < p,
            k * p <= l <= (k + 1real) * p,
            q == l / p,
    ;
    let lo = whole_numbers_are_exact(m, rnd, seconds);
    let hi = whole_numbers_are_exact(m, rnd, seconds + 1);
    rounding_stays_between(m, rnd, ride, q, lo, hi);
    rounding_keeps_sides(m, rnd, ride, q, lo);
    let a = whole_numbers_are_exact(m, rnd, seconds + 180);
    let b = whole_numbers_are_exact(m, rnd, seconds + 181);
    rounding_stays_between(m, rnd, lift.travel_seconds, value(ride) + 180real, a, b);
    if l == k * p {
        rounding_keeps_sides(m, rnd, lift.travel_seconds, value(ride) + 180real, a);
    }
}

/// Whether one point is this far east and this far north of another.
pub open spec fn lies_off(a: LiftEndpoint, b: LiftEndpoint, east: int, north: int) -> bool {
    &&& a.e.finite() && a.n.finite() && b.e.finite() && b.n.finite()
    &&& value_d(a.e) - value_d(b.e) == east as real
    &&& value_d(a.n) - value_d(b.n) == north as real
    &&& -0x100_0000 <= east <= 0x100_0000
    &&& -0x100_0000 <= north <= 0x100_0000
}

/// What the distance of two points is the root of.
spec fn squared_apart<M: Math>(m: &M, a: LiftEndpoint, b: LiftEndpoint) -> Double {
    plus_d(m, square_d(m, minus_d(m, a.e, b.e)), square_d(m, minus_d(m, a.n, b.n)))
}

proof fn lemma_squared_apart<M: Math>(
    m: &M,
    rnd: spec_fn(real) -> int,
    a: LiftEndpoint,
    b: LiftEndpoint,
    east: int,
    north: int,
)
    requires
        rounds_d(m, rnd),
        lies_off(a, b, east, north),
    ensures
        squared_apart(m, a, b).finite(),
        value_d(squared_apart(m, a, b)) == (east * east + north * north) as real,
        0 <= east * east + north * north <= 0x2_0000_0000_0000,
{
    let x = wide_whole_numbers_are_exact(m, rnd, east);
    let y = wide_whole_numbers_are_exact(m, rnd, north);
    let (dx, dy) = (minus_d(m, a.e, b.e), minus_d(m, a.n, b.n));
    wide_rounding_keeps_sides(m, rnd, dx, east as real, x);
    wide_rounding_keeps_sides(m, rnd, dy, north as real, y);
    wide_squares_are_exact(m, rnd, dx, east);
    wide_squares_are_exact(m, rnd, dy, north);
    let sum = wide_whole_numbers_are_exact(m, rnd, east * east + north * north);
    wide_rounding_keeps_sides(
        m,
        rnd,
        squared_apart(m, a, b),
        (east * east) as real + (north * north) as real,
        sum,
    );
}

/// Points are as far apart as the straight line between them is long: where the
/// squares of how far they are apart to the east and to the north add up to that
/// of a whole number of meters, that many.
pub proof fn points_are_a_straight_line_apart<M: Math>(
    m: &M,
    rnd: spec_fn(real) -> int,
    a: LiftEndpoint,
    b: LiftEndpoint,
    east: int,
    north: int,
    length: int,
)
    requires
        rounds_d(m, rnd),
        lies_off(a, b, east, north),
        0 <= length <= 0x200_0000,
        east * east + north * north == length * length,
    ensures
        apart(m, a, b).finite(),
        value_d(apart(m, a, b)) == length as real,
{
    lemma_squared_apart(m, rnd, a, b, east, north);
    let c = wide_whole_numbers_are_exact(m, rnd, length);
    let s = squared_apart(m, a, b);
    assert((length * length) as real == (length as real) * (length as real)) by (nonlinear_arith);
    wide_roots_keep_sides(m, rnd, s, c, s);
}

/// Points that are no less far apart by their squares are no nearer.
pub proof fn points_further_off_are_further_apart<M: Math>(
    m: &M,
    rnd: spec_fn(real) -> int,
    a: LiftEndpoint,
    b: LiftEndpoint,
    by: (int, int),
    c: LiftEndpoint,
    d: LiftEndpoint,
    other_by: (int, int),
)
    requires
        rounds_d(m, rnd),
        lies_off(a, b, by.0, by.1),
        lies_off(c, d, other_by.0, other_by.1),
        by.0 * by.0 + by.1 * by.1 <= other_by.0 * other_by.0 + other_by.1 * other_by.1,
    ensures
        apart(m, a, b).at_most(apart(m, c, d)),
{
    lemma_squared_apart(m, rnd, a, b, by.0, by.1);
    lemma_squared_apart(m, rnd, c, d, other_by.0, other_by.1);
    wide_roots_grow(m, rnd, squared_apart(m, a, b), squared_apart(m, c, d));
    wide_values_are_in_order(apart(m, a, b), apart(m, c, d));
}

/// All of some lengths together.
pub open spec fn sum_of(lengths: Seq<int>) -> int
    decreases lengths.len(),
{
    if lengths.len() == 0 {
        0
    } else {
        sum_of(lengths.drop_last()) + lengths.last()
    }
}

/// Whether the piece from node `i` to the next has this length, in whole meters.
pub open spec fn is_piece<M: Math>(
    m: &M,
    positions: Map<u64, (Double, Double)>,
    nodes: Seq<u64>,
    lengths: Seq<int>,
    i: int,
) -> bool {
    let d = apart(m, endpoint(m, positions[nodes[i + 1]]), endpoint(m, positions[nodes[i]]));
    d.finite() && value_d(d) == lengths[i] as real && 0 <= lengths[i] <= 0x100_0000
}

/// Whether the pieces between nodes have these lengths, in whole meters.
pub open spec fn are_pieces<M: Math>(
    m: &M,
    positions: Map<u64, (Double, Double)>,
    nodes: Seq<u64>,
    lengths: Seq<int>,
) -> bool {
    &&& nodes.len() == lengths.len() + 1
    &&& forall|i: int| 0 <= i < nodes.len() ==> positions.contains_key(#[trigger] nodes[i])
    &&& forall|i: int|
        0 <= i < lengths.len() ==> #[trigger] is_piece(m, positions, nodes, lengths, i)
}

/// A way adds the lengths of all its pieces to what there is already.
pub proof fn ways_are_as_long_as_their_pieces<M: Math>(
    m: &M,
    rnd: spec_fn(real) -> int,
    positions: Map<u64, (Double, Double)>,
    nodes: Seq<u64>,
    lengths: Seq<int>,
    start: Double,
    so_far: int,
)
    requires
        rounds_d(m, rnd),
        are_pieces(m, positions, nodes, lengths),
        lengths.len() <= 0x10_0000,
        start.finite() && value_d(start) == so_far as real,
        0 <= so_far <= 0x1000_0000_0000,
    ensures
        length_along(m, positions, nodes, start).finite(),
        value_d(length_along(m, positions, nodes, start)) == (so_far + sum_of(lengths)) as real,
        0 <= sum_of(lengths) <= 0x100_0000 * lengths.len(),
    decreases lengths.len(),
{
    if lengths.len() > 0 {
        let front = nodes.drop_last();
        let shorter = lengths.drop_last();
        let k = lengths.len() - 1;
        assert(are_pieces(m, positions, front, shorter)) by {
            assert forall|i: int| 0 <= i < front.len() implies positions.contains_key(
                #[trigger] front[i],
            ) by {
                assert(positions.contains_key(nodes[i]));
            }
            assert forall|i: int| 0 <= i < shorter.len() implies #[trigger] is_piece(
                m,
                positions,
                front,
                shorter,
                i,
            ) by {
                assert(is_piece(m, positions, nodes, lengths, i));
            }
        }
        ways_are_as_long_as_their_pieces(m, rnd, positions, front, shorter, start, so_far);
        assert(is_piece(m, positions, nodes, lengths, k));
        assert(positions.contains_key(nodes[k]) && positions.contains_key(nodes[k + 1]));
        let c = wide_whole_numbers_are_exact(m, rnd, so_far + sum_of(lengths));
        let before = length_along(m, positions, front, start);
        let d = apart(
            m,
            endpoint(m, positions[nodes[k + 1]]),
            endpoint(m, positions[nodes[k]]),
        );
        wide_rounding_keeps_sides(m, rnd, plus_d(m, before, d), value_d(before) + value_d(d), c);
    }
}

} // verus!
