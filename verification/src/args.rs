//! Command lines of the programs that gather trails, lifts and restricted areas.

use crate::lv95::wgs84_to_lv95;
use crate::math::{parse_double_of, read_double, steady, Math};
use crate::scalar::Double;
use crate::text::{pieces, same_text, split, string_of, texts};
use crate::trails::SacScale;
use crate::warnings::{models, Warning, WarningKind, WarningModel};
use vstd::prelude::*;

verus! {

/// 7.
pub const DEFAULT_LON_MIN: u64 = 0x401c_0000_0000_0000;

/// 46.4.
pub const DEFAULT_LAT_MIN: u64 = 0x4047_3333_3333_3333;

/// 8.5.
pub const DEFAULT_LON_MAX: u64 = 0x4021_0000_0000_0000;

/// 47.
pub const DEFAULT_LAT_MAX: u64 = 0x4047_8000_0000_0000;

/// What a list of arguments holds.
pub open spec fn views(args: Seq<String>) -> Seq<Seq<char>> {
    args.map_values(|s: String| s@)
}

/// What is wrong with a text that is no number.
pub open spec fn complaint_of(text: Seq<char>) -> Seq<char> {
    if text.len() == 0 {
        "cannot parse float from empty string"@
    } else {
        "invalid float literal"@
    }
}

/// What is wrong with a text that is no number, after what it stands for.
pub fn complain(label: &str, text: &str) -> (r: String)
    ensures
        r@ == label@ + ": "@ + complaint_of(text@),
{
    let head = label.to_owned().concat(": ");
    proof {
        reveal_strlit("");
        if text@ == ""@ {
            assert(text@.len() == 0);
        }
        if text@.len() == 0 {
            assert(text@ =~= ""@);
        }
    }
    if same_text(text, "") {
        head.concat("cannot parse float from empty string")
    } else {
        head.concat("invalid float literal")
    }
}

/// Four numbers, or what is wrong with the first text that is none.
pub open spec fn numbers_of<M: Math>(
    m: &M,
    parts: Seq<Seq<char>>,
    labels: Seq<Seq<char>>,
    k: int,
) -> Option<Seq<char>>
    decreases parts.len() - k,
{
    if k >= parts.len() {
        None
    } else if parse_double_of(m, parts[k]) is None {
        Some(labels[k] + ": "@ + complaint_of(parts[k]))
    } else {
        numbers_of(m, parts, labels, k + 1)
    }
}

/// The four comma-separated numbers of a text; `few` where there are not four
/// pieces.
pub open spec fn box_of<M: Math>(
    m: &M,
    text: Seq<char>,
    labels: Seq<Seq<char>>,
    few: Seq<char>,
) -> Result<[Double; 4], Seq<char>> {
    let parts = pieces(text, ',');
    if parts.len() != 4 {
        Err(few)
    } else {
        match numbers_of(m, parts, labels, 0) {
            Some(complaint) => Err(complaint),
            None => Ok(
                [
                    parse_double_of(m, parts[0])->0,
                    parse_double_of(m, parts[1])->0,
                    parse_double_of(m, parts[2])->0,
                    parse_double_of(m, parts[3])->0,
                ],
            ),
        }
    }
}

/// One number of a list, or what is wrong with its text.
fn read_part<M: Math>(m: &M, part: &Vec<char>, label: &str) -> (r: Result<Double, String>)
    requires
        steady(m),
    ensures
        match r {
            Ok(v) => parse_double_of(m, part@) == Some(v),
            Err(e) => parse_double_of(m, part@) is None && e@ == label@ + ": "@ + complaint_of(part@),
        },
{
    let text = string_of(part, 0, part.len());
    assert(text@ =~= part@);
    match read_double(m, text.as_str()) {
        Some(v) => Ok(v),
        None => Err(complain(label, text.as_str())),
    }
}

/// The four comma-separated numbers of a text.
pub fn read_box<M: Math>(m: &M, text: &str, labels: [&str; 4], few: &str) -> (r: Result<
    [Double; 4],
    String,
>)
    requires
        steady(m),
    ensures
        box_of(m, text@, seq![labels[0]@, labels[1]@, labels[2]@, labels[3]@], few@) == match r {
            Ok(b) => Ok(b),
            Err(e) => Err(e@),
        },
{
    let parts = split(text, ',');
    let ghost all = pieces(text@, ',');
    let ghost names = seq![labels[0]@, labels[1]@, labels[2]@, labels[3]@];
    assert(texts(parts@) == all);
    if parts.len() != 4 {
        return Err(few.to_owned());
    }
    proof {
        assert(all[0] == parts@[0]@);
        assert(all[1] == parts@[1]@);
        assert(all[2] == parts@[2]@);
        assert(all[3] == parts@[3]@);
        reveal_with_fuel(numbers_of, 5);
    }
    let a = match read_part(m, &parts[0], labels[0]) {
        Ok(v) => v,
        Err(e) => {
            return Err(e);
        },
    };
    let b = match read_part(m, &parts[1], labels[1]) {
        Ok(v) => v,
        Err(e) => {
            return Err(e);
        },
    };
    let c = match read_part(m, &parts[2], labels[2]) {
        Ok(v) => v,
        Err(e) => {
            return Err(e);
        },
    };
    let d = match read_part(m, &parts[3], labels[3]) {
        Ok(v) => v,
        Err(e) => {
            return Err(e);
        },
    };
    Ok([a, b, c, d])
}

/// The scale that a text names: by its number, or as OSM writes it.
pub open spec fn sac_of(s: Seq<char>) -> Option<SacScale> {
    if s == "T1"@ || s == "hiking"@ {
        Some(SacScale::T1Hiking)
    } else if s == "T2"@ || s == "mountain_hiking"@ {
        Some(SacScale::T2MountainHiking)
    } else if s == "T3"@ || s == "demanding_mountain_hiking"@ {
        Some(SacScale::T3DemandingMountain)
    } else if s == "T4"@ || s == "alpine_hiking"@ {
        Some(SacScale::T4AlpineHiking)
    } else if s == "T5"@ || s == "demanding_alpine_hiking"@ {
        Some(SacScale::T5DemandingAlpine)
    } else if s == "T6"@ || s == "difficult_alpine_hiking"@ {
        Some(SacScale::T6DifficultAlpine)
    } else {
        None
    }
}

/// The scale that a text names.
pub fn parse_sac(s: &str) -> (r: Result<SacScale, String>)
    ensures
        match r {
            Ok(scale) => sac_of(s@) == Some(scale),
            Err(e) => sac_of(s@) is None && e@ == "unknown sac level: "@ + s@,
        },
{
    if same_text(s, "T1") || same_text(s, "hiking") {
        Ok(SacScale::T1Hiking)
    } else if same_text(s, "T2") || same_text(s, "mountain_hiking") {
        Ok(SacScale::T2MountainHiking)
    } else if same_text(s, "T3") || same_text(s, "demanding_mountain_hiking") {
        Ok(SacScale::T3DemandingMountain)
    } else if same_text(s, "T4") || same_text(s, "alpine_hiking") {
        Ok(SacScale::T4AlpineHiking)
    } else if same_text(s, "T5") || same_text(s, "demanding_alpine_hiking") {
        Ok(SacScale::T5DemandingAlpine)
    } else if same_text(s, "T6") || same_text(s, "difficult_alpine_hiking") {
        Ok(SacScale::T6DifficultAlpine)
    } else {
        Err("unknown sac level: ".to_owned().concat(s))
    }
}

/// The programs whose command lines are read here.
#[derive(Debug, Clone, Copy, PartialEq, Eq, Structural)]
pub enum Program {
    Trails,
    Lifts,
    Warnings,
}

/// What a command line asks for.
#[derive(Debug)]
pub struct AreaArgs {
    /// lon_min, lat_min, lon_max, lat_max.
    pub bbox: [Double; 4],
    pub min_sac: SacScale,
    pub out: String,
    pub include_airports: bool,
}

/// What an `AreaArgs` holds.
pub struct AreaModel {
    pub bbox: [Double; 4],
    pub min_sac: SacScale,
    pub out: Seq<char>,
    pub include_airports: bool,
}

impl AreaArgs {
    pub open spec fn model(self) -> AreaModel {
        AreaModel {
            bbox: self.bbox,
            min_sac: self.min_sac,
            out: self.out@,
            include_airports: self.include_airports,
        }
    }
}

/// What comes of a command line.
#[derive(Debug)]
pub enum AreaOutcome {
    Run(AreaArgs),
    Help,
    Fail(String),
}

/// What an `AreaOutcome` holds.
pub enum AreaOutcomeModel {
    Run(AreaModel),
    Help,
    Fail(Seq<char>),
}

impl AreaOutcome {
    pub open spec fn model(self) -> AreaOutcomeModel {
        match self {
            AreaOutcome::Run(args) => AreaOutcomeModel::Run(args.model()),
            AreaOutcome::Help => AreaOutcomeModel::Help,
            AreaOutcome::Fail(e) => AreaOutcomeModel::Fail(e@),
        }
    }
}

/// Where a program writes to unless told otherwise.
pub open spec fn default_out(program: Program) -> Seq<char> {
    match program {
        Program::Trails => "trails.json"@,
        Program::Lifts => "lifts.json"@,
        Program::Warnings => "warnings.json"@,
    }
}

/// What is wrong with a last argument `--bbox`.
pub open spec fn box_missing(program: Program) -> Seq<char> {
    if program == Program::Lifts {
        "--bbox needs lon_min,lat_min,lon_max,lat_max"@
    } else {
        "--bbox needs 4 numbers"@
    }
}

/// Names of the numbers of a WGS84 bbox.
pub open spec fn wgs84_labels() -> Seq<Seq<char>> {
    seq!["lon_min"@, "lat_min"@, "lon_max"@, "lat_max"@]
}

/// What a program's arguments come to, from the `i`-th on, given what those
/// before have set.
pub open spec fn area_args_of<M: Math>(
    m: &M,
    program: Program,
    args: Seq<Seq<char>>,
    i: int,
    now: AreaModel,
) -> AreaOutcomeModel
    decreases args.len() - i,
{
    if i >= args.len() {
        AreaOutcomeModel::Run(now)
    } else if args[i] == "--bbox"@ {
        if i + 1 >= args.len() {
            AreaOutcomeModel::Fail(box_missing(program))
        } else {
            match box_of(m, args[i + 1], wgs84_labels(), "--bbox needs 4 numbers"@) {
                Ok(bbox) => area_args_of(m, program, args, i + 2, AreaModel { bbox, ..now }),
                Err(e) => AreaOutcomeModel::Fail(e),
            }
        }
    } else if args[i] == "--min-sac"@ && program == Program::Trails {
        if i + 1 >= args.len() {
            AreaOutcomeModel::Fail("--min-sac needs T1..T6"@)
        } else {
            match sac_of(args[i + 1]) {
                Some(min_sac) => area_args_of(
                    m,
                    program,
                    args,
                    i + 2,
                    AreaModel { min_sac, ..now },
                ),
                None => AreaOutcomeModel::Fail("unknown sac level: "@ + args[i + 1]),
            }
        }
    } else if args[i] == "--out"@ {
        if i + 1 >= args.len() {
            AreaOutcomeModel::Fail("--out needs path"@)
        } else {
            area_args_of(m, program, args, i + 2, AreaModel { out: args[i + 1], ..now })
        }
    } else if args[i] == "--no-airports"@ && program == Program::Warnings {
        area_args_of(m, program, args, i + 1, AreaModel { include_airports: false, ..now })
    } else if args[i] == "-h"@ || args[i] == "--help"@ {
        AreaOutcomeModel::Help
    } else {
        AreaOutcomeModel::Fail("unknown arg: "@ + args[i])
    }
}

/// What holds before any argument: the Bernese Oberland and Berner Jura, trails
/// from T2 on, no airports. Airspace is covered by control zones, which are more
/// precise than the airports' polygons.
pub open spec fn area_defaults(program: Program) -> AreaModel {
    AreaModel {
        bbox: [
            Double { bits: DEFAULT_LON_MIN },
            Double { bits: DEFAULT_LAT_MIN },
            Double { bits: DEFAULT_LON_MAX },
            Double { bits: DEFAULT_LAT_MAX },
        ],
        min_sac: SacScale::T2MountainHiking,
        out: default_out(program),
        include_airports: false,
    }
}

/// Reads a program's command line, without the program's name.
pub fn parse_args<M: Math>(m: &M, program: Program, args: &Vec<String>) -> (r: AreaOutcome)
    requires
        steady(m),
    ensures
        r.model() == area_args_of(m, program, views(args@), 0, area_defaults(program)),
{
    let ghost all = views(args@);
    let n: usize = args.len();
    let mut now = AreaArgs {
        bbox: [
            Double { bits: DEFAULT_LON_MIN },
            Double { bits: DEFAULT_LAT_MIN },
            Double { bits: DEFAULT_LON_MAX },
            Double { bits: DEFAULT_LAT_MAX },
        ],
        min_sac: SacScale::T2MountainHiking,
        out: match program {
            Program::Trails => "trails.json".to_owned(),
            Program::Lifts => "lifts.json".to_owned(),
            Program::Warnings => "warnings.json".to_owned(),
        },
        include_airports: false,
    };
    let mut i: usize = 0;
    while i < n
        invariant
            steady(m),
            n == args@.len(),
            all == views(args@),
            i <= n,
            area_args_of(m, program, all, 0, area_defaults(program)) == area_args_of(
                m,
                program,
                all,
                i as int,
                now.model(),
            ),
        decreases n - i,
    {
        let arg = args[i].as_str();
        assert(arg@ == all[i as int]);
        let last: bool = n - i < 2;
        if same_text(arg, "--bbox") {
            if last {
                let e = match program {
                    Program::Lifts => "--bbox needs lon_min,lat_min,lon_max,lat_max",
                    _ => "--bbox needs 4 numbers",
                };
                return AreaOutcome::Fail(e.to_owned());
            }
            assert(args@[i + 1]@ == all[i + 1]);
            match read_box(
                m,
                args[i + 1].as_str(),
                ["lon_min", "lat_min", "lon_max", "lat_max"],
                "--bbox needs 4 numbers",
            ) {
                Ok(bbox) => {
                    now.bbox = bbox;
                },
                Err(e) => {
                    return AreaOutcome::Fail(e);
                },
            }
            i = i + 2;
        } else if same_text(arg, "--min-sac") && matches!(program, Program::Trails) {
            if last {
                return AreaOutcome::Fail("--min-sac needs T1..T6".to_owned());
            }
            assert(args@[i + 1]@ == all[i + 1]);
            match parse_sac(args[i + 1].as_str()) {
                Ok(min_sac) => {
                    now.min_sac = min_sac;
                },
                Err(e) => {
                    return AreaOutcome::Fail(e);
                },
            }
            i = i + 2;
        } else if same_text(arg, "--out") {
            if last {
                return AreaOutcome::Fail("--out needs path".to_owned());
            }
            assert(args@[i + 1]@ == all[i + 1]);
            now.out = args[i + 1].clone();
            i = i + 2;
        } else if same_text(arg, "--no-airports") && matches!(program, Program::Warnings) {
            now.include_airports = false;
            i = i + 1;
        } else if same_text(arg, "-h") || same_text(arg, "--help") {
            return AreaOutcome::Help;
        } else {
            return AreaOutcome::Fail("unknown arg: ".to_owned().concat(arg));
        }
    }
    AreaOutcome::Run(now)
}

/// LV95 bbox of the corners of a WGS84 bbox: west, south, east and north edge.
pub open spec fn spec_lv95_box<M: Math>(m: &M, bbox: [Double; 4]) -> [Double; 4] {
    let sw = wgs84_to_lv95(m, bbox[0], bbox[1]);
    let ne = wgs84_to_lv95(m, bbox[2], bbox[3]);
    [sw.0.min(ne.0), sw.1.min(ne.1), sw.0.max(ne.0), sw.1.max(ne.1)]
}

/// LV95 bbox of the corners of a WGS84 bbox: west, south, east and north edge.
#[verifier::when_used_as_spec(spec_lv95_box)]
pub fn lv95_box<M: Math>(m: &M, bbox: [Double; 4]) -> (r: [Double; 4])
    requires
        steady(m),
    ensures
        r == lv95_box(m, bbox),
{
    let sw = wgs84_to_lv95(m, bbox[0], bbox[1]);
    let ne = wgs84_to_lv95(m, bbox[2], bbox[3]);
    [sw.0.min(ne.0), sw.1.min(ne.1), sw.0.max(ne.0), sw.1.max(ne.1)]
}

/// The airports among some restricted areas, in order.
pub open spec fn airports_of(warnings: Seq<WarningModel>) -> Seq<WarningModel>
    decreases warnings.len(),
{
    if warnings.len() == 0 {
        Seq::empty()
    } else {
        let before = airports_of(warnings.drop_last());
        if warnings.last().kind == WarningKind::Airport {
            before.push(warnings.last())
        } else {
            before
        }
    }
}

/// The airports among some restricted areas, in order.
pub fn airports(warnings: &[Warning]) -> (r: Vec<Warning>)
    ensures
        models(r@) == airports_of(models(warnings@)),
{
    let ghost all = models(warnings@);
    let mut out: Vec<Warning> = Vec::new();
    let mut i: usize = 0;
    assert(all.take(0) =~= Seq::empty());
    assert(models(out@) =~= Seq::empty());
    while i < warnings.len()
        invariant
            all == models(warnings@),
            i <= warnings@.len(),
            models(out@) == airports_of(all.take(i as int)),
        decreases warnings@.len() - i,
    {
        let w = &warnings[i];
        assert(all.take(i + 1).drop_last() =~= all.take(i as int));
        assert(all[i as int] == w.model());
        if matches!(w.kind, WarningKind::Airport) {
            let ghost before = out@;
            out.push(w.clone());
            assert(models(out@) =~= models(before).push(w.model()));
        }
        i = i + 1;
    }
    assert(all.take(i as int) =~= all);
    out
}

} // verus!
