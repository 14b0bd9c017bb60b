//! Command line of the program that gathers elevation data.

use crate::args::{box_of, complain, complaint_of, read_box, views};
use crate::lv95::wgs84_to_lv95;
use crate::math::{
    double, minus_d, parse_double_of, parse_single_of, plus_d, read_double, read_single, steady,
    times_d, Math,
};
use crate::region::BBox;
use crate::scalar::{Double, Single};
use crate::text::same_text;
use crate::trail_graph::HALF_D;
use vstd::prelude::*;

verus! {

/// 2626500.
pub const DEFAULT_E_MIN: u64 = 0x4144_09e2_0000_0000;

/// 1171500.
pub const DEFAULT_N_MIN: u64 = 0x4131_e02c_0000_0000;

/// 2631500.
pub const DEFAULT_E_MAX: u64 = 0x4144_13a6_0000_0000;

/// 1176500.
pub const DEFAULT_N_MAX: u64 = 0x4131_f3b4_0000_0000;

/// 1500: side of the square round a peak, in meters.
pub const DEFAULT_PEAK_BOX: u64 = 0x4097_7000_0000_0000;

/// Side of the square round a flying area, in meters.
pub const AREA_SIDE: i128 = 3_000;

/// A region with its name.
pub type NamedBox = (String, BBox);

/// What a named region holds.
pub type NamedModel = (Seq<char>, BBox);

/// What a list of named regions holds.
pub open spec fn named_models(list: Seq<NamedBox>) -> Seq<NamedModel> {
    list.map_values(|b: NamedBox| (b.0@, b.1))
}

/// Famous Bernese Oberland & Berner Jura flying areas, each a 3 km x 3 km bbox
/// centered on the launch summit: name, and LV95 of the southwest corner, in
/// meters.
pub open spec fn bern_oberland() -> Seq<(Seq<char>, i128, i128)> {
    seq![
        ("Niederhorn"@, 2_626_270, 1_173_110),
        ("Niesen"@, 2_613_450, 1_166_390),
        ("Stockhorn"@, 2_601_350, 1_165_350),
        ("Sigriswiler Rothorn"@, 2_616_700, 1_179_200),
        ("Augstmatthorn"@, 2_638_600, 1_177_800),
        ("Brienzer Rothorn"@, 2_648_060, 1_178_910),
        ("Männlichen"@, 2_638_700, 1_162_350),
        ("Faulhorn / First"@, 2_643_900, 1_165_700),
        ("Schilthorn"@, 2_630_700, 1_154_500),
        ("Wetterhorn"@, 2_653_000, 1_164_500),
        ("Hahnenmoos"@, 2_603_300, 1_146_300),
        ("Wildhorn"@, 2_596_500, 1_142_500),
        ("Wiriehorn"@, 2_605_600, 1_155_200),
        ("Saanenmöser"@, 2_586_500, 1_147_500),
        ("Gantrisch"@, 2_597_500, 1_180_000),
        ("Chasseral"@, 2_571_500, 1_218_000),
    ]
}

/// The square of a flying area.
pub open spec fn area_box<M: Math>(m: &M, west: i128, south: i128) -> BBox {
    BBox {
        e_min: double(m, west),
        n_min: double(m, south),
        e_max: double(m, (west + AREA_SIDE) as i128),
        n_max: double(m, (south + AREA_SIDE) as i128),
    }
}

/// The flying areas with their squares.
pub open spec fn oberland_boxes<M: Math>(m: &M) -> Seq<NamedModel> {
    bern_oberland().map_values(|a: (Seq<char>, i128, i128)| (a.0, area_box(m, a.1, a.2)))
}

fn add_area<M: Math>(
    m: &M,
    out: &mut Vec<NamedBox>,
    name: &str,
    west: i128,
    south: i128,
    Ghost(i): Ghost<int>,
)
    requires
        steady(m),
        0 <= west <= 10_000_000,
        0 <= south <= 10_000_000,
        0 <= i < bern_oberland().len(),
        bern_oberland()[i] == (name@, west, south),
        named_models(old(out)@) == oberland_boxes(m).take(i),
    ensures
        named_models(final(out)@) == oberland_boxes(m).take(i + 1),
{
    let ghost before = out@;
    let bbox = BBox {
        e_min: double(m, west),
        n_min: double(m, south),
        e_max: double(m, west + AREA_SIDE),
        n_max: double(m, south + AREA_SIDE),
    };
    out.push((name.to_owned(), bbox));
    proof {
        assert(named_models(out@) =~= named_models(before).push((name@, bbox)));
        assert(oberland_boxes(m).take(i + 1) =~= oberland_boxes(m).take(i).push(
            oberland_boxes(m)[i],
        ));
    }
}

/// The regions of a preset.
pub fn preset<M: Math>(m: &M, name: &str) -> (r: Result<Vec<NamedBox>, String>)
    requires
        steady(m),
    ensures
        match r {
            Ok(list) => name@ == "bern-oberland"@ && named_models(list@) == oberland_boxes(m),
            Err(e) => name@ != "bern-oberland"@ && e@ == "unknown preset: "@ + name@
                + "; try 'bern-oberland'"@,
        },
{
    if !same_text(name, "bern-oberland") {
        return Err("unknown preset: ".to_owned().concat(name).concat("; try 'bern-oberland'"));
    }
    let mut out: Vec<NamedBox> = Vec::new();
    assert(named_models(out@) =~= oberland_boxes(m).take(0));
    add_area(m, &mut out, "Niederhorn", 2_626_270, 1_173_110, Ghost(0));
    add_area(m, &mut out, "Niesen", 2_613_450, 1_166_390, Ghost(1));
    add_area(m, &mut out, "Stockhorn", 2_601_350, 1_165_350, Ghost(2));
    add_area(m, &mut out, "Sigriswiler Rothorn", 2_616_700, 1_179_200, Ghost(3));
    add_area(m, &mut out, "Augstmatthorn", 2_638_600, 1_177_800, Ghost(4));
    add_area(m, &mut out, "Brienzer Rothorn", 2_648_060, 1_178_910, Ghost(5));
    add_area(m, &mut out, "Männlichen", 2_638_700, 1_162_350, Ghost(6));
    add_area(m, &mut out, "Faulhorn / First", 2_643_900, 1_165_700, Ghost(7));
    add_area(m, &mut out, "Schilthorn", 2_630_700, 1_154_500, Ghost(8));
    add_area(m, &mut out, "Wetterhorn", 2_653_000, 1_164_500, Ghost(9));
    add_area(m, &mut out, "Hahnenmoos", 2_603_300, 1_146_300, Ghost(10));
    add_area(m, &mut out, "Wildhorn", 2_596_500, 1_142_500, Ghost(11));
    add_area(m, &mut out, "Wiriehorn", 2_605_600, 1_155_200, Ghost(12));
    add_area(m, &mut out, "Saanenmöser", 2_586_500, 1_147_500, Ghost(13));
    add_area(m, &mut out, "Gantrisch", 2_597_500, 1_180_000, Ghost(14));
    add_area(m, &mut out, "Chasseral", 2_571_500, 1_218_000, Ghost(15));
    assert(oberland_boxes(m).take(16) =~= oberland_boxes(m));
    Ok(out)
}

/// A peak of the peaks dataset.
#[derive(Debug)]
pub struct PeakDef {
    pub name: String,
    pub lat: Double,
    pub lon: Double,
    pub ele: Double,
}

/// The square round a peak, by half its side.
pub open spec fn peak_box<M: Math>(m: &M, lon: Double, lat: Double, half_size_m: Double) -> BBox {
    let (e, n) = wgs84_to_lv95(m, lon, lat);
    BBox {
        e_min: minus_d(m, e, half_size_m),
        n_min: minus_d(m, n, half_size_m),
        e_max: plus_d(m, e, half_size_m),
        n_max: plus_d(m, n, half_size_m),
    }
}

/// The squares round some peaks.
pub open spec fn peak_boxes_of<M: Math>(m: &M, peaks: Seq<PeakDef>, half_size_m: Double) -> Seq<
    NamedModel,
> {
    peaks.map_values(|p: PeakDef| (p.name@, peak_box(m, p.lon, p.lat, half_size_m)))
}

/// The squares round some peaks.
pub fn peak_boxes<M: Math>(m: &M, peaks: &[PeakDef], half_size_m: Double) -> (r: Vec<NamedBox>)
    requires
        steady(m),
    ensures
        named_models(r@) == peak_boxes_of(m, peaks@, half_size_m),
{
    let ghost all = peak_boxes_of(m, peaks@, half_size_m);
    let mut out: Vec<NamedBox> = Vec::new();
    let mut i: usize = 0;
    assert(named_models(out@) =~= all.take(0));
    while i < peaks.len()
        invariant
            steady(m),
            all == peak_boxes_of(m, peaks@, half_size_m),
            i <= peaks@.len(),
            named_models(out@) == all.take(i as int),
        decreases peaks@.len() - i,
    {
        let p = &peaks[i];
        let ghost before = out@;
        let (e, n) = wgs84_to_lv95(m, p.lon, p.lat);
        let bbox = BBox {
            e_min: minus_d(m, e, half_size_m),
            n_min: minus_d(m, n, half_size_m),
            e_max: plus_d(m, e, half_size_m),
            n_max: plus_d(m, n, half_size_m),
        };
        out.push((p.name.clone(), bbox));
        proof {
            assert(named_models(out@) =~= named_models(before).push((p.name@, bbox)));
            assert(all.take(i + 1) =~= all.take(i as int).push(all[i as int]));
        }
        i = i + 1;
    }
    assert(all.take(i as int) =~= all);
    out
}

/// One thing that a command line asks for.
#[derive(Debug)]
pub enum Flag {
    /// Peaks from a file, and half the side of the square round each.
    Peaks(String, Double),
    Bbox(BBox),
    Preset(Vec<NamedBox>),
    Cell(Single),
    Out(String),
    CacheDir(String),
}

/// What a `Flag` holds.
pub enum FlagModel {
    Peaks(Seq<char>, Double),
    Bbox(BBox),
    Preset(Seq<NamedModel>),
    Cell(Single),
    Out(Seq<char>),
    CacheDir(Seq<char>),
}

impl Flag {
    pub open spec fn model(self) -> FlagModel {
        match self {
            Flag::Peaks(path, half) => FlagModel::Peaks(path@, half),
            Flag::Bbox(b) => FlagModel::Bbox(b),
            Flag::Preset(list) => FlagModel::Preset(named_models(list@)),
            Flag::Cell(c) => FlagModel::Cell(c),
            Flag::Out(path) => FlagModel::Out(path@),
            Flag::CacheDir(path) => FlagModel::CacheDir(path@),
        }
    }
}

/// What a list of flags holds.
pub open spec fn flag_models(flags: Seq<Flag>) -> Seq<FlagModel> {
    flags.map_values(|f: Flag| f.model())
}

/// How a command line ends.
#[derive(Debug)]
pub enum Ending {
    /// All arguments are understood.
    Done,
    /// The user wants to be helped.
    Help,
    /// The next argument is wrong.
    Fail(String),
}

/// What an `Ending` holds.
pub enum EndingModel {
    Done,
    Help,
    Fail(Seq<char>),
}

impl Ending {
    pub open spec fn model(self) -> EndingModel {
        match self {
            Ending::Done => EndingModel::Done,
            Ending::Help => EndingModel::Help,
            Ending::Fail(e) => EndingModel::Fail(e@),
        }
    }
}

/// A flag and those after it.
pub open spec fn flag_and(flag: FlagModel, rest: (Seq<FlagModel>, EndingModel)) -> (
    Seq<FlagModel>,
    EndingModel,
) {
    (seq![flag] + rest.0, rest.1)
}

/// A command line that ends here.
pub open spec fn failed(e: Seq<char>) -> (Seq<FlagModel>, EndingModel) {
    (Seq::empty(), EndingModel::Fail(e))
}

/// What the arguments come to, from the `i`-th on, for peaks with squares of
/// side `peak_box`. The size of the squares has to come before the peaks.
pub open spec fn flags_of<M: Math>(m: &M, args: Seq<Seq<char>>, i: int, peak_box: Double) -> (
    Seq<FlagModel>,
    EndingModel,
)
    decreases args.len() - i,
{
    if i >= args.len() {
        (Seq::empty(), EndingModel::Done)
    } else if args[i] == "--peaks"@ {
        if i + 1 >= args.len() {
            failed("--peaks needs a path"@)
        } else {
            flag_and(
                FlagModel::Peaks(args[i + 1], times_d(m, peak_box, Double { bits: HALF_D })),
                flags_of(m, args, i + 2, peak_box),
            )
        }
    } else if args[i] == "--peak-box"@ {
        if i + 1 >= args.len() {
            failed("--peak-box needs meters"@)
        } else {
            match parse_double_of(m, args[i + 1]) {
                Some(side) => flags_of(m, args, i + 2, side),
                None => failed("peak-box"@ + ": "@ + complaint_of(args[i + 1])),
            }
        }
    } else if args[i] == "--bbox-lv95"@ {
        if i + 1 >= args.len() {
            failed("--bbox-lv95 needs e_min,n_min,e_max,n_max"@)
        } else {
            match box_of(
                m,
                args[i + 1],
                seq!["e_min"@, "n_min"@, "e_max"@, "n_max"@],
                "--bbox-lv95 needs 4 comma-separated numbers"@,
            ) {
                Ok(b) => flag_and(
                    FlagModel::Bbox(BBox { e_min: b[0], n_min: b[1], e_max: b[2], n_max: b[3] }),
                    flags_of(m, args, i + 2, peak_box),
                ),
                Err(e) => failed(e),
            }
        }
    } else if args[i] == "--preset"@ {
        if i + 1 >= args.len() {
            failed("--preset needs a name"@)
        } else if args[i + 1] == "bern-oberland"@ {
            flag_and(FlagModel::Preset(oberland_boxes(m)), flags_of(m, args, i + 2, peak_box))
        } else {
            failed("unknown preset: "@ + args[i + 1] + "; try 'bern-oberland'"@)
        }
    } else if args[i] == "--cell"@ {
        if i + 1 >= args.len() {
            failed("--cell needs value"@)
        } else {
            match parse_single_of(m, args[i + 1]) {
                Some(c) => flag_and(FlagModel::Cell(c), flags_of(m, args, i + 2, peak_box)),
                None => failed("cell"@ + ": "@ + complaint_of(args[i + 1])),
            }
        }
    } else if args[i] == "--out"@ {
        if i + 1 >= args.len() {
            failed("--out needs value"@)
        } else {
            flag_and(FlagModel::Out(args[i + 1]), flags_of(m, args, i + 2, peak_box))
        }
    } else if args[i] == "--cache-dir"@ {
        if i + 1 >= args.len() {
            failed("--cache-dir needs value"@)
        } else {
            flag_and(FlagModel::CacheDir(args[i + 1]), flags_of(m, args, i + 2, peak_box))
        }
    } else if args[i] == "-h"@ || args[i] == "--help"@ {
        (Seq::empty(), EndingModel::Help)
    } else {
        failed("unknown argument: "@ + args[i])
    }
}

/// What one argument, with the one after it, comes to.
enum Step {
    Flag(Flag),
    PeakBox(Double),
    End(Ending),
}

/// What the argument at `i` comes to.
spec fn step_fits<M: Math>(
    m: &M,
    args: Seq<Seq<char>>,
    i: int,
    peak_box: Double,
    step: Step,
) -> bool {
    match step {
        Step::Flag(f) => i + 1 < args.len() && flags_of(m, args, i, peak_box) == flag_and(
            f.model(),
            flags_of(m, args, i + 2, peak_box),
        ),
        Step::PeakBox(side) => i + 1 < args.len() && flags_of(m, args, i, peak_box) == flags_of(
            m,
            args,
            i + 2,
            side,
        ),
        Step::End(e) => flags_of(m, args, i, peak_box) == (Seq::<FlagModel>::empty(), e.model()),
    }
}

/// A step that fails.
fn fail(e: &str) -> (r: Step)
    ensures
        r matches Step::End(Ending::Fail(t)) && t@ == e@,
{
    Step::End(Ending::Fail(e.to_owned()))
}

/// Reads the argument at `i`, with the one after it where it needs one.
fn read_flag<M: Math>(m: &M, args: &Vec<String>, i: usize, peak_box: Double) -> (r: Step)
    requires
        steady(m),
        i < args@.len(),
    ensures
        step_fits(m, views(args@), i as int, peak_box, r),
{
    let ghost all = views(args@);
    let n: usize = args.len();
    let arg = args[i].as_str();
    assert(arg@ == all[i as int]);
    let last: bool = n - i < 2;
    let value: &str = if last {
        ""
    } else {
        args[i + 1].as_str()
    };
    assert(!last ==> value@ == all[i + 1]);
    if same_text(arg, "--peaks") {
        if last {
            return fail("--peaks needs a path");
        }
        Step::Flag(Flag::Peaks(value.to_owned(), times_d(m, peak_box, Double { bits: HALF_D })))
    } else if same_text(arg, "--peak-box") {
        if last {
            return fail("--peak-box needs meters");
        }
        match read_double(m, value) {
            Some(side) => Step::PeakBox(side),
            None => Step::End(Ending::Fail(complain("peak-box", value))),
        }
    } else if same_text(arg, "--bbox-lv95") {
        if last {
            return fail("--bbox-lv95 needs e_min,n_min,e_max,n_max");
        }
        match read_box(
            m,
            value,
            ["e_min", "n_min", "e_max", "n_max"],
            "--bbox-lv95 needs 4 comma-separated numbers",
        ) {
            Ok(b) => Step::Flag(
                Flag::Bbox(BBox { e_min: b[0], n_min: b[1], e_max: b[2], n_max: b[3] }),
            ),
            Err(e) => Step::End(Ending::Fail(e)),
        }
    } else if same_text(arg, "--preset") {
        if last {
            return fail("--preset needs a name");
        }
        match preset(m, value) {
            Ok(list) => Step::Flag(Flag::Preset(list)),
            Err(e) => Step::End(Ending::Fail(e)),
        }
    } else if same_text(arg, "--cell") {
        if last {
            return fail("--cell needs value");
        }
        match read_single(m, value) {
            Some(c) => Step::Flag(Flag::Cell(c)),
            None => Step::End(Ending::Fail(complain("cell", value))),
        }
    } else if same_text(arg, "--out") {
        if last {
            return fail("--out needs value");
        }
        Step::Flag(Flag::Out(value.to_owned()))
    } else if same_text(arg, "--cache-dir") {
        if last {
            return fail("--cache-dir needs value");
        }
        Step::Flag(Flag::CacheDir(value.to_owned()))
    } else if same_text(arg, "-h") || same_text(arg, "--help") {
        Step::End(Ending::Help)
    } else {
        Step::End(Ending::Fail("unknown argument: ".to_owned().concat(arg)))
    }
}

/// Reads the command line, without the program's name: what it asks for, in
/// order, up to its end or to the first argument that is wrong.
pub fn parse_args<M: Math>(m: &M, args: &Vec<String>) -> (r: (Vec<Flag>, Ending))
    requires
        steady(m),
    ensures
        (flag_models(r.0@), r.1.model()) == flags_of(
            m,
            views(args@),
            0,
            Double { bits: DEFAULT_PEAK_BOX },
        ),
{
    let ghost all = views(args@);
    let ghost whole = flags_of(m, all, 0, Double { bits: DEFAULT_PEAK_BOX });
    let n: usize = args.len();
    let mut flags: Vec<Flag> = Vec::new();
    let mut peak_box = Double { bits: DEFAULT_PEAK_BOX };
    let mut i: usize = 0;
    assert(flag_models(flags@) + whole.0 =~= whole.0);
    while i < n
        invariant
            steady(m),
            n == args@.len(),
            all == views(args@),
            whole == flags_of(m, all, 0, Double { bits: DEFAULT_PEAK_BOX }),
            i <= n,
            whole == (
                flag_models(flags@) + flags_of(m, all, i as int, peak_box).0,
                flags_of(m, all, i as int, peak_box).1,
            ),
        decreases n - i,
    {
        match read_flag(m, args, i, peak_box) {
            Step::Flag(f) => {
                let ghost before = flags@;
                let ghost rest = flags_of(m, all, i + 2, peak_box);
                let ghost model = f.model();
                flags.push(f);
                proof {
                    assert(flag_models(flags@) =~= flag_models(before).push(model));
                    assert(flag_models(flags@) + rest.0 =~= flag_models(before) + (seq![model]
                        + rest.0));
                }
                i = i + 2;
            },
            Step::PeakBox(side) => {
                peak_box = side;
                i = i + 2;
            },
            Step::End(e) => {
                assert(flag_models(flags@) + Seq::<FlagModel>::empty() =~= flag_models(flags@));
                return (flags, e);
            },
        }
    }
    assert(flag_models(flags@) + Seq::<FlagModel>::empty() =~= flag_models(flags@));
    (flags, Ending::Done)
}

/// What to gather.
#[derive(Debug)]
pub enum Mode {
    Single(BBox),
    Preset(Vec<NamedBox>),
    Peaks(Vec<NamedBox>),
}

/// Niederhorn / Beatenberg.
pub open spec fn default_box() -> BBox {
    BBox {
        e_min: Double { bits: DEFAULT_E_MIN },
        n_min: Double { bits: DEFAULT_N_MIN },
        e_max: Double { bits: DEFAULT_E_MAX },
        n_max: Double { bits: DEFAULT_N_MAX },
    }
}

/// What to gather, given what the command line asks for: one of the three, or
/// the bbox over Niederhorn / Beatenberg where it asks for none.
pub fn choose_mode(
    preset: Option<Vec<NamedBox>>,
    single: Option<BBox>,
    peaks: Option<Vec<NamedBox>>,
) -> (r: Result<Mode, String>)
    ensures
        match (preset, single, peaks) {
            (Some(p), None, None) => r == Ok::<Mode, String>(Mode::Preset(p)),
            (None, Some(b), None) => r == Ok::<Mode, String>(Mode::Single(b)),
            (None, None, Some(p)) => r == Ok::<Mode, String>(Mode::Peaks(p)),
            (None, None, None) => r == Ok::<Mode, String>(Mode::Single(default_box())),
            _ => r matches Err(e) && e@
                == "--preset, --bbox-lv95 and --peaks are mutually exclusive"@,
        },
{
    match (preset, single, peaks) {
        (Some(p), None, None) => Ok(Mode::Preset(p)),
        (None, Some(b), None) => Ok(Mode::Single(b)),
        (None, None, Some(p)) => Ok(Mode::Peaks(p)),
        (None, None, None) => Ok(
            Mode::Single(
                BBox {
                    e_min: Double { bits: DEFAULT_E_MIN },
                    n_min: Double { bits: DEFAULT_N_MIN },
                    e_max: Double { bits: DEFAULT_E_MAX },
                    n_max: Double { bits: DEFAULT_N_MAX },
                },
            ),
        ),
        _ => Err("--preset, --bbox-lv95 and --peaks are mutually exclusive".to_owned()),
    }
}

/// What a `Mode` holds.
pub enum ModeModel {
    Single(BBox),
    Preset(Seq<NamedModel>),
    Peaks(Seq<NamedModel>),
}

impl Mode {
    pub open spec fn model(self) -> ModeModel {
        match self {
            Mode::Single(b) => ModeModel::Single(b),
            Mode::Preset(list) => ModeModel::Preset(named_models(list@)),
            Mode::Peaks(list) => ModeModel::Peaks(named_models(list@)),
        }
    }
}

/// What to gather; `None` where the command line asks for several things.
pub open spec fn mode_of(
    preset: Option<Seq<NamedModel>>,
    single: Option<BBox>,
    peaks: Option<Seq<NamedModel>>,
) -> Option<ModeModel> {
    match (preset, single, peaks) {
        (Some(p), None, None) => Some(ModeModel::Preset(p)),
        (None, Some(b), None) => Some(ModeModel::Single(b)),
        (None, None, Some(p)) => Some(ModeModel::Peaks(p)),
        (None, None, None) => Some(ModeModel::Single(default_box())),
        _ => None,
    }
}

/// 25: side of a cell, in meters.
pub const DEFAULT_CELL: u32 = 0x41c8_0000;

/// What the program works with.
#[derive(Debug)]
pub struct GatherArgs {
    pub mode: Mode,
    pub cell: Single,
    pub out: String,
    pub cache_dir: String,
}

/// What flags ask for, but for the peaks.
pub struct Wishes {
    pub preset: Option<Seq<NamedModel>>,
    pub bbox: Option<BBox>,
    pub cell: Single,
    pub out: Seq<char>,
    pub cache_dir: Seq<char>,
}

/// What flags ask for, but for the peaks: of each kind of flag, the last one
/// counts. Without any, cells have 25 m, and files go to "region.bin" and
/// "cache".
pub open spec fn wishes_of(flags: Seq<FlagModel>) -> Wishes
    decreases flags.len(),
{
    if flags.len() == 0 {
        Wishes {
            preset: None,
            bbox: None,
            cell: Single { bits: DEFAULT_CELL },
            out: "region.bin"@,
            cache_dir: "cache"@,
        }
    } else {
        let before = wishes_of(flags.drop_last());
        match flags.last() {
            FlagModel::Peaks(_, _) => before,
            FlagModel::Bbox(b) => Wishes { bbox: Some(b), ..before },
            FlagModel::Preset(list) => Wishes { preset: Some(list), ..before },
            FlagModel::Cell(c) => Wishes { cell: c, ..before },
            FlagModel::Out(path) => Wishes { out: path, ..before },
            FlagModel::CacheDir(path) => Wishes { cache_dir: path, ..before },
        }
    }
}

/// What the program works with, given what the command line comes to and what
/// its peak files hold, in order: the last file counts. `None` if the user wants
/// to be helped.
pub fn gather_args(flags: Vec<Flag>, ending: Ending, peaks: Vec<Vec<NamedBox>>) -> (r: Result<
    Option<GatherArgs>,
    String,
>)
    ensures
        ({
            let w = wishes_of(flag_models(flags@));
            let last_peaks = if peaks@.len() == 0 {
                None
            } else {
                Some(named_models(peaks@.last()@))
            };
            match (ending.model(), mode_of(w.preset, w.bbox, last_peaks)) {
                (EndingModel::Done, Some(mode)) => r matches Ok(Some(a)) && a.mode.model() == mode
                    && a.cell == w.cell && a.out@ == w.out && a.cache_dir@ == w.cache_dir,
                (EndingModel::Done, None) => r matches Err(e) && e@
                    == "--preset, --bbox-lv95 and --peaks are mutually exclusive"@,
                (EndingModel::Help, _) => r matches Ok(None),
                (EndingModel::Fail(text), _) => r matches Err(e) && e@ == text,
            }
        }),
{
    match ending {
        Ending::Done => {},
        Ending::Help => {
            return Ok(None);
        },
        Ending::Fail(e) => {
            return Err(e);
        },
    }
    let ghost all = wishes_of(flag_models(flags@));
    let mut rest = flags;
    let mut preset: Option<Vec<NamedBox>> = None;
    let mut bbox: Option<BBox> = None;
    let mut cell: Option<Single> = None;
    let mut out: Option<String> = None;
    let mut cache_dir: Option<String> = None;
    loop
        invariant
            ({
                let w = wishes_of(flag_models(rest@));
                &&& all.preset == match preset {
                    Some(list) => Some(named_models(list@)),
                    None => w.preset,
                }
                &&& all.bbox == match bbox {
                    Some(b) => Some(b),
                    None => w.bbox,
                }
                &&& all.cell == match cell {
                    Some(c) => c,
                    None => w.cell,
                }
                &&& all.out == match out {
                    Some(path) => path@,
                    None => w.out,
                }
                &&& all.cache_dir == match cache_dir {
                    Some(path) => path@,
                    None => w.cache_dir,
                }
            }),
        ensures
            rest@.len() == 0,
        decreases rest@.len(),
    {
        let ghost before = rest@;
        match rest.pop() {
            Some(flag) => {
                proof {
                    assert(flag_models(before).drop_last() =~= flag_models(rest@));
                    assert(flag_models(before).last() == flag.model());
                }
                match flag {
                    Flag::Peaks(_, _) => {},
                    Flag::Bbox(b) => {
                        if bbox.is_none() {
                            bbox = Some(b);
                        }
                    },
                    Flag::Preset(list) => {
                        if preset.is_none() {
                            preset = Some(list);
                        }
                    },
                    Flag::Cell(c) => {
                        if cell.is_none() {
                            cell = Some(c);
                        }
                    },
                    Flag::Out(path) => {
                        if out.is_none() {
                            out = Some(path);
                        }
                    },
                    Flag::CacheDir(path) => {
                        if cache_dir.is_none() {
                            cache_dir = Some(path);
                        }
                    },
                }
            },
            None => {
                break;
            },
        }
    }
    let mut files = peaks;
    let last_peaks = files.pop();
    let mode = match choose_mode(preset, bbox, last_peaks) {
        Ok(mode) => mode,
        Err(e) => {
            return Err(e);
        },
    };
    let cell = match cell {
        Some(c) => c,
        None => Single { bits: DEFAULT_CELL },
    };
    let out = match out {
        Some(path) => path,
        None => "region.bin".to_owned(),
    };
    let cache_dir = match cache_dir {
        Some(path) => path,
        None => "cache".to_owned(),
    };
    Ok(Some(GatherArgs { mode, cell, out, cache_dir }))
}

} // verus!
