//! Read a swisstopo SwissALTI3D 2m DEM tile from the `.xyz.zip` asset.
//!
//! The XYZ format is one space-separated triple per line:
//!   E_lv95 N_lv95 height_m
//! It's a CSV-like ASCII format much more forgiving than COG TIFF, at the
//! cost of being ~5x larger.
//!
//! Each tile is 500x500 points at 2m, with sample coordinates on cell
//! corners stepping by 2 m. We bin into a deterministic row-major grid
//! ordered north-first.

use crate::error::{DataError, ErrorModel};
use crate::exact_wide::{
    is_integer_d, is_nearest_d, rounds_d, stands_for_d, steps_d, value_d, wide_one_and_half,
    wide_quarters_are_exact, wide_rounding_stays_between, wide_shares_stay_between, wide_thousand,
    wide_two, wide_whole_arithmetic_is_exact, wide_whole_numbers_are_exact,
};
use crate::math::{
    double, minus_d, over_d, parse_double_of, parse_single_of, plus_d, read_double, read_single,
    round_d, steady, times_d, to_i64, to_int_d, Math,
};
use crate::scalar::{Double, Single};
use crate::text::{ends_with, has_ending, pieces, split, string_of, texts};
use std::io::Read;
use vstd::prelude::*;

verus! {

/// 1 in double precision.
pub const ONE_D: u64 = 0x3ff0_0000_0000_0000;

/// 1000 in double precision: meters along a side of a tile.
pub const TILE_SIDE_M: u64 = 0x408f_4000_0000_0000;

/// 2 in double precision: meters between the points of a tile.
pub const TILE_PIXEL_SIZE_M: u64 = 0x4000_0000_0000_0000;

/// Points along a side of a tile.
pub const TILE_GRID_N: usize = 500;

/// Decoded DEM tile in row-major order, pixel (0, 0) at the NW corner.
#[derive(Debug)]
pub struct DecodedTile {
    pub width: u32,
    pub height: u32,
    pub data: Vec<Single>,
}

/// What a `DecodedTile` holds.
pub struct DecodedModel {
    pub width: u32,
    pub height: u32,
    pub data: Seq<Single>,
}

impl DecodedTile {
    pub open spec fn model(self) -> DecodedModel {
        DecodedModel { width: self.width, height: self.height, data: self.data@ }
    }
}

/// Whether a character is white space in Unicode.
pub open spec fn spec_is_white(c: char) -> bool {
    ('\u{9}' <= c <= '\u{d}') || c == '\u{20}' || c == '\u{85}' || c == '\u{a0}' || c == '\u{1680}'
        || ('\u{2000}' <= c <= '\u{200a}') || c == '\u{2028}' || c == '\u{2029}' || c == '\u{202f}'
        || c == '\u{205f}' || c == '\u{3000}'
}

/// Whether a character is white space in Unicode.
#[verifier::when_used_as_spec(spec_is_white)]
pub fn is_white(c: char) -> (r: bool)
    ensures
        r == is_white(c),
{
    ('\u{9}' <= c && c <= '\u{d}') || c == '\u{20}' || c == '\u{85}' || c == '\u{a0}' || c
        == '\u{1680}' || ('\u{2000}' <= c && c <= '\u{200a}') || c == '\u{2028}' || c == '\u{2029}'
        || c == '\u{202f}' || c == '\u{205f}' || c == '\u{3000}'
}

/// Whether a character separates words: white space in ASCII.
pub open spec fn spec_is_blank(c: char) -> bool {
    c == '\u{20}' || c == '\u{9}' || c == '\u{a}' || c == '\u{c}' || c == '\u{d}'
}

/// Whether a character separates words: white space in ASCII.
#[verifier::when_used_as_spec(spec_is_blank)]
pub fn is_blank(c: char) -> (r: bool)
    ensures
        r == is_blank(c),
{
    c == '\u{20}' || c == '\u{9}' || c == '\u{a}' || c == '\u{c}' || c == '\u{d}'
}

/// A line without white space at its start.
pub open spec fn trim_start(t: Seq<char>) -> Seq<char>
    decreases t.len(),
{
    if t.len() > 0 && is_white(t[0]) {
        trim_start(t.drop_first())
    } else {
        t
    }
}

/// A line without white space at its end.
pub open spec fn trim_end(t: Seq<char>) -> Seq<char>
    decreases t.len(),
{
    if t.len() > 0 && is_white(t.last()) {
        trim_end(t.drop_last())
    } else {
        t
    }
}

/// The words of a text that are complete, and the word that is not.
pub open spec fn scan(t: Seq<char>) -> (Seq<Seq<char>>, Seq<char>)
    decreases t.len(),
{
    if t.len() == 0 {
        (Seq::empty(), Seq::empty())
    } else {
        let (done, word) = scan(t.drop_last());
        if !is_blank(t.last()) {
            (done, word.push(t.last()))
        } else if word.len() > 0 {
            (done.push(word), Seq::empty())
        } else {
            (done, word)
        }
    }
}

/// The words of a text: what stands between blanks.
pub open spec fn words(t: Seq<char>) -> Seq<Seq<char>> {
    let (done, word) = scan(t);
    if word.len() > 0 {
        done.push(word)
    } else {
        done
    }
}

/// The sample that a line gives: east, north and height, from its first three
/// words.
pub open spec fn sample_of<M: Math>(m: &M, line: Seq<char>) -> Option<(Double, Double, Single)> {
    let w = words(trim_end(trim_start(line)));
    if w.len() < 3 {
        None
    } else {
        match (
            parse_double_of(m, w[0]),
            parse_double_of(m, w[1]),
            parse_single_of(m, w[2]),
        ) {
            (Some(e), Some(n), Some(z)) => Some((e, n, z)),
            _ => None,
        }
    }
}

/// Position in the grid of a tile that a point falls on, if it is in the tile.
pub open spec fn spot_of<M: Math>(m: &M, e_km: u32, n_km: u32, e: Double, n: Double) -> Option<int> {
    let side = Double { bits: TILE_SIDE_M };
    let step = Double { bits: TILE_PIXEL_SIZE_M };
    let e_min = times_d(m, double(m, e_km as i128), side);
    let n_max = times_d(m, plus_d(m, double(m, n_km as i128), Double { bits: ONE_D }), side);
    let col = to_i64(to_int_d(m, round_d(m, over_d(m, minus_d(m, e, e_min), step))));
    let row = to_i64(to_int_d(m, round_d(m, over_d(m, minus_d(m, n_max, n), step))));
    if 0 <= col < TILE_GRID_N && 0 <= row < TILE_GRID_N {
        Some(row * TILE_GRID_N + col)
    } else {
        None
    }
}

/// Position and height that a line gives.
pub open spec fn dot_of<M: Math>(m: &M, e_km: u32, n_km: u32, line: Seq<char>) -> Option<
    (int, Single),
> {
    match sample_of(m, line) {
        Some((e, n, z)) => match spot_of(m, e_km, n_km, e, n) {
            Some(at) => Some((at, z)),
            None => None,
        },
        None => None,
    }
}

/// The grid that lines give: later lines overwrite earlier ones.
pub open spec fn grid_of<M: Math>(m: &M, e_km: u32, n_km: u32, lines: Seq<Seq<char>>) -> Seq<Single>
    decreases lines.len(),
{
    if lines.len() == 0 {
        Seq::new((TILE_GRID_N * TILE_GRID_N) as nat, |i: int| Single { bits: 0x7fc0_0000 })
    } else {
        let before = grid_of(m, e_km, n_km, lines.drop_last());
        match dot_of(m, e_km, n_km, lines.last()) {
            Some((at, z)) => before.update(at, z),
            None => before,
        }
    }
}

proof fn lemma_grid_len<M: Math>(m: &M, e_km: u32, n_km: u32, lines: Seq<Seq<char>>)
    ensures
        grid_of(m, e_km, n_km, lines).len() == TILE_GRID_N * TILE_GRID_N,
    decreases lines.len(),
{
    if lines.len() > 0 {
        lemma_grid_len(m, e_km, n_km, lines.drop_last());
    }
}

/// Whether one of the lines gives a point of the grid.
pub open spec fn has_dots<M: Math>(m: &M, e_km: u32, n_km: u32, lines: Seq<Seq<char>>) -> bool {
    exists|i: int| 0 <= i < lines.len() && dot_of(m, e_km, n_km, #[trigger] lines[i]) is Some
}

/// The tile that a text gives.
pub open spec fn text_tile<M: Math>(m: &M, e_km: u32, n_km: u32, text: Seq<char>) -> Result<
    DecodedModel,
    ErrorModel,
> {
    let lines = pieces(text, '\n');
    if has_dots(m, e_km, n_km, lines) {
        Ok(
            DecodedModel {
                width: TILE_GRID_N as u32,
                height: TILE_GRID_N as u32,
                data: grid_of(m, e_km, n_km, lines),
            },
        )
    } else {
        Err(ErrorModel::BadFormat("xyz had no usable rows"@))
    }
}

/// Bounds of a line without white space around it.
fn trim(line: &Vec<char>) -> (r: (usize, usize))
    ensures
        r.0 <= r.1 <= line@.len(),
        line@.subrange(r.0 as int, r.1 as int) == trim_end(trim_start(line@)),
{
    let n: usize = line.len();
    let mut from: usize = 0;
    assert(line@.subrange(0, n as int) =~= line@);
    while from < n && is_white(line[from])
        invariant
            n == line@.len(),
            from <= n,
            trim_start(line@) == trim_start(line@.subrange(from as int, n as int)),
        decreases n - from,
    {
        assert(line@.subrange(from as int, n as int).drop_first() =~= line@.subrange(
            from + 1,
            n as int,
        ));
        from = from + 1;
    }
    let ghost start = line@.subrange(from as int, n as int);
    assert(trim_start(line@) == start);
    let mut to: usize = n;
    while to > from && is_white(line[to - 1])
        invariant
            n == line@.len(),
            from <= to <= n,
            trim_end(start) == trim_end(line@.subrange(from as int, to as int)),
        decreases to - from,
    {
        let ghost rest = line@.subrange(from as int, to as int);
        assert(rest.drop_last() =~= line@.subrange(from as int, to - 1));
        assert(rest.last() == line@[to - 1]);
        to = to - 1;
    }
    let ghost rest = line@.subrange(from as int, to as int);
    assert(to > from ==> rest.last() == line@[to - 1]);
    (from, to)
}

/// What a list of strings holds.
pub open spec fn string_views(list: Seq<String>) -> Seq<Seq<char>> {
    list.map_values(|s: String| s@)
}

/// The words of part of a line.
fn words_of(line: &Vec<char>, from: usize, to: usize) -> (r: Vec<String>)
    requires
        from <= to <= line@.len(),
    ensures
        string_views(r@) == words(line@.subrange(from as int, to as int)),
{
    let ghost part = line@.subrange(from as int, to as int);
    let mut out: Vec<String> = Vec::new();
    let mut start: usize = from;
    let mut i: usize = from;
    assert(part.take(0) =~= Seq::empty());
    assert(string_views(out@) =~= Seq::empty());
    assert(line@.subrange(start as int, i as int) =~= Seq::empty());
    while i < to
        invariant
            from <= start <= i <= to <= line@.len(),
            part == line@.subrange(from as int, to as int),
            scan(part.take(i - from)) == (
                string_views(out@),
                line@.subrange(start as int, i as int),
            ),
        decreases to - i,
    {
        let c: char = line[i];
        let ghost k = i - from;
        let ghost seen = part.take(k + 1);
        let ghost word = line@.subrange(start as int, i as int);
        assert(seen.drop_last() =~= part.take(k));
        assert(seen.last() == c);
        let ghost before = string_views(out@);
        if is_blank(c) {
            if start < i {
                out.push(string_of(line, start, i));
                assert(string_views(out@) =~= before.push(word));
            }
            start = i + 1;
            assert(line@.subrange(start as int, i + 1) =~= Seq::empty());
            assert(word.len() == 0 ==> word =~= Seq::empty());
        } else {
            assert(line@.subrange(start as int, i + 1) =~= word.push(c));
        }
        i = i + 1;
    }
    assert(part.take(part.len() as int) =~= part);
    let ghost word = line@.subrange(start as int, i as int);
    let ghost before = string_views(out@);
    if start < to {
        out.push(string_of(line, start, to));
        assert(string_views(out@) =~= before.push(word));
    }
    out
}

/// The sample that a line gives.
fn parse_sample<M: Math>(m: &M, line: &Vec<char>) -> (r: Option<(Double, Double, Single)>)
    requires
        steady(m),
    ensures
        r == sample_of(m, line@),
{
    let (from, to) = trim(line);
    let parts = words_of(line, from, to);
    let ghost all = string_views(parts@);
    if parts.len() < 3 {
        return None;
    }
    assert(all[0] == parts@[0]@ && all[1] == parts@[1]@ && all[2] == parts@[2]@);
    let e = match read_double(m, parts[0].as_str()) {
        Some(v) => v,
        None => return None,
    };
    let n = match read_double(m, parts[1].as_str()) {
        Some(v) => v,
        None => return None,
    };
    let z = match read_single(m, parts[2].as_str()) {
        Some(v) => v,
        None => return None,
    };
    Some((e, n, z))
}

/// Position in the grid of a tile that a point falls on, if it is in the tile.
fn locate<M: Math>(m: &M, e_km: u32, n_km: u32, e: Double, n: Double) -> (r: Option<usize>)
    requires
        steady(m),
    ensures
        spot_of(m, e_km, n_km, e, n) == match r {
            Some(at) => Some(at as int),
            None => None,
        },
        r matches Some(at) ==> at < TILE_GRID_N * TILE_GRID_N,
{
    let side = Double { bits: TILE_SIDE_M };
    let step = Double { bits: TILE_PIXEL_SIZE_M };
    let e_min = times_d(m, double(m, e_km as i128), side);
    let n_max = times_d(m, plus_d(m, double(m, n_km as i128), Double { bits: ONE_D }), side);
    let col: i64 = to_i64(to_int_d(m, round_d(m, over_d(m, minus_d(m, e, e_min), step))));
    let row: i64 = to_i64(to_int_d(m, round_d(m, over_d(m, minus_d(m, n_max, n), step))));
    if col < 0 || col >= 500 || row < 0 || row >= 500 {
        return None;
    }
    Some(row as usize * 500 + col as usize)
}

/// The tile that the text of an XYZ file gives.
pub fn tile_from_text<M: Math>(m: &M, text: &str, tile_e_km: u32, tile_n_km: u32) -> (r: Result<
    DecodedTile,
    DataError,
>)
    requires
        steady(m),
    ensures
        text_tile(m, tile_e_km, tile_n_km, text@) == match r {
            Ok(t) => Ok(t.model()),
            Err(e) => Err(e.model()),
        },
        r matches Ok(t) ==> t.data@.len() == t.width * t.height,
{
    let lines = split(text, '\n');
    let ghost all = texts(lines@);
    let mut data: Vec<Single> = vec![Single::missing(); 250_000];
    let mut found: bool = false;
    let mut i: usize = 0;
    assert(all.take(0) =~= Seq::empty());
    assert(data@ =~= grid_of(m, tile_e_km, tile_n_km, all.take(0)));
    while i < lines.len()
        invariant
            steady(m),
            all == texts(lines@),
            i <= lines@.len(),
            data@.len() == 250_000,
            data@ == grid_of(m, tile_e_km, tile_n_km, all.take(i as int)),
            found == has_dots(m, tile_e_km, tile_n_km, all.take(i as int)),
        decreases lines@.len() - i,
    {
        let ghost seen = all.take(i + 1);
        assert(seen.drop_last() =~= all.take(i as int));
        assert(seen.last() == lines@[i as int]@);
        let ghost dot = dot_of(m, tile_e_km, tile_n_km, lines@[i as int]@);
        proof {
            if has_dots(m, tile_e_km, tile_n_km, all.take(i as int)) {
                let j = choose|j: int|
                    0 <= j < all.take(i as int).len() && dot_of(
                        m,
                        tile_e_km,
                        tile_n_km,
                        #[trigger] all.take(i as int)[j],
                    ) is Some;
                assert(seen[j] == all.take(i as int)[j]);
            }
            if dot is Some {
                assert(dot_of(m, tile_e_km, tile_n_km, seen[i as int]) is Some);
            }
            if has_dots(m, tile_e_km, tile_n_km, seen) && dot is None {
                let j = choose|j: int|
                    0 <= j < seen.len() && dot_of(m, tile_e_km, tile_n_km, #[trigger] seen[j]) is Some;
                assert(all.take(i as int)[j] == seen[j]);
            }
        }
        if let Some((e, n, z)) = parse_sample(m, &lines[i]) {
            if let Some(at) = locate(m, tile_e_km, tile_n_km, e, n) {
                data[at] = z;
                found = true;
            }
        }
        i = i + 1;
    }
    proof {
        assert(all.take(all.len() as int) =~= all);
        lemma_grid_len(m, tile_e_km, tile_n_km, all);
    }
    if !found {
        return Err(DataError::BadFormat("xyz had no usable rows".to_owned()));
    }
    Ok(DecodedTile { width: 500, height: 500, data })
}

/// What is wrong with bytes that are not UTF-8, in words.
pub uninterp spec fn utf8_complaint(bytes: Seq<u8>) -> Seq<char>;

/// `std::str::from_utf8`: the text that bytes encode, where they are valid
/// UTF-8, and the error in words otherwise.
#[verifier::external_body]
fn utf8_text(bytes: &[u8]) -> (r: Result<&str, String>)
    ensures
        match r {
            Ok(s) => vstd::utf8::valid_utf8(bytes@) && s@ == vstd::utf8::decode_utf8(bytes@),
            Err(e) => !vstd::utf8::valid_utf8(bytes@) && e@ == utf8_complaint(bytes@),
        },
{
    match std::str::from_utf8(bytes) {
        Ok(s) => Ok(s),
        Err(e) => Err(e.to_string()),
    }
}

/// The tile that the content of an XYZ file gives.
pub open spec fn content_tile<M: Math>(m: &M, e_km: u32, n_km: u32, content: Seq<u8>) -> Result<
    DecodedModel,
    ErrorModel,
> {
    if vstd::utf8::valid_utf8(content) {
        text_tile(m, e_km, n_km, vstd::utf8::decode_utf8(content))
    } else {
        Err(ErrorModel::BadFormat("xyz utf8: "@ + utf8_complaint(content)))
    }
}

/// The tile that the content of an XYZ file gives.
pub fn tile_from_content<M: Math>(
    m: &M,
    content: &[u8],
    tile_e_km: u32,
    tile_n_km: u32,
) -> (r: Result<DecodedTile, DataError>)
    requires
        steady(m),
    ensures
        content_tile(m, tile_e_km, tile_n_km, content@) == match r {
            Ok(t) => Ok(t.model()),
            Err(e) => Err(e.model()),
        },
        r matches Ok(t) ==> t.data@.len() == t.width * t.height,
{
    match utf8_text(content) {
        Ok(text) => tile_from_text(m, text, tile_e_km, tile_n_km),
        Err(e) => Err(DataError::BadFormat("xyz utf8: ".to_owned().concat(e.as_str()))),
    }
}

/// Number of entries of a ZIP archive, or what is wrong with it.
pub uninterp spec fn entry_count_of(bytes: Seq<u8>) -> Result<usize, Seq<char>>;

/// `zip::ZipArchive::new` and its `len`: the number of entries of an archive,
/// or the error in words. Both depend on the bytes alone.
#[verifier::external_body]
fn entry_count(bytes: &[u8]) -> (r: Result<usize, String>)
    ensures
        entry_count_of(bytes@) == match r {
            Ok(n) => Ok(n),
            Err(e) => Err(e@),
        },
{
    match zip::ZipArchive::new(std::io::Cursor::new(bytes)) {
        Ok(archive) => Ok(archive.len()),
        Err(e) => Err(e.to_string()),
    }
}

/// Name of an entry of a ZIP archive, or what is wrong with it.
pub uninterp spec fn entry_name_of(bytes: Seq<u8>, i: usize) -> Result<Seq<char>, Seq<char>>;

/// `zip::ZipArchive::by_index` and the `name` of the entry that it opens, or
/// the error in words. Both depend on the bytes and the index alone.
#[verifier::external_body]
fn entry_name(bytes: &[u8], i: usize) -> (r: Result<String, String>)
    ensures
        entry_name_of(bytes@, i) == match r {
            Ok(s) => Ok(s@),
            Err(e) => Err(e@),
        },
{
    let mut archive = match zip::ZipArchive::new(std::io::Cursor::new(bytes)) {
        Ok(archive) => archive,
        Err(e) => return Err(e.to_string()),
    };
    let name = match archive.by_index(i) {
        Ok(entry) => Ok(entry.name().to_string()),
        Err(e) => Err(e.to_string()),
    };
    name
}

/// Content of an entry of a ZIP archive, or what is wrong with it.
pub uninterp spec fn entry_content_of(bytes: Seq<u8>, i: usize) -> Result<Seq<u8>, Seq<char>>;

/// `read_to_end` of the entry that `zip::ZipArchive::by_index` opens: the bytes
/// of the entry, or the error in words. Both depend on the bytes of the archive
/// and the index alone.
#[verifier::external_body]
fn entry_content(bytes: &[u8], i: usize) -> (r: Result<Vec<u8>, String>)
    ensures
        entry_content_of(bytes@, i) == match r {
            Ok(v) => Ok(v@),
            Err(e) => Err(e@),
        },
{
    let mut archive = match zip::ZipArchive::new(std::io::Cursor::new(bytes)) {
        Ok(archive) => archive,
        Err(e) => return Err(e.to_string()),
    };
    let mut entry = match archive.by_index(i) {
        Ok(entry) => entry,
        Err(e) => return Err(e.to_string()),
    };
    let mut content = Vec::new();
    let read = entry.read_to_end(&mut content);
    read.map(|_| content).map_err(|e| e.to_string())
}

/// Whether an entry is an XYZ file, by its name.
pub fn is_xyz(name: &str) -> (r: bool)
    ensures
        r == has_ending(name@, ".xyz"@),
{
    ends_with(name, ".xyz")
}

/// The first XYZ file among the entries from number `i` on, or what is wrong
/// with an entry before it.
pub open spec fn xyz_entry(bytes: Seq<u8>, i: int, n: int) -> Result<Option<usize>, Seq<char>>
    decreases n - i,
{
    if i >= n {
        Ok(None)
    } else {
        match entry_name_of(bytes, i as usize) {
            Ok(name) => if has_ending(name, ".xyz"@) {
                Ok(Some(i as usize))
            } else {
                xyz_entry(bytes, i + 1, n)
            },
            Err(e) => Err(e),
        }
    }
}

/// The tile that a `.xyz.zip` asset gives.
pub open spec fn asset_tile<M: Math>(m: &M, e_km: u32, n_km: u32, bytes: Seq<u8>) -> Result<
    DecodedModel,
    ErrorModel,
> {
    match entry_count_of(bytes) {
        Ok(n) => match xyz_entry(bytes, 0, n as int) {
            Ok(Some(i)) => match entry_content_of(bytes, i) {
                Ok(content) => content_tile(m, e_km, n_km, content),
                Err(e) => Err(ErrorModel::Io(e)),
            },
            Ok(None) => Err(ErrorModel::BadFormat("no .xyz file inside .xyz.zip"@)),
            Err(e) => Err(ErrorModel::BadFormat("zip entry: "@ + e)),
        },
        Err(e) => Err(ErrorModel::BadFormat("zip: "@ + e)),
    }
}

/// `bytes` is the contents of a `.xyz.zip` asset. Returns the first XYZ entry.
pub fn decode<M: Math>(m: &M, bytes: &[u8], tile_e_km: u32, tile_n_km: u32) -> (r: Result<
    DecodedTile,
    DataError,
>)
    requires
        steady(m),
    ensures
        asset_tile(m, tile_e_km, tile_n_km, bytes@) == match r {
            Ok(t) => Ok(t.model()),
            Err(e) => Err(e.model()),
        },
        r matches Ok(t) ==> t.data@.len() == t.width * t.height,
{
    let n: usize = match entry_count(bytes) {
        Ok(n) => n,
        Err(e) => return Err(DataError::BadFormat("zip: ".to_owned().concat(e.as_str()))),
    };
    let mut i: usize = 0;
    while i < n
        invariant
            steady(m),
            i <= n,
            entry_count_of(bytes@) == Ok::<usize, Seq<char>>(n),
            xyz_entry(bytes@, 0, n as int) == xyz_entry(bytes@, i as int, n as int),
        decreases n - i,
    {
        match entry_name(bytes, i) {
            Ok(name) => {
                if is_xyz(name.as_str()) {
                    return match entry_content(bytes, i) {
                        Ok(content) => tile_from_content(
                            m,
                            content.as_slice(),
                            tile_e_km,
                            tile_n_km,
                        ),
                        Err(e) => Err(DataError::Io(e)),
                    };
                }
            },
            Err(e) => {
                return Err(DataError::BadFormat("zip entry: ".to_owned().concat(e.as_str())));
            },
        }
        i = i + 1;
    }
    Err(DataError::BadFormat("no .xyz file inside .xyz.zip".to_owned()))
}

/// The points of a tile fill a grid of 500 by 500, two meters apart, from its
/// north-western corner to the east and to the south: a point within half a meter
/// of a point of the grid falls on it, and one that is further off than the grid
/// reaches falls on none.
pub proof fn points_fall_on_the_grid<M: Math>(
    m: &M,
    wide: spec_fn(real) -> int,
    e_km: u32,
    n_km: u32,
    e: Double,
    n: Double,
    row: int,
    col: int,
)
    requires
        rounds_d(m, wide),
        steps_d(m),
        e_km <= 0x10_0000 && n_km <= 0x10_0000,
        e.finite() && n.finite(),
        -0x10_0000 <= row <= 0x10_0000,
        -0x10_0000 <= col <= 0x10_0000,
        ((4 * col - 1) * 2) as real / 4real <= value_d(e) - (1_000 * e_km) as real <= ((4 * col + 1)
            * 2) as real / 4real,
        ((4 * row - 1) * 2) as real / 4real <= (1_000 * n_km + 1_000) as real - value_d(n) <= ((4
            * row + 1) * 2) as real / 4real,
    ensures
        spot_of(m, e_km, n_km, e, n) == if 0 <= row < 500 && 0 <= col < 500 {
            Some(500 * row + col)
        } else {
            None
        },
{
    wide_thousand();
    wide_two();
    wide_one_and_half();
    let side = Double { bits: 0x408f_4000_0000_0000 };
    let (x, y) = (
        wide_whole_numbers_are_exact(m, wide, e_km as int),
        wide_whole_numbers_are_exact(m, wide, n_km as int),
    );
    wide_whole_arithmetic_is_exact(m, wide, x, e_km as int, side, 1_000);
    wide_whole_arithmetic_is_exact(
        m,
        wide,
        y,
        n_km as int,
        Double { bits: 0x3ff0_0000_0000_0000 },
        1,
    );
    let next = plus_d(m, y, Double { bits: 0x3ff0_0000_0000_0000 });
    wide_whole_arithmetic_is_exact(m, wide, next, n_km + 1, side, 1_000);
    let (e_min, n_max) = (times_d(m, x, side), times_d(m, next, side));
    lemma_spot(m, wide, minus_d(m, e, e_min), value_d(e) - value_d(e_min), col);
    lemma_spot(m, wide, minus_d(m, n_max, n), value_d(n_max) - value_d(n), row);
}

proof fn lemma_spot<M: Math>(m: &M, wide: spec_fn(real) -> int, far: Double, d: real, k: int)
    requires
        rounds_d(m, wide),
        steps_d(m),
        stands_for_d(far, wide(d)),
        -0x10_0000 <= k <= 0x10_0000,
        ((4 * k - 1) * 2) as real / 4real <= d <= ((4 * k + 1) * 2) as real / 4real,
    ensures
        to_i64(
            to_int_d(m, round_d(m, over_d(m, far, Double { bits: 0x4000_0000_0000_0000 }))),
        ) == k,
{
    wide_two();
    let step = Double { bits: 0x4000_0000_0000_0000 };
    let lo = wide_quarters_are_exact(m, wide, (4 * k - 1) * 2);
    let hi = wide_quarters_are_exact(m, wide, (4 * k + 1) * 2);
    wide_rounding_stays_between(m, wide, far, d, lo, hi);
    wide_shares_stay_between(m, wide, far, step, 2, 4 * k - 1, 4 * k + 1);
    let q = over_d(m, far, step);
    assert(is_nearest_d(q, k));
    assert(is_integer_d(round_d(m, q), k));
}

/// A point of the grid has the height of the last line that gives it one, and is
/// missing where none does.
pub proof fn later_lines_overwrite_earlier_ones<M: Math>(
    m: &M,
    e_km: u32,
    n_km: u32,
    lines: Seq<Seq<char>>,
    at: int,
    i: int,
    z: Single,
)
    requires
        0 <= at < 250_000,
        0 <= i < lines.len(),
        dot_of(m, e_km, n_km, lines[i]) == Some((at, z)),
        forall|j: int|
            i < j < lines.len() ==> (dot_of(m, e_km, n_km, #[trigger] lines[j]) matches Some(dot)
                ==> dot.0 != at),
    ensures
        grid_of(m, e_km, n_km, lines)[at] == z,
    decreases lines.len(),
{
    lemma_grid_len(m, e_km, n_km, lines);
    lemma_grid_len(m, e_km, n_km, lines.drop_last());
    let last = lines.len() - 1;
    if i < last {
        let front = lines.drop_last();
        assert(front[i] == lines[i]);
        assert forall|j: int| i < j < front.len() implies (dot_of(
            m,
            e_km,
            n_km,
            #[trigger] front[j],
        ) matches Some(dot) ==> dot.0 != at) by {
            assert(front[j] == lines[j]);
        }
        later_lines_overwrite_earlier_ones(m, e_km, n_km, front, at, i, z);
        assert(lines[last] == lines.last());
    }
}

} // verus!
