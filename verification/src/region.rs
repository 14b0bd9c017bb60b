//! Stitch swisstopo SwissALTI3D 2m tiles into one Region, decimate to a target
//! cell size, and persist to a compact binary file.
//!
//! The region uses `Dem` semantics: row 0 is northernmost, columns increase
//! east. Origin is the LV95 of cell (0, 0)'s center.

use crate::dem::Dem;
use crate::error::{DataError, ErrorModel};
use crate::geom::LV95;
use crate::scalar::{Double, Single};
use crate::text::{decimal, write_u32};
use vstd::bytes::*;
use vstd::prelude::*;
use vstd::slice::slice_subrange;

verus! {

#[derive(Debug, Clone, Copy, PartialEq, Eq, Structural)]
pub struct BBox {
    pub e_min: Double,
    pub n_min: Double,
    pub e_max: Double,
    pub n_max: Double,
}

/// User-facing description of a fetched region.
#[derive(Debug)]
pub struct Region {
    /// LV95 of cell (0,0) center
    pub origin_e: Double,
    pub origin_n: Double,
    pub cell_size_m: Single,
    pub rows: u32,
    pub cols: u32,
    /// row-major; NaN = nodata
    pub data: Vec<Single>,
    pub bbox_lv95: BBox,
}

/// What a `Region` holds.
pub struct RegionModel {
    pub origin_e: Double,
    pub origin_n: Double,
    pub cell_size_m: Single,
    pub rows: u32,
    pub cols: u32,
    pub data: Seq<Single>,
    pub bbox_lv95: BBox,
}

/// The least of the finite numbers, infinity where there is none.
pub open spec fn lowest(data: Seq<Single>) -> Single
    decreases data.len(),
{
    if data.len() == 0 {
        Single { bits: 0x7f80_0000 }
    } else {
        let before = lowest(data.drop_last());
        if data.last().finite() && data.last().below(before) {
            data.last()
        } else {
            before
        }
    }
}

/// The greatest of the finite numbers, negative infinity where there is none.
pub open spec fn highest(data: Seq<Single>) -> Single
    decreases data.len(),
{
    if data.len() == 0 {
        Single { bits: 0xff80_0000 }
    } else {
        let before = highest(data.drop_last());
        if data.last().finite() && before.below(data.last()) {
            data.last()
        } else {
            before
        }
    }
}

/// Every finite number lies between the least and the greatest, and these are
/// among the numbers.
pub proof fn extremes_bound_the_numbers(data: Seq<Single>, i: int)
    requires
        0 <= i < data.len(),
        data[i].finite(),
    ensures
        lowest(data).at_most(data[i]),
        data[i].at_most(highest(data)),
        data.contains(lowest(data)),
        data.contains(highest(data)),
    decreases data.len(),
{
    let front = data.drop_last();
    lemma_extremes(front);
    let n = front.len() as int;
    assert(data[n] == data.last());
    if i < n {
        assert(front[i] == data[i]);
        extremes_bound_the_numbers(front, i);
        let a = choose|a: int| 0 <= a < front.len() && front[a] == lowest(front);
        let b = choose|b: int| 0 <= b < front.len() && front[b] == highest(front);
        assert(data[a] == lowest(front) && data[b] == highest(front));
    } else {
        if !data.last().below(lowest(front)) {
            let a = choose|a: int| 0 <= a < front.len() && front[a] == lowest(front);
            assert(data[a] == lowest(front));
        }
        if !highest(front).below(data.last()) {
            let b = choose|b: int| 0 <= b < front.len() && front[b] == highest(front);
            assert(data[b] == highest(front));
        }
    }
}

proof fn lemma_extremes(data: Seq<Single>)
    ensures
        lowest(data).bits == 0x7f80_0000 || (lowest(data).finite() && data.contains(lowest(data))),
        highest(data).bits == 0xff80_0000 || (highest(data).finite() && data.contains(
            highest(data),
        )),
    decreases data.len(),
{
    if data.len() > 0 {
        let front = data.drop_last();
        lemma_extremes(front);
        let n = front.len() as int;
        assert(data[n] == data.last());
        if front.contains(lowest(front)) {
            let a = choose|a: int| 0 <= a < front.len() && front[a] == lowest(front);
            assert(data[a] == lowest(front));
        }
        if front.contains(highest(front)) {
            let b = choose|b: int| 0 <= b < front.len() && front[b] == highest(front);
            assert(data[b] == highest(front));
        }
    }
}

/// The least and the greatest of the finite numbers.
pub fn extremes(data: &Vec<Single>) -> (r: (Single, Single))
    ensures
        r.0 == lowest(data@),
        r.1 == highest(data@),
{
    let mut min = Single::infinity();
    let mut max = Single::neg_infinity();
    let mut k: usize = 0;
    assert(data@.take(0) =~= Seq::empty());
    while k < data.len()
        invariant
            k <= data@.len(),
            min == lowest(data@.take(k as int)),
            max == highest(data@.take(k as int)),
        decreases data@.len() - k,
    {
        assert(data@.take(k + 1).drop_last() =~= data@.take(k as int));
        let v = data[k];
        if v.is_finite() {
            if v.lt(&min) {
                min = v;
            }
            if max.lt(&v) {
                max = v;
            }
        }
        k = k + 1;
    }
    assert(data@.take(data@.len() as int) =~= data@);
    (min, max)
}

impl Region {
    pub open spec fn model(self) -> RegionModel {
        RegionModel {
            origin_e: self.origin_e,
            origin_n: self.origin_n,
            cell_size_m: self.cell_size_m,
            rows: self.rows,
            cols: self.cols,
            data: self.data@,
            bbox_lv95: self.bbox_lv95,
        }
    }

    pub fn into_dem(self) -> (r: Dem)
        ensures
            r.rows == self.rows,
            r.cols == self.cols,
            r.cell_size_m == self.cell_size_m,
            r.origin.e == self.origin_e,
            r.origin.n == self.origin_n,
            r.data@ == self.data@,
            self.data@.len() == self.rows * self.cols && self.rows * self.cols <= u32::MAX
                ==> r.wf(),
    {
        Dem {
            rows: self.rows,
            cols: self.cols,
            cell_size_m: self.cell_size_m,
            origin: LV95 { e: self.origin_e, n: self.origin_n },
            data: self.data,
        }
    }

    /// Min/max altitude (ignoring NaN).
    pub fn altitude_range(&self) -> (r: (Single, Single))
        ensures
            r.0 == lowest(self.data@),
            r.1 == highest(self.data@),
    {
        extremes(&self.data)
    }
}

/// Version of the binary format.
pub const VERSION: u32 = 1;

/// Bytes before the altitudes in the binary format.
pub const HEADER_LEN: usize = 68;

/// "HFLY".
pub open spec fn magic() -> Seq<u8> {
    seq![0x48u8, 0x46u8, 0x4cu8, 0x59u8]
}

/// The altitudes in the binary format, one after the other.
pub open spec fn cells_to_bytes(data: Seq<Single>) -> Seq<u8>
    decreases data.len(),
{
    if data.len() == 0 {
        Seq::empty()
    } else {
        cells_to_bytes(data.drop_last()) + spec_u32_to_le_bytes(data.last().bits)
    }
}

/// What precedes the altitudes in the binary format.
pub open spec fn header(r: RegionModel) -> Seq<u8> {
    magic() + spec_u32_to_le_bytes(VERSION) + spec_u64_to_le_bytes(r.origin_e.bits)
        + spec_u64_to_le_bytes(r.origin_n.bits) + spec_u32_to_le_bytes(r.cell_size_m.bits)
        + spec_u32_to_le_bytes(r.rows) + spec_u32_to_le_bytes(r.cols) + spec_u64_to_le_bytes(
        r.bbox_lv95.e_min.bits,
    ) + spec_u64_to_le_bytes(r.bbox_lv95.n_min.bits) + spec_u64_to_le_bytes(r.bbox_lv95.e_max.bits)
        + spec_u64_to_le_bytes(r.bbox_lv95.n_max.bits)
}

/// A region in the binary format: all numbers little-endian.
pub open spec fn region_to_bytes(r: RegionModel) -> Seq<u8> {
    header(r) + cells_to_bytes(r.data)
}

/// The four bytes at a position as a number.
pub open spec fn u32_at(bytes: Seq<u8>, at: int) -> u32 {
    spec_u32_from_le_bytes(bytes.subrange(at, at + 4))
}

/// The eight bytes at a position as a number.
pub open spec fn u64_at(bytes: Seq<u8>, at: int) -> u64 {
    spec_u64_from_le_bytes(bytes.subrange(at, at + 8))
}

/// The region that bytes in the binary format give; what follows the last
/// altitude does not count.
pub open spec fn bytes_to_region(bytes: Seq<u8>) -> Result<RegionModel, ErrorModel> {
    let eof = ErrorModel::Io("failed to fill whole buffer"@);
    if bytes.len() < 4 {
        Err(eof)
    } else if bytes.subrange(0, 4) != magic() {
        Err(ErrorModel::BadFormat("bad magic"@))
    } else if bytes.len() < 8 {
        Err(eof)
    } else if u32_at(bytes, 4) != VERSION {
        Err(ErrorModel::BadFormat("unsupported version "@ + decimal(u32_at(bytes, 4) as nat)))
    } else if bytes.len() < HEADER_LEN {
        Err(eof)
    } else {
        let cells = u32_at(bytes, 28) * u32_at(bytes, 32);
        if bytes.len() < HEADER_LEN + 4 * cells {
            Err(eof)
        } else {
            Ok(
                RegionModel {
                    origin_e: Double { bits: u64_at(bytes, 8) },
                    origin_n: Double { bits: u64_at(bytes, 16) },
                    cell_size_m: Single { bits: u32_at(bytes, 24) },
                    rows: u32_at(bytes, 28),
                    cols: u32_at(bytes, 32),
                    data: Seq::new(
                        cells as nat,
                        |i: int| Single { bits: u32_at(bytes, HEADER_LEN + 4 * i) },
                    ),
                    bbox_lv95: BBox {
                        e_min: Double { bits: u64_at(bytes, 36) },
                        n_min: Double { bits: u64_at(bytes, 44) },
                        e_max: Double { bits: u64_at(bytes, 52) },
                        n_max: Double { bits: u64_at(bytes, 60) },
                    },
                },
            )
        }
    }
}

fn put_u32(out: &mut Vec<u8>, x: u32)
    ensures
        final(out)@ == old(out)@ + spec_u32_to_le_bytes(x),
{
    let mut b = u32_to_le_bytes(x);
    out.append(&mut b);
}

fn put_u64(out: &mut Vec<u8>, x: u64)
    ensures
        final(out)@ == old(out)@ + spec_u64_to_le_bytes(x),
{
    let mut b = u64_to_le_bytes(x);
    out.append(&mut b);
}

/// Writes a region in the binary format.
pub fn encode_region(region: &Region) -> (r: Vec<u8>)
    ensures
        r@ == region_to_bytes(region.model()),
{
    let mut out: Vec<u8> = vec![0x48u8, 0x46u8, 0x4cu8, 0x59u8];
    assert(out@ =~= magic());
    put_u32(&mut out, VERSION);
    put_u64(&mut out, region.origin_e.bits);
    put_u64(&mut out, region.origin_n.bits);
    put_u32(&mut out, region.cell_size_m.bits);
    put_u32(&mut out, region.rows);
    put_u32(&mut out, region.cols);
    put_u64(&mut out, region.bbox_lv95.e_min.bits);
    put_u64(&mut out, region.bbox_lv95.n_min.bits);
    put_u64(&mut out, region.bbox_lv95.e_max.bits);
    put_u64(&mut out, region.bbox_lv95.n_max.bits);
    let ghost head = header(region.model());
    let mut i: usize = 0;
    assert(region.data@.take(0) =~= Seq::empty());
    assert(out@ =~= head + cells_to_bytes(region.data@.take(0)));
    while i < region.data.len()
        invariant
            i <= region.data@.len(),
            out@ == head + cells_to_bytes(region.data@.take(i as int)),
        decreases region.data@.len() - i,
    {
        assert(region.data@.take(i + 1).drop_last() =~= region.data@.take(i as int));
        let ghost before = out@;
        put_u32(&mut out, region.data[i].bits);
        assert(out@ =~= head + cells_to_bytes(region.data@.take(i + 1)));
        i = i + 1;
    }
    assert(region.data@.take(region.data@.len() as int) =~= region.data@);
    out
}

fn get_u32(bytes: &[u8], at: usize) -> (r: u32)
    requires
        at + 4 <= bytes@.len(),
    ensures
        r == u32_at(bytes@, at as int),
{
    let n: usize = bytes.len();
    assert(at + 4 <= n);
    u32_from_le_bytes(slice_subrange(bytes, at, at + 4))
}

fn get_u64(bytes: &[u8], at: usize) -> (r: u64)
    requires
        at + 8 <= bytes@.len(),
    ensures
        r == u64_at(bytes@, at as int),
{
    let n: usize = bytes.len();
    assert(at + 8 <= n);
    u64_from_le_bytes(slice_subrange(bytes, at, at + 8))
}

fn short_read() -> (r: DataError)
    ensures
        r.model() == ErrorModel::Io("failed to fill whole buffer"@),
{
    DataError::Io("failed to fill whole buffer".to_owned())
}

/// Reads a region in the binary format.
pub fn decode_region(bytes: &[u8]) -> (r: Result<Region, DataError>)
    ensures
        bytes_to_region(bytes@) == match r {
            Ok(region) => Ok(region.model()),
            Err(e) => Err(e.model()),
        },
{
    let n: usize = bytes.len();
    if n < 4 {
        return Err(short_read());
    }
    let ghost first = bytes@.subrange(0, 4);
    if bytes[0] != 0x48 || bytes[1] != 0x46 || bytes[2] != 0x4c || bytes[3] != 0x59 {
        assert(first[0] == bytes@[0] && first[1] == bytes@[1] && first[2] == bytes@[2] && first[3]
            == bytes@[3]);
        assert(first != magic());
        return Err(DataError::BadFormat("bad magic".to_owned()));
    }
    assert(first =~= magic());
    if n < 8 {
        return Err(short_read());
    }
    let version: u32 = get_u32(bytes, 4);
    if version != VERSION {
        let text = write_u32(version);
        return Err(
            DataError::BadFormat("unsupported version ".to_owned().concat(text.as_str())),
        );
    }
    if n < HEADER_LEN {
        return Err(short_read());
    }
    let origin_e = Double { bits: get_u64(bytes, 8) };
    let origin_n = Double { bits: get_u64(bytes, 16) };
    let cell_size_m = Single { bits: get_u32(bytes, 24) };
    let rows: u32 = get_u32(bytes, 28);
    let cols: u32 = get_u32(bytes, 32);
    let bbox_lv95 = BBox {
        e_min: Double { bits: get_u64(bytes, 36) },
        n_min: Double { bits: get_u64(bytes, 44) },
        e_max: Double { bits: get_u64(bytes, 52) },
        n_max: Double { bits: get_u64(bytes, 60) },
    };
    assert(0 <= rows * cols <= 0xffff_ffff * 0xffff_ffff) by (nonlinear_arith)
        requires
            0 <= rows <= 0xffff_ffff,
            0 <= cols <= 0xffff_ffff,
    ;
    let cells: u64 = rows as u64 * cols as u64;
    if (((n - HEADER_LEN) / 4) as u64) < cells {
        return Err(short_read());
    }
    let ghost all = Seq::new(
        cells as nat,
        |i: int| Single { bits: u32_at(bytes@, HEADER_LEN + 4 * i) },
    );
    let mut data: Vec<Single> = Vec::new();
    let mut i: usize = 0;
    while (i as u64) < cells
        invariant
            n == bytes@.len(),
            n >= HEADER_LEN,
            i <= cells,
            cells <= (n - HEADER_LEN) / 4,
            all == Seq::new(
                cells as nat,
                |i: int| Single { bits: u32_at(bytes@, HEADER_LEN + 4 * i) },
            ),
            data@ == all.take(i as int),
        decreases cells - i,
    {
        data.push(Single { bits: get_u32(bytes, HEADER_LEN + 4 * i) });
        assert(data@ =~= all.take(i + 1));
        i = i + 1;
    }
    assert(all.take(cells as int) =~= all);
    Ok(Region { origin_e, origin_n, cell_size_m, rows, cols, data, bbox_lv95 })
}

proof fn lemma_cells(data: Seq<Single>, i: int)
    requires
        0 <= i < data.len(),
    ensures
        cells_to_bytes(data).len() == 4 * data.len(),
        cells_to_bytes(data).subrange(4 * i, 4 * i + 4) == spec_u32_to_le_bytes(data[i].bits),
    decreases data.len(),
{
    lemma_auto_spec_u32_to_from_le_bytes();
    let front = data.drop_last();
    lemma_cells_len(front);
    lemma_cells_len(data);
    let all = cells_to_bytes(data);
    assert(spec_u32_to_le_bytes(data.last().bits).len() == 4);
    if i < front.len() {
        lemma_cells(front, i);
        assert(all.subrange(4 * i, 4 * i + 4) =~= cells_to_bytes(front).subrange(4 * i, 4 * i + 4));
    } else {
        assert(all.subrange(4 * i, 4 * i + 4) =~= spec_u32_to_le_bytes(data.last().bits));
    }
}

proof fn lemma_cells_len(data: Seq<Single>)
    ensures
        cells_to_bytes(data).len() == 4 * data.len(),
    decreases data.len(),
{
    lemma_auto_spec_u32_to_from_le_bytes();
    if data.len() > 0 {
        lemma_cells_len(data.drop_last());
        assert(spec_u32_to_le_bytes(data.last().bits).len() == 4);
    }
}

/// Where the fields of a header are.
proof fn lemma_header(r: RegionModel, rest: Seq<u8>)
    ensures
        header(r).len() == HEADER_LEN,
        (header(r) + rest).subrange(0, 4) == magic(),
        u32_at(header(r) + rest, 4) == VERSION,
        u64_at(header(r) + rest, 8) == r.origin_e.bits,
        u64_at(header(r) + rest, 16) == r.origin_n.bits,
        u32_at(header(r) + rest, 24) == r.cell_size_m.bits,
        u32_at(header(r) + rest, 28) == r.rows,
        u32_at(header(r) + rest, 32) == r.cols,
        u64_at(header(r) + rest, 36) == r.bbox_lv95.e_min.bits,
        u64_at(header(r) + rest, 44) == r.bbox_lv95.n_min.bits,
        u64_at(header(r) + rest, 52) == r.bbox_lv95.e_max.bits,
        u64_at(header(r) + rest, 60) == r.bbox_lv95.n_max.bits,
{
    lemma_auto_spec_u32_to_from_le_bytes();
    lemma_auto_spec_u64_to_from_le_bytes();
    let version = spec_u32_to_le_bytes(VERSION);
    let origin_e = spec_u64_to_le_bytes(r.origin_e.bits);
    let origin_n = spec_u64_to_le_bytes(r.origin_n.bits);
    let cell_size = spec_u32_to_le_bytes(r.cell_size_m.bits);
    let rows = spec_u32_to_le_bytes(r.rows);
    let cols = spec_u32_to_le_bytes(r.cols);
    let e_min = spec_u64_to_le_bytes(r.bbox_lv95.e_min.bits);
    let n_min = spec_u64_to_le_bytes(r.bbox_lv95.n_min.bits);
    let e_max = spec_u64_to_le_bytes(r.bbox_lv95.e_max.bits);
    let n_max = spec_u64_to_le_bytes(r.bbox_lv95.n_max.bits);
    assert(version.len() == 4 && cell_size.len() == 4 && rows.len() == 4 && cols.len() == 4);
    assert(origin_e.len() == 8 && origin_n.len() == 8);
    assert(e_min.len() == 8 && n_min.len() == 8 && e_max.len() == 8 && n_max.len() == 8);
    let all = header(r) + rest;
    assert(all.subrange(0, 4) =~= magic());
    assert(all.subrange(4, 8) =~= version);
    assert(all.subrange(8, 16) =~= origin_e);
    assert(all.subrange(16, 24) =~= origin_n);
    assert(all.subrange(24, 28) =~= cell_size);
    assert(all.subrange(28, 32) =~= rows);
    assert(all.subrange(32, 36) =~= cols);
    assert(all.subrange(36, 44) =~= e_min);
    assert(all.subrange(44, 52) =~= n_min);
    assert(all.subrange(52, 60) =~= e_max);
    assert(all.subrange(60, 68) =~= n_max);
}

/// A region reads back as it was written, whatever follows it.
pub proof fn regions_read_back(r: RegionModel, rest: Seq<u8>)
    requires
        r.data.len() == r.rows * r.cols,
    ensures
        bytes_to_region(region_to_bytes(r) + rest) == Ok::<RegionModel, ErrorModel>(r),
{
    let bytes = region_to_bytes(r) + rest;
    let tail = cells_to_bytes(r.data) + rest;
    assert(bytes =~= header(r) + tail);
    lemma_header(r, tail);
    lemma_cells_len(r.data);
    let read = Seq::new(
        (r.rows * r.cols) as nat,
        |i: int| Single { bits: u32_at(bytes, HEADER_LEN + 4 * i) },
    );
    assert forall|i: int| 0 <= i < r.data.len() implies #[trigger] read[i] == r.data[i] by {
        lemma_cells(r.data, i);
        lemma_auto_spec_u32_to_from_le_bytes();
        let at = HEADER_LEN + 4 * i;
        assert(bytes.subrange(at, at + 4) =~= cells_to_bytes(r.data).subrange(4 * i, 4 * i + 4));
        assert(spec_u32_to_le_bytes(r.data[i].bits).len() == 4);
    }
    assert(read =~= r.data);
}

/// Bytes that read as a region are what the region is written as, and what
/// follows it.
pub proof fn regions_write_back(bytes: Seq<u8>, r: RegionModel)
    requires
        bytes_to_region(bytes) == Ok::<RegionModel, ErrorModel>(r),
    ensures
        r.data.len() == r.rows * r.cols,
        region_to_bytes(r) == bytes.take((HEADER_LEN + 4 * (r.rows * r.cols)) as int),
{
    lemma_auto_spec_u32_to_from_le_bytes();
    lemma_auto_spec_u64_to_from_le_bytes();
    assert(0 <= r.rows * r.cols) by (nonlinear_arith)
        requires
            0 <= r.rows,
            0 <= r.cols,
    ;
    let n = r.rows * r.cols;
    lemma_cells_from(bytes, r.data);
    let parts = seq![
        bytes.subrange(4, 8),
        bytes.subrange(8, 16),
        bytes.subrange(16, 24),
        bytes.subrange(24, 28),
        bytes.subrange(28, 32),
        bytes.subrange(32, 36),
        bytes.subrange(36, 44),
        bytes.subrange(44, 52),
        bytes.subrange(52, 60),
        bytes.subrange(60, 68),
    ];
    assert(spec_u32_to_le_bytes(VERSION) == parts[0]);
    assert(spec_u64_to_le_bytes(r.origin_e.bits) == parts[1]);
    assert(spec_u64_to_le_bytes(r.origin_n.bits) == parts[2]);
    assert(spec_u32_to_le_bytes(r.cell_size_m.bits) == parts[3]);
    assert(spec_u32_to_le_bytes(r.rows) == parts[4]);
    assert(spec_u32_to_le_bytes(r.cols) == parts[5]);
    assert(spec_u64_to_le_bytes(r.bbox_lv95.e_min.bits) == parts[6]);
    assert(spec_u64_to_le_bytes(r.bbox_lv95.n_min.bits) == parts[7]);
    assert(spec_u64_to_le_bytes(r.bbox_lv95.e_max.bits) == parts[8]);
    assert(spec_u64_to_le_bytes(r.bbox_lv95.n_max.bits) == parts[9]);
    assert(header(r) =~= bytes.take(68));
    assert(region_to_bytes(r) =~= bytes.take(68 + 4 * n));
}

proof fn lemma_cells_from(bytes: Seq<u8>, data: Seq<Single>)
    requires
        bytes.len() >= HEADER_LEN + 4 * data.len(),
        forall|i: int|
            0 <= i < data.len() ==> (#[trigger] data[i]).bits == u32_at(bytes, HEADER_LEN + 4 * i),
    ensures
        cells_to_bytes(data) == bytes.subrange(
            HEADER_LEN as int,
            (HEADER_LEN + 4 * data.len()) as int,
        ),
    decreases data.len(),
{
    lemma_auto_spec_u32_to_from_le_bytes();
    if data.len() > 0 {
        let front = data.drop_last();
        assert forall|i: int| 0 <= i < front.len() implies (#[trigger] front[i]).bits == u32_at(
            bytes,
            HEADER_LEN + 4 * i,
        ) by {
            assert(front[i] == data[i]);
        }
        lemma_cells_from(bytes, front);
        let at = HEADER_LEN + 4 * (data.len() - 1);
        assert(data[data.len() - 1].bits == u32_at(bytes, at));
        assert(spec_u32_to_le_bytes(data.last().bits) == bytes.subrange(at, at + 4));
        assert(cells_to_bytes(data) =~= bytes.subrange(HEADER_LEN as int, at + 4));
    } else {
        assert(cells_to_bytes(data) =~= bytes.subrange(HEADER_LEN as int, HEADER_LEN as int));
    }
}

} // verus!
