//! The digital elevation model: a raster of altitudes.

use crate::exact::{
    products_grow, roots_keep_sides, rounding_keeps_sides, rounds, stands_for, value,
    values_are_in_order, whole_numbers_are_exact, zero_is_nothing,
};
use crate::geom::{CellIdx, LV95};
use crate::math::{double, minus, minus_d, plus, plus_d, single, sqrt, steady, times, times_d, widen, Math};
use crate::scalar::{Double, Single};
use vstd::prelude::*;

verus! {

/// A regular-grid digital elevation model. Cells are square. A cell whose
/// number is not finite holds no data.
#[derive(Debug, Clone)]
pub struct Dem {
    pub rows: u32,
    pub cols: u32,
    pub cell_size_m: Single,
    /// LV95 of cell (0,0)'s center.
    pub origin: LV95,
    /// Row-major altitudes in meters MSL.
    pub data: Vec<Single>,
}

/// Row-major position of a cell in a raster with `cols` columns.
pub open spec fn flat(cols: int, row: int, col: int) -> int {
    row * cols + col
}

/// Cells of the raster have positions in the raster's data.
pub proof fn lemma_flat_in_range(rows: int, cols: int, row: int, col: int)
    requires
        0 <= row < rows,
        0 <= col < cols,
    ensures
        0 <= flat(cols, row, col) < rows * cols,
        0 <= row * cols <= flat(cols, row, col),
        row * cols + cols <= rows * cols,
{
    assert(0 <= row * cols && row * cols + cols <= rows * cols) by (nonlinear_arith)
        requires
            0 <= row < rows,
            0 <= col < cols,
    ;
}

/// A position belongs to one cell only.
pub proof fn lemma_flat_unique(cols: int, row: int, col: int)
    requires
        0 <= row,
        0 <= col < cols,
    ensures
        flat(cols, row, col) / cols == row,
        flat(cols, row, col) % cols == col,
{
    vstd::arithmetic::div_mod::lemma_fundamental_div_mod_converse(
        flat(cols, row, col),
        cols,
        row,
        col,
    );
}

/// Every position in the data is that of a cell.
pub proof fn lemma_flat_onto(rows: int, cols: int, i: int)
    requires
        0 <= i < rows * cols,
        0 <= rows,
        0 <= cols,
    ensures
        cols > 0,
        0 <= i / cols < rows,
        0 <= i % cols < cols,
        flat(cols, i / cols, i % cols) == i,
{
    assert(cols > 0) by (nonlinear_arith)
        requires
            0 <= i < rows * cols,
            0 <= rows,
            0 <= cols,
    ;
    vstd::arithmetic::div_mod::lemma_fundamental_div_mod(i, cols);
    let q = i / cols;
    let r = i % cols;
    assert(0 <= r < cols && 0 <= q < rows && q * cols + r == i) by (nonlinear_arith)
        requires
            cols > 0,
            0 <= i < rows * cols,
            i == cols * q + r,
            r == i % cols,
            q == i / cols,
    ;
}

impl Dem {
    /// The data has one number per cell, and positions in it fit in 32 bits.
    pub open spec fn wf(self) -> bool {
        &&& self.rows * self.cols <= u32::MAX
        &&& self.data@.len() == self.rows * self.cols
    }

    /// Whether (row, col) is a cell of the raster.
    pub open spec fn has(self, row: int, col: int) -> bool {
        0 <= row < self.rows && 0 <= col < self.cols
    }

    /// Whether `cell` is a cell of the raster.
    pub open spec fn has_cell(self, cell: CellIdx) -> bool {
        self.has(cell.row as int, cell.col as int)
    }

    /// Position of a cell in `data`.
    pub open spec fn pos(self, cell: CellIdx) -> int {
        flat(self.cols as int, cell.row as int, cell.col as int)
    }

    /// Altitude stored for (row, col).
    pub open spec fn at(self, row: int, col: int) -> Single {
        self.data@[flat(self.cols as int, row, col)]
    }

    /// Whether (row, col) is a cell of the raster that holds data.
    pub open spec fn known(self, row: int, col: int) -> bool {
        self.has(row, col) && self.at(row, col).finite()
    }

    pub fn new(rows: u32, cols: u32, cell_size_m: Single, origin: LV95) -> (r: Self)
        requires
            rows * cols <= u32::MAX,
        ensures
            r.wf(),
            r.rows == rows,
            r.cols == cols,
            r.cell_size_m == cell_size_m,
            r.origin == origin,
            forall|i: int| 0 <= i < r.data@.len() ==> (#[trigger] r.data@[i]).bits == 0x7fc0_0000,
    {
        assert(0 <= rows * cols) by (nonlinear_arith);
        Dem { rows, cols, cell_size_m, origin, data: vec![Single::missing(); (rows * cols) as usize] }
    }

    /// Fills the raster row by row, each cell with what `f` returns for it.
    pub fn from_fn<F: Fn(u32, u32) -> Single>(
        rows: u32,
        cols: u32,
        cell_size_m: Single,
        origin: LV95,
        f: F,
    ) -> (r: Self)
        requires
            rows * cols <= u32::MAX,
            forall|row: u32, col: u32|
                row < rows && col < cols ==> #[trigger] f.requires((row, col)),
        ensures
            r.wf(),
            r.rows == rows,
            r.cols == cols,
            r.cell_size_m == cell_size_m,
            r.origin == origin,
            forall|row: u32, col: u32|
                row < rows && col < cols ==> #[trigger] f.ensures(
                    (row, col),
                    r.at(row as int, col as int),
                ),
    {
        let mut data: Vec<Single> = Vec::new();
        let mut row: u32 = 0;
        assert(0 * cols == 0) by (nonlinear_arith);
        while row < rows
            invariant
                row <= rows,
                rows * cols <= u32::MAX,
                data@.len() == row * cols,
                forall|row: u32, col: u32|
                    row < rows && col < cols ==> #[trigger] f.requires((row, col)),
                forall|r0: u32, c0: u32|
                    r0 < row && c0 < cols ==> #[trigger] f.ensures(
                        (r0, c0),
                        data@[flat(cols as int, r0 as int, c0 as int)],
                    ),
            decreases rows - row,
        {
            let mut col: u32 = 0;
            while col < cols
                invariant
                    row < rows,
                    col <= cols,
                    data@.len() == row * cols + col,
                    forall|row: u32, col: u32|
                        row < rows && col < cols ==> #[trigger] f.requires((row, col)),
                    forall|r0: u32, c0: u32|
                        (r0 < row && c0 < cols) || (r0 == row && c0 < col)
                            ==> #[trigger] f.ensures(
                            (r0, c0),
                            data@[flat(cols as int, r0 as int, c0 as int)],
                        ),
                decreases cols - col,
            {
                let ghost before = data@;
                data.push(f(row, col));
                assert forall|r0: u32, c0: u32|
                    (r0 < row && c0 < cols) || (r0 == row && c0 < col + 1)
                        implies #[trigger] f.ensures(
                    (r0, c0),
                    data@[flat(cols as int, r0 as int, c0 as int)],
                ) by {
                    if r0 < row {
                        lemma_flat_in_range(row as int, cols as int, r0 as int, c0 as int);
                    }
                    if r0 < row || c0 < col {
                        assert(data@[flat(cols as int, r0 as int, c0 as int)]
                            == before[flat(cols as int, r0 as int, c0 as int)]);
                    }
                }
                col = col + 1;
            }
            assert(row * cols + cols == (row + 1) * cols) by (nonlinear_arith);
            row = row + 1;
        }
        Dem { rows, cols, cell_size_m, origin, data }
    }

    #[inline]
    pub fn idx(&self, row: u32, col: u32) -> (r: usize)
        requires
            flat(self.cols as int, row as int, col as int) <= u32::MAX,
        ensures
            r == flat(self.cols as int, row as int, col as int),
    {
        assert(0 <= row * self.cols) by (nonlinear_arith);
        (row * self.cols + col) as usize
    }

    /// Altitude of the cell; `None` outside the raster and where there is no
    /// data.
    #[inline]
    pub fn get(&self, row: u32, col: u32) -> (r: Option<Single>)
        requires
            self.wf(),
        ensures
            r == if self.known(row as int, col as int) {
                Some(self.at(row as int, col as int))
            } else {
                None
            },
    {
        if row >= self.rows || col >= self.cols {
            return None;
        }
        proof {
            lemma_flat_in_range(self.rows as int, self.cols as int, row as int, col as int);
        }
        let v = self.data[self.idx(row, col)];
        if v.is_finite() {
            Some(v)
        } else {
            None
        }
    }

    /// Whether (row, col) is a cell of the raster. A raster with more than
    /// `i32::MAX` rows or columns has none of its cells in bounds.
    pub fn in_bounds(&self, row: i32, col: i32) -> (r: bool)
        ensures
            r == (self.has(row as int, col as int) && self.rows <= i32::MAX && self.cols
                <= i32::MAX),
    {
        row >= 0 && col >= 0 && self.rows <= 0x7fff_ffff && self.cols <= 0x7fff_ffff && (row as u32)
            < self.rows && (col as u32) < self.cols
    }

    pub fn cell_count(&self) -> (r: usize)
        requires
            self.rows * self.cols <= u32::MAX,
        ensures
            r == self.rows * self.cols,
    {
        assert(0 <= self.rows * self.cols) by (nonlinear_arith);
        (self.rows * self.cols) as usize
    }

    /// Position of the cell `dr` rows south and `dc` columns east of position
    /// `u`, if it is in bounds.
    pub open spec fn moved(self, u: int, dr: int, dc: int) -> Option<int> {
        let row = u / self.cols as int + dr;
        let col = u % self.cols as int + dc;
        if self.has(row, col) && self.rows <= i32::MAX && self.cols <= i32::MAX {
            Some(flat(self.cols as int, row, col))
        } else {
            None
        }
    }

    /// Position of the cell `dr` rows south and `dc` columns east of position
    /// `u`, if it is in bounds.
    pub fn move_by(&self, u: usize, dr: i32, dc: i32) -> (r: Option<usize>)
        requires
            self.wf(),
            u < self.data@.len(),
            -1 <= dr <= 1,
            -1 <= dc <= 1,
        ensures
            self.moved(u as int, dr as int, dc as int) == match r {
                Some(v) => Some(v as int),
                None => None,
            },
            r matches Some(v) ==> v < self.data@.len(),
    {
        proof {
            lemma_flat_onto(self.rows as int, self.cols as int, u as int);
        }
        let row: i64 = (u as u64 / self.cols as u64) as i64 + dr as i64;
        let col: i64 = (u as u64 % self.cols as u64) as i64 + dc as i64;
        if row < -0x8000_0000 || row > 0x7fff_ffff || col < -0x8000_0000 || col > 0x7fff_ffff {
            return None;
        }
        if !self.in_bounds(row as i32, col as i32) {
            return None;
        }
        proof {
            lemma_flat_in_range(self.rows as int, self.cols as int, row as int, col as int);
        }
        Some(self.idx(row as u32, col as u32))
    }

    /// The cell at a position.
    pub open spec fn cell_of(self, u: int) -> CellIdx {
        CellIdx { row: (u / self.cols as int) as u32, col: (u % self.cols as int) as u32 }
    }

    /// The cell at a position.
    pub fn cell_at(&self, u: usize) -> (r: CellIdx)
        requires
            self.wf(),
            u < self.data@.len(),
        ensures
            r == self.cell_of(u as int),
            self.has_cell(r),
            self.pos(r) == u,
    {
        proof {
            lemma_flat_onto(self.rows as int, self.cols as int, u as int);
        }
        CellIdx {
            row: (u as u64 / self.cols as u64) as u32,
            col: (u as u64 % self.cols as u64) as u32,
        }
    }

    /// LV95 coordinate of the center of cell (row, col). Row 0 is northernmost.
    pub fn lv95<M: Math>(&self, m: &M, row: u32, col: u32) -> (r: LV95)
        requires
            steady(m),
        ensures
            r.e == plus_d(
                m,
                self.origin.e,
                times_d(m, double(m, col as i128), widen(m, self.cell_size_m)),
            ),
            r.n == minus_d(
                m,
                self.origin.n,
                times_d(m, double(m, row as i128), widen(m, self.cell_size_m)),
            ),
    {
        LV95 {
            e: plus_d(
                m,
                self.origin.e,
                times_d(m, double(m, col as i128), widen(m, self.cell_size_m)),
            ),
            n: minus_d(
                m,
                self.origin.n,
                times_d(m, double(m, row as i128), widen(m, self.cell_size_m)),
            ),
        }
    }

    pub open spec fn spec_area_m2<M: Math>(&self, m: &M) -> Double {
        times_d(m, widen(m, self.cell_size_m), widen(m, self.cell_size_m))
    }

    /// Area of one cell.
    #[verifier::when_used_as_spec(spec_area_m2)]
    pub fn area_m2<M: Math>(&self, m: &M) -> (r: Double)
        requires
            steady(m),
        ensures
            r == self.spec_area_m2(m),
    {
        times_d(m, widen(m, self.cell_size_m), widen(m, self.cell_size_m))
    }

    pub open spec fn spec_distance_m<M: Math>(&self, m: &M, a: CellIdx, b: CellIdx) -> Single {
        let dr = minus(m, single(m, a.row as i128), single(m, b.row as i128));
        let dc = minus(m, single(m, a.col as i128), single(m, b.col as i128));
        times(m, sqrt(m, plus(m, times(m, dr, dr), times(m, dc, dc))), self.cell_size_m)
    }

    /// Linear distance in meters between two cell centers.
    #[verifier::when_used_as_spec(spec_distance_m)]
    pub fn distance_m<M: Math>(&self, m: &M, a: CellIdx, b: CellIdx) -> (r: Single)
        requires
            steady(m),
        ensures
            r == self.spec_distance_m(m, a, b),
    {
        let dr = minus(m, single(m, a.row as i128), single(m, b.row as i128));
        let dc = minus(m, single(m, a.col as i128), single(m, b.col as i128));
        times(m, sqrt(m, plus(m, times(m, dr, dr), times(m, dc, dc))), self.cell_size_m)
    }
}

/// How many rows or columns two places are apart.
pub open spec fn apart(a: u32, b: u32) -> int {
    if a < b {
        b - a
    } else {
        a - b
    }
}

/// The square of the distance between two cells, in cells.
pub open spec fn squared_apart<M: Math>(m: &M, a: CellIdx, b: CellIdx) -> Single {
    let dr = minus(m, single(m, a.row as i128), single(m, b.row as i128));
    let dc = minus(m, single(m, a.col as i128), single(m, b.col as i128));
    plus(m, times(m, dr, dr), times(m, dc, dc))
}

proof fn lemma_squared<M: Math>(m: &M, rnd: spec_fn(real) -> int, a: u32, b: u32) -> (r: Single)
    requires
        rounds(m, rnd),
        a <= 0x100_0000,
        b <= 0x100_0000,
        apart(a, b) <= 2048,
    ensures
        r == minus(m, single(m, a as i128), single(m, b as i128)),
        r.finite(),
        times(m, r, r).finite(),
        value(times(m, r, r)) == (apart(a, b) * apart(a, b)) as real,
        0 <= apart(a, b) * apart(a, b) <= 0x40_0000,
{
    let n = apart(a, b);
    let (x, y) = (single(m, a as i128), single(m, b as i128));
    let d = whole_numbers_are_exact(m, rnd, a - b);
    let r = minus(m, x, y);
    rounding_keeps_sides(m, rnd, r, value(x) - value(y), d);
    assert(0 <= n * n <= 0x40_0000) by (nonlinear_arith)
        requires
            0 <= n <= 2048,
    ;
    let sq = whole_numbers_are_exact(m, rnd, n * n);
    let t = (a - b) as real;
    assert((n * n) as real == t * t) by (nonlinear_arith)
        requires
            n == a - b || n == b - a,
            t == (a - b) as real,
    ;
    rounding_keeps_sides(m, rnd, times(m, r, r), t * t, sq);
    r
}

/// The square of the distance between two cells is exact where they are not too
/// far apart.
pub proof fn squares_of_distances_are_exact<M: Math>(m: &M, rnd: spec_fn(real) -> int, a: CellIdx, b: CellIdx)
    requires
        rounds(m, rnd),
        a.row <= 0x100_0000 && b.row <= 0x100_0000 && apart(a.row, b.row) <= 2048,
        a.col <= 0x100_0000 && b.col <= 0x100_0000 && apart(a.col, b.col) <= 2048,
    ensures
        squared_apart(m, a, b).finite(),
        value(squared_apart(m, a, b)) == (apart(a.row, b.row) * apart(a.row, b.row) + apart(
            a.col,
            b.col,
        ) * apart(a.col, b.col)) as real,
        0 <= apart(a.row, b.row) * apart(a.row, b.row) <= 0x40_0000,
        0 <= apart(a.col, b.col) * apart(a.col, b.col) <= 0x40_0000,
{
    let x = lemma_squared(m, rnd, a.row, b.row);
    let y = lemma_squared(m, rnd, a.col, b.col);
    let (p, q) = (
        apart(a.row, b.row) * apart(a.row, b.row),
        apart(a.col, b.col) * apart(a.col, b.col),
    );
    let sum = whole_numbers_are_exact(m, rnd, p + q);
    assert((p + q) as real == p as real + q as real);
    rounding_keeps_sides(m, rnd, squared_apart(m, a, b), p as real + q as real, sum);
}

/// Cells in one row or column are as far apart as so many cells are wide.
pub proof fn distances_count_cells<M: Math>(
    m: &M,
    rnd: spec_fn(real) -> int,
    dem: &Dem,
    a: CellIdx,
    b: CellIdx,
)
    requires
        rounds(m, rnd),
        a.row <= 0x100_0000 && b.row <= 0x100_0000 && apart(a.row, b.row) <= 2048,
        a.col <= 0x100_0000 && b.col <= 0x100_0000 && apart(a.col, b.col) <= 2048,
        dem.cell_size_m.finite(),
        a.row == b.row || a.col == b.col,
    ensures
        stands_for(
            dem.distance_m(m, a, b),
            rnd(
                ((apart(a.row, b.row) + apart(a.col, b.col)) as real) * value(dem.cell_size_m),
            ),
        ),
{
    squares_of_distances_are_exact(m, rnd, a, b);
    let n = apart(a.row, b.row) + apart(a.col, b.col);
    let c = whole_numbers_are_exact(m, rnd, n);
    let s = squared_apart(m, a, b);
    let (x, y) = (apart(a.row, b.row), apart(a.col, b.col));
    assert(x * x + y * y == n * n) by (nonlinear_arith)
        requires
            x == 0 || y == 0,
            n == x + y,
    ;
    assert((n * n) as real == (n as real) * (n as real)) by (nonlinear_arith);
    roots_keep_sides(m, rnd, s, c, s);
}

/// Cells that are no nearer in rows nor in columns are no nearer.
pub proof fn distances_grow<M: Math>(
    m: &M,
    rnd: spec_fn(real) -> int,
    dem: &Dem,
    a: CellIdx,
    b: CellIdx,
    c: CellIdx,
    d: CellIdx,
)
    requires
        rounds(m, rnd),
        a.row <= 0x100_0000 && b.row <= 0x100_0000 && a.col <= 0x100_0000 && b.col <= 0x100_0000,
        c.row <= 0x100_0000 && d.row <= 0x100_0000 && c.col <= 0x100_0000 && d.col <= 0x100_0000,
        apart(a.row, b.row) <= apart(c.row, d.row) <= 2048,
        apart(a.col, b.col) <= apart(c.col, d.col) <= 2048,
        dem.cell_size_m.finite(),
        0real <= value(dem.cell_size_m),
    ensures
        dem.distance_m(m, a, b).at_most(dem.distance_m(m, c, d)),
{
    squares_of_distances_are_exact(m, rnd, a, b);
    squares_of_distances_are_exact(m, rnd, c, d);
    let (s, t) = (squared_apart(m, a, b), squared_apart(m, c, d));
    let (x, y, z, w) = (
        apart(a.row, b.row),
        apart(a.col, b.col),
        apart(c.row, d.row),
        apart(c.col, d.col),
    );
    assert(x * x + y * y <= z * z + w * w) by (nonlinear_arith)
        requires
            0 <= x <= z,
            0 <= y <= w,
    ;
    let (p, q) = (sqrt(m, s), sqrt(m, t));
    assert(p.at_most(q));
    let far = whole_numbers_are_exact(m, rnd, 4096);
    let square = whole_numbers_are_exact(m, rnd, 0x100_0000);
    assert(value(square) == value(far) * value(far));
    roots_keep_sides(m, rnd, s, far, square);
    roots_keep_sides(m, rnd, t, far, square);
    zero_is_nothing();
    let zero = Single { bits: 0 };
    assert(value(zero) == value(zero) * value(zero));
    roots_keep_sides(m, rnd, s, zero, zero);
    values_are_in_order(p, q);
    products_grow(m, rnd, p, q, dem.cell_size_m);
}

} // verus!
