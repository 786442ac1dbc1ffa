//! Fixed-size 256 x 256 byte grid holding per-cell blight intensity, with
//! shape painting and shape-average queries.
//!
//! The backing storage is an `ndarray::Array2<u8>`; the cells are modelled as
//! one row-major `Seq<u8>` of length 65536, so cell `(i, j)` is entry
//! `i * 256 + j`.

use vstd::prelude::*;
use vstd::arithmetic::div_mod::{
    lemma_div_is_ordered, lemma_div_multiples_vanish, lemma_fundamental_div_mod,
    lemma_div_pos_is_pos,
};

verus! {

/// Grid side length, in cells.
pub const WIDTH: usize = 256;
/// Grid side length, in cells.
pub const HEIGHT: usize = 256;
/// Number of cells of the whole grid.
pub const CELL_COUNT: usize = 65536;
/// Maximum blight intensity of a cell.
pub const BLIGHT: u8 = 255;
/// A fully clean cell.
pub const CLEAN: u8 = 0;

/// A paintable / queryable region of the grid, in grid coordinates.
#[derive(Debug, Copy, Clone, PartialEq, Eq, Hash, Structural)]
pub enum Shape {
    Circle { row: usize, col: usize, radius: usize },
}

/// Whether grid position `(i, j)` lies in the disk of `s`: its squared
/// distance to the centre is at most the squared radius.
pub open spec fn in_disk(s: Shape, i: int, j: int) -> bool {
    match s {
        Shape::Circle { row, col, radius } => {
            (i - row) * (i - row) + (j - col) * (j - col) <= radius * radius
        },
    }
}

/// Whether the cell with row-major index `k` lies in the disk of `s`.
pub open spec fn cell_in_disk(s: Shape, k: int) -> bool {
    in_disk(s, k / 256, k % 256)
}

/// The centre of the shape lies on the grid, so its disk holds at least the
/// centre cell.
pub open spec fn shape_on_grid(s: Shape) -> bool {
    match s {
        Shape::Circle { row, col, radius } => row < 256 && col < 256,
    }
}

/// The row-major index of the centre cell of `s`.
pub open spec fn shape_center_cell(s: Shape) -> int {
    match s {
        Shape::Circle { row, col, radius } => row * 256 + col,
    }
}

/// The cells after painting `v` over the disk of `s`: disk cells hold `v`,
/// all others are unchanged.
pub open spec fn filled(cells: Seq<u8>, s: Shape, v: u8) -> Seq<u8> {
    Seq::new(cells.len(), |k: int| if cell_in_disk(s, k) { v } else { cells[k] })
}

/// Sum of the first `n` cells that lie in the disk of `s`.
pub open spec fn disk_sum(cells: Seq<u8>, s: Shape, n: int) -> int
    decreases n,
{
    if n <= 0 {
        0
    } else {
        disk_sum(cells, s, n - 1) + if cell_in_disk(s, n - 1) {
            cells[n - 1] as int
        } else {
            0
        }
    }
}

/// How many of the first `n` cells lie in the disk of `s`.
pub open spec fn disk_count(s: Shape, n: int) -> int
    decreases n,
{
    if n <= 0 {
        0
    } else {
        disk_count(s, n - 1) + if cell_in_disk(s, n - 1) {
            1int
        } else {
            0int
        }
    }
}

/// The truncated mean of the cells in the disk of `s`.
pub open spec fn disk_average(cells: Seq<u8>, s: Shape) -> int {
    disk_sum(cells, s, 65536) / disk_count(s, 65536)
}

/// All cells clean.
pub open spec fn all_clean(cells: Seq<u8>) -> bool {
    forall|k: int| 0 <= k < cells.len() ==> cells[k] == 0u8
}

/// Owns the backing `ndarray` array. Only the trusted accessors below touch
/// it; everything else sees the grid through `grid_cells` and `grid_wf`.
#[verifier::external_body]
pub struct GridStore {
    arr: ndarray::Array2<u8>,
}

/// The contents of the backing array, row-major.
pub uninterp spec fn grid_cells(g: GridStore) -> Seq<u8>;

/// The backing array has shape 256 x 256 and standard row-major layout.
pub uninterp spec fn grid_wf(g: GridStore) -> bool;

/// Relies on `ndarray::Array2::from_elem`: a 256 x 256 array in standard
/// row-major layout, every cell holding the given element.
#[verifier::external_body]
fn store_new() -> (g: GridStore)
    ensures
        grid_wf(g),
        grid_cells(g).len() == 65536,
        all_clean(grid_cells(g)),
{
    GridStore { arr: ndarray::Array2::from_elem((256, 256), 0u8) }
}

/// Relies on `ndarray::ArrayBase::get`: in a standard-layout 256 x 256 array,
/// entry `(i, j)` is element `i * 256 + j` of the row-major data.
#[verifier::external_body]
fn store_get(g: &GridStore, i: usize, j: usize) -> (v: u8)
    requires
        grid_wf(*g),
        i < 256,
        j < 256,
    ensures
        v == grid_cells(*g)[i as int * 256 + j as int],
{
    *g.arr.get((i, j)).unwrap()
}

/// Relies on `ndarray::ArrayBase::get_mut`: writes entry `(i, j)`, which in a
/// standard-layout 256 x 256 array is element `i * 256 + j` of the row-major
/// data, and leaves shape and layout unchanged.
#[verifier::external_body]
fn store_set(g: &mut GridStore, i: usize, j: usize, v: u8)
    requires
        grid_wf(*old(g)),
        i < 256,
        j < 256,
    ensures
        grid_wf(*final(g)),
        grid_cells(*final(g)) == grid_cells(*old(g)).update(i as int * 256 + j as int, v),
{
    *g.arr.get_mut((i, j)).unwrap() = v;
}

/// Relies on `ndarray::ArrayBase::as_slice`: for a standard-layout array it
/// returns the row-major data as one slice.
#[verifier::external_body]
fn store_bytes(g: &GridStore) -> (v: Vec<u8>)
    requires
        grid_wf(*g),
    ensures
        v@ == grid_cells(*g),
{
    g.arr.as_slice().unwrap().to_vec()
}

/// Relies on `ndarray`'s `Clone`: the copy has the same contents, shape and
/// layout.
#[verifier::external_body]
fn store_clone(g: &GridStore) -> (r: GridStore)
    requires
        grid_wf(*g),
    ensures
        grid_wf(r),
        grid_cells(r) == grid_cells(*g),
{
    GridStore { arr: g.arr.clone() }
}

/// For a row-major index `k` of the grid, its row, column, and the identity
/// joining them back.
pub proof fn lemma_cell_index(k: int)
    requires
        0 <= k < 65536,
    ensures
        0 <= k / 256 < 256,
        0 <= k % 256 < 256,
        (k / 256) * 256 + k % 256 == k,
{
    lemma_fundamental_div_mod(k, 256);
    lemma_div_is_ordered(k, 65535, 256);
    lemma_div_pos_is_pos(k, 256);
    assert(65535int / 256 == 255);
}

/// The row-major index built from a row and a column splits back into them.
pub proof fn lemma_cell_coords(i: int, j: int)
    requires
        0 <= i < 256,
        0 <= j < 256,
    ensures
        (i * 256 + j) / 256 == i,
        (i * 256 + j) % 256 == j,
        0 <= i * 256 + j < 65536,
{
    let k = i * 256 + j;
    assert(0 <= k < 65536) by (nonlinear_arith)
        requires
            0 <= i < 256,
            0 <= j < 256,
            k == i * 256 + j,
    ;
    lemma_fundamental_div_mod(k, 256);
    assert(k / 256 == i && k % 256 == j) by (nonlinear_arith)
        requires
            k == i * 256 + j,
            0 <= j < 256,
            0 <= k,
            k == 256 * (k / 256) + k % 256,
            0 <= k % 256 < 256,
    ;
}

/// A disk always holds its centre cell.
pub proof fn lemma_center_in_disk(s: Shape)
    requires
        shape_on_grid(s),
    ensures
        0 <= shape_center_cell(s) < 65536,
        cell_in_disk(s, shape_center_cell(s)),
{
    match s {
        Shape::Circle { row, col, radius } => {
            lemma_cell_coords(row as int, col as int);
            assert(radius * radius >= 0) by (nonlinear_arith);
        },
    }
}

proof fn lemma_disk_count_nonneg(s: Shape, n: int)
    ensures
        disk_count(s, n) >= 0,
    decreases n,
{
    if n > 0 {
        lemma_disk_count_nonneg(s, n - 1);
    }
}

/// A prefix that holds a disk cell counts at least one cell.
proof fn lemma_disk_count_pos(s: Shape, c: int, n: int)
    requires
        0 <= c < n,
        cell_in_disk(s, c),
    ensures
        disk_count(s, n) >= 1,
    decreases n,
{
    if c == n - 1 {
        lemma_disk_count_nonneg(s, n - 1);
    } else {
        lemma_disk_count_pos(s, c, n - 1);
    }
}

/// On a grid whose disk cells all hold `v`, the disk sum is `v` times the
/// disk count.
proof fn lemma_disk_sum_constant(cells: Seq<u8>, s: Shape, v: u8, n: int)
    requires
        0 <= n <= cells.len(),
        forall|k: int| 0 <= k < n && cell_in_disk(s, k) ==> cells[k] == v,
    ensures
        disk_sum(cells, s, n) == v * disk_count(s, n),
    decreases n,
{
    if n > 0 {
        lemma_disk_sum_constant(cells, s, v, n - 1);
        assert(v * disk_count(s, n - 1) + v == v * (disk_count(s, n - 1) + 1))
            by (nonlinear_arith);
    } else {
        assert(v * 0 == 0) by (nonlinear_arith);
    }
}

/// Painting a shape and then averaging over the same shape reads back exactly
/// the painted value.
pub proof fn lemma_fill_then_average(cells: Seq<u8>, s: Shape, v: u8)
    requires
        cells.len() == 65536,
        shape_on_grid(s),
    ensures
        disk_average(filled(cells, s, v), s) == v,
{
    let f = filled(cells, s, v);
    lemma_disk_sum_constant(f, s, v, 65536);
    lemma_center_in_disk(s);
    lemma_disk_count_pos(s, shape_center_cell(s), 65536);
    let c = disk_count(s, 65536);
    lemma_div_multiples_vanish(v as int, c);
    assert(v * c == c * (v as int)) by (nonlinear_arith);
}

/// One byte grid buffer.
pub struct GridBuffer {
    pub store: GridStore,
}

/// Decides disk membership for an on-grid cell without overflow: both offsets
/// must be within the radius and the squared offsets must fit the squared
/// radius.
fn in_disk_exec(s: &Shape, i: usize, j: usize) -> (r: bool)
    requires
        i < 256,
        j < 256,
    ensures
        r == in_disk(*s, i as int, j as int),
{
    match *s {
        Shape::Circle { row, col, radius } => {
            let di: u128 = if i >= row { (i - row) as u128 } else { (row - i) as u128 };
            let dj: u128 = if j >= col { (j - col) as u128 } else { (col - j) as u128 };
            let r128: u128 = radius as u128;
            proof {
                assert(di * di == (i - row) * (i - row)) by (nonlinear_arith)
                    requires
                        di == if i >= row { i - row } else { (row - i) as int },
                ;
                assert(dj * dj == (j - col) * (j - col)) by (nonlinear_arith)
                    requires
                        dj == if j >= col { j - col } else { (col - j) as int },
                ;
                assert(di * di <= u128::MAX && dj * dj <= u128::MAX && r128 * r128 <= u128::MAX)
                    by (nonlinear_arith)
                    requires
                        di <= u64::MAX as u128,
                        dj <= u64::MAX as u128,
                        r128 <= u64::MAX as u128,
                ;
            }
            let di2: u128 = di * di;
            let dj2: u128 = dj * dj;
            let r2: u128 = r128 * r128;
            if dj2 > r2 {
                false
            } else {
                di2 <= r2 - dj2
            }
        },
    }
}

impl GridBuffer {
    /// The backing store is a well-formed 256 x 256 array.
    pub open spec fn wf(self) -> bool {
        grid_wf(self.store) && grid_cells(self.store).len() == 65536
    }

    /// The cells, row-major: cell `(i, j)` is entry `i * 256 + j`.
    pub open spec fn cells(self) -> Seq<u8> {
        grid_cells(self.store)
    }

    /// A fully clean grid.
    pub fn new() -> (g: GridBuffer)
        ensures
            g.wf(),
            all_clean(g.cells()),
    {
        GridBuffer { store: store_new() }
    }

    /// The value of cell `(i, j)`.
    pub fn get(&self, i: usize, j: usize) -> (v: u8)
        requires
            self.wf(),
            i < 256,
            j < 256,
        ensures
            v == self.cells()[i as int * 256 + j as int],
    {
        store_get(&self.store, i, j)
    }

    /// Writes cell `(i, j)`.
    pub fn set(&mut self, i: usize, j: usize, v: u8)
        requires
            old(self).wf(),
            i < 256,
            j < 256,
        ensures
            final(self).wf(),
            final(self).cells() == old(self).cells().update(i as int * 256 + j as int, v),
    {
        store_set(&mut self.store, i, j, v);
    }

    /// An identical copy of the buffer.
    pub fn duplicate(&self) -> (g: GridBuffer)
        requires
            self.wf(),
        ensures
            g.wf(),
            g.cells() == self.cells(),
    {
        GridBuffer { store: store_clone(&self.store) }
    }

    /// The raw cells, row-major, one byte per cell.
    pub fn to_bytes(&self) -> (v: Vec<u8>)
        requires
            self.wf(),
        ensures
            v@ == self.cells(),
    {
        store_bytes(&self.store)
    }

    /// Paints `v` over every grid cell in the disk of `shape`; cells of the
    /// disk that fall outside the grid are simply skipped.
    pub fn fill_shape(&mut self, shape: &Shape, v: u8)
        requires
            old(self).wf(),
        ensures
            final(self).wf(),
            final(self).cells() == filled(old(self).cells(), *shape, v),
    {
        let ghost orig = self.cells();
        let mut k: usize = 0;
        while k < 65536
            invariant
                self.wf(),
                k <= 65536,
                orig.len() == 65536,
                forall|m: int|
                    0 <= m < k ==> self.cells()[m] == (if cell_in_disk(*shape, m) {
                        v
                    } else {
                        orig[m]
                    }),
                forall|m: int| k <= m < 65536 ==> self.cells()[m] == orig[m],
            decreases 65536 - k,
        {
            proof {
                lemma_cell_index(k as int);
            }
            let i = k / 256;
            let j = k % 256;
            if in_disk_exec(shape, i, j) {
                self.set(i, j, v);
            }
            k += 1;
        }
        proof {
            assert(self.cells() =~= filled(orig, *shape, v));
        }
    }

    /// The truncated integer mean over the disk of `shape`, whose centre must
    /// lie on the grid so the disk is not empty.
    pub fn query_average(&self, shape: &Shape) -> (avg: u8)
        requires
            self.wf(),
            shape_on_grid(*shape),
        ensures
            avg == disk_average(self.cells(), *shape),
    {
        let mut sum: u32 = 0;
        let mut count: u32 = 0;
        let mut k: usize = 0;
        while k < 65536
            invariant
                self.wf(),
                k <= 65536,
                sum == disk_sum(self.cells(), *shape, k as int),
                count == disk_count(*shape, k as int),
                count <= k,
                sum <= 255 * count,
            decreases 65536 - k,
        {
            proof {
                lemma_cell_index(k as int);
            }
            let i = k / 256;
            let j = k % 256;
            if in_disk_exec(shape, i, j) {
                sum = sum + self.get(i, j) as u32;
                count = count + 1;
            }
            k += 1;
        }
        proof {
            lemma_center_in_disk(*shape);
            lemma_disk_count_pos(*shape, shape_center_cell(*shape), 65536);
            lemma_div_is_ordered(sum as int, 255 * count, count as int);
            lemma_div_multiples_vanish(255, count as int);
            assert(255 * count == count * 255) by (nonlinear_arith);
        }
        (sum / count) as u8
    }
}

} // verus!
