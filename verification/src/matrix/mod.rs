//! Two-dimensional buffers over a flat backing sequence.
//!
//! A cell is addressed by an index pair `[col, row]` with `col < dim[0]` and
//! `row < dim[1]`, and lives at offset `col + row * dim[0]` of the backing
//! sequence.

pub mod constructor;
pub mod display;
pub mod ops;

pub use constructor::{cbind, diag, matrix, rbind, FillOrdering};
pub use display::{layout, MatrixDisplay};
pub use ops::{
    add, all_eq, and, can_combine, div, elem_op1, elem_op2, eq, gt, lt, modulo, mul, neg, neq,
    not, or, sub, t, xor,
};

use vstd::prelude::*;

verus! {

/// The mathematical model of a matrix: its two dimensions and its cells in
/// storage order.
pub struct Grid<T> {
    pub dim0: nat,
    pub dim1: nat,
    pub cells: Seq<T>,
}

impl<T> Grid<T> {
    /// There are exactly as many cells as the dimensions ask for.
    pub open spec fn wf(self) -> bool {
        self.cells.len() == self.dim0 * self.dim1
    }

    /// Whether `[col, row]` addresses a cell.
    pub open spec fn has(self, col: int, row: int) -> bool {
        0 <= col < self.dim0 && 0 <= row < self.dim1
    }

    /// The offset of cell `[col, row]` in the backing sequence.
    pub open spec fn offset(self, col: int, row: int) -> int {
        col + row * self.dim0
    }

    /// The cell at `[col, row]`.
    pub open spec fn at(self, col: int, row: int) -> T {
        self.cells[self.offset(col, row)]
    }

    /// The matrix with the two dimensions swapped: its cell at `[row, col]`
    /// is the cell at `[col, row]` of this one.
    pub open spec fn transposed(self) -> Grid<T> {
        Grid {
            dim0: self.dim1,
            dim1: self.dim0,
            cells: Seq::new(
                self.dim0 * self.dim1,
                |k: int| self.at(k / (self.dim1 as int), k % (self.dim1 as int)),
            ),
        }
    }

    /// The matrix made of the cells at the index pairs picked from `cols`
    /// and `rows`, in their order.
    pub open spec fn selected(self, cols: Seq<usize>, rows: Seq<usize>) -> Grid<T> {
        Grid {
            dim0: cols.len(),
            dim1: rows.len(),
            cells: Seq::new(
                cols.len() * rows.len(),
                |k: int|
                    self.at(
                        cols[k % (cols.len() as int)] as int,
                        rows[k / (cols.len() as int)] as int,
                    ),
            ),
        }
    }
}

/// Picking every index of both axes in ascending order gives the matrix back.
pub proof fn lemma_selected_all<T>(grid: Grid<T>)
    requires
        grid.wf(),
        grid.dim0 <= usize::MAX,
        grid.dim1 <= usize::MAX,
    ensures
        grid.selected(
            Seq::new(grid.dim0, |i: int| i as usize),
            Seq::new(grid.dim1, |i: int| i as usize),
        ) == grid,
{
    let cols = Seq::new(grid.dim0, |i: int| i as usize);
    let rows = Seq::new(grid.dim1, |i: int| i as usize);
    let picked = grid.selected(cols, rows);
    assert forall|k: int| 0 <= k < grid.cells.len() implies picked.cells[k] == grid.cells[k] by {
        lemma_offset_split(grid.dim0, grid.dim1, k);
    }
    assert(picked.cells =~= grid.cells);
}

/// Swapping the dimensions twice gives the matrix back.
pub proof fn lemma_transposed_twice<T>(grid: Grid<T>)
    requires
        grid.wf(),
    ensures
        grid.transposed().wf(),
        grid.transposed().transposed() == grid,
{
    let once = grid.transposed();
    let twice = once.transposed();
    assert(grid.dim0 * grid.dim1 == grid.dim1 * grid.dim0) by (nonlinear_arith);
    assert forall|k: int| 0 <= k < grid.cells.len() implies twice.cells[k] == grid.cells[k] by {
        lemma_offset_split(grid.dim0, grid.dim1, k);
        let col = k % (grid.dim0 as int);
        let row = k / (grid.dim0 as int);
        // the cell of `once` that `twice` reads at offset `k`
        lemma_offset_in_range(grid.dim1, grid.dim0, row, col);
        let j = once.offset(row, col);
        assert(twice.cells[k] == once.cells[j]);
        assert(once.cells[j] == grid.at(col, row));
    }
    assert(twice.cells =~= grid.cells);
}

/// Every index pair in range has its offset inside the backing sequence, and
/// every offset belongs to exactly one index pair.
pub proof fn lemma_offset_in_range(dim0: nat, dim1: nat, col: int, row: int)
    requires
        0 <= col < dim0,
        0 <= row < dim1,
    ensures
        0 <= col + row * dim0 < dim0 * dim1,
        (col + row * dim0) % (dim0 as int) == col,
        (col + row * dim0) / (dim0 as int) == row,
{
    assert(col + row * dim0 < dim0 * dim1) by (nonlinear_arith)
        requires
            0 <= col < dim0,
            0 <= row < dim1,
    ;
    assert(0 <= row * dim0) by (nonlinear_arith)
        requires
            0 <= row,
    ;
    assert(col + row * dim0 == row * (dim0 as int) + col);
    vstd::arithmetic::div_mod::lemma_fundamental_div_mod_converse(
        col + row * dim0,
        dim0 as int,
        row,
        col,
    );
}

/// An offset inside the backing sequence splits into an index pair in range.
pub proof fn lemma_offset_split(dim0: nat, dim1: nat, k: int)
    requires
        0 <= k < dim0 * dim1,
    ensures
        dim0 > 0,
        0 <= k % (dim0 as int) < dim0,
        0 <= k / (dim0 as int) < dim1,
        k == k % (dim0 as int) + (k / (dim0 as int)) * dim0,
{
    assert(dim0 > 0) by (nonlinear_arith)
        requires
            0 <= k < dim0 * dim1,
    ;
    let d = dim0 as int;
    vstd::arithmetic::div_mod::lemma_fundamental_div_mod(k, d);
    vstd::arithmetic::div_mod::lemma_mod_bound(k, d);
    assert(0 <= k / d < dim1) by (nonlinear_arith)
        requires
            0 <= k < d * dim1,
            d > 0,
            k == d * (k / d) + k % d,
            0 <= k % d < d,
    ;
    assert(k == k % d + (k / d) * d) by (nonlinear_arith)
        requires
            k == d * (k / d) + k % d,
    ;
}

/// A matrix that owns its cells.
#[derive(Debug)]
pub struct MatrixBuf<T> {
    dim: [usize; 2],
    data: Vec<T>,
}

impl<T> View for MatrixBuf<T> {
    type V = Grid<T>;

    closed spec fn view(&self) -> Grid<T> {
        Grid { dim0: self.dim[0] as nat, dim1: self.dim[1] as nat, cells: self.data@ }
    }
}

impl<T> MatrixBuf<T> {
    #[verifier::type_invariant]
    spec fn shape_matches_data(&self) -> bool {
        self.dim[0] * self.dim[1] == self.data.len()
    }

    /// Builds a matrix from its dimensions and its cells in storage order.
    pub(crate) fn from_parts(dim: [usize; 2], data: Vec<T>) -> (out: Self)
        requires
            dim[0] * dim[1] == data@.len(),
        ensures
            out@ == (Grid { dim0: dim[0] as nat, dim1: dim[1] as nat, cells: data@ }),
            out@.wf(),
    {
        MatrixBuf { dim, data }
    }

    /// The two dimensions.
    pub fn dim(&self) -> (dim: [usize; 2])
        ensures
            dim[0] == self@.dim0,
            dim[1] == self@.dim1,
            dim[0] * dim[1] <= usize::MAX,
            self@.wf(),
    {
        proof {
            use_type_invariant(self);
        }
        self.dim
    }

    /// The cells in storage order.
    pub fn data(&self) -> (data: &[T])
        ensures
            data@ == self@.cells,
            self@.wf(),
    {
        proof {
            use_type_invariant(self);
        }
        self.data.as_slice()
    }
}

impl<T: Copy> Clone for MatrixBuf<T> {
    /// A copy with the same dimensions and cells.
    fn clone(&self) -> (out: Self)
        ensures
            out@ == self@,
    {
        proof {
            use_type_invariant(self);
        }
        let mut data: Vec<T> = Vec::with_capacity(self.data.len());
        let mut k: usize = 0;
        while k < self.data.len()
            invariant
                k <= self.data@.len(),
                data@ == self.data@.take(k as int),
            decreases self.data@.len() - k,
        {
            data.push(self.data[k]);
            k += 1;
            assert(data@ =~= self.data@.take(k as int));
        }
        assert(self.data@.take(k as int) =~= self.data@);
        MatrixBuf { dim: self.dim, data }
    }
}

/// The offset of cell `index` in a matrix of dimensions `dim`.
pub fn entry_index(index: [usize; 2], dim: [usize; 2]) -> (offset: usize)
    requires
        index[0] < dim[0],
        index[1] < dim[1],
        dim[0] * dim[1] <= usize::MAX,
    ensures
        offset == index[0] + index[1] * dim[0],
        offset < dim[0] * dim[1],
{
    proof {
        lemma_offset_in_range(dim[0] as nat, dim[1] as nat, index[0] as int, index[1] as int);
        assert(index[1] * dim[0] <= index[0] + index[1] * dim[0]);
    }
    index[0] + index[1] * dim[0]
}

/// Reads the cell at `index`.
pub fn entry<T: Copy>(matrix: &MatrixBuf<T>, index: [usize; 2]) -> (cell: T)
    requires
        matrix@.has(index[0] as int, index[1] as int),
    ensures
        cell == matrix@.at(index[0] as int, index[1] as int),
{
    let dim = matrix.dim();
    let data = matrix.data();
    data[entry_index(index, dim)]
}

/// Borrows the cell at `index` for writing; the other cells and the
/// dimensions stay as they are.
pub fn entry_mut<T>(matrix: &mut MatrixBuf<T>, index: [usize; 2]) -> (cell: &mut T)
    requires
        old(matrix)@.has(index[0] as int, index[1] as int),
    ensures
        *cell == old(matrix)@.at(index[0] as int, index[1] as int),
        final(matrix)@.dim0 == old(matrix)@.dim0,
        final(matrix)@.dim1 == old(matrix)@.dim1,
        final(matrix)@.cells == old(matrix)@.cells.update(
            old(matrix)@.offset(index[0] as int, index[1] as int),
            *final(cell),
        ),
        final(matrix)@.wf(),
{
    proof {
        use_type_invariant(&*matrix);
    }
    let offset = entry_index(index, matrix.dim);
    &mut matrix.data[offset]
}

/// The index and the dimensions of a part of a matrix.
#[derive(Debug, Clone, Copy, PartialEq, Eq)]
pub struct SubmatrixParams {
    pub index: [usize; 2],
    pub dim: [usize; 2],
}

/// The indices to pick along one axis.
#[derive(Debug, Clone)]
pub enum SubmatrixAxis {
    /// Every index of the axis, in ascending order.
    All,
    /// These indices, in this order; an index may occur more than once.
    At(Vec<usize>),
}

impl SubmatrixAxis {
    /// The indices picked along an axis of length `dim`.
    pub open spec fn indices(self, dim: nat) -> Seq<usize> {
        match self {
            SubmatrixAxis::All => Seq::new(dim, |i: int| i as usize),
            SubmatrixAxis::At(list) => list@,
        }
    }

    /// Every picked index lies on an axis of length `dim`.
    pub open spec fn within(self, dim: nat) -> bool {
        forall|i: int|
            0 <= i < self.indices(dim).len() ==> (#[trigger] self.indices(dim)[i]) < dim
    }

    /// How many indices are picked along an axis of length `dim`.
    fn count(&self, dim: usize) -> (count: usize)
        ensures
            count == self.indices(dim as nat).len(),
    {
        match self {
            SubmatrixAxis::All => dim,
            SubmatrixAxis::At(list) => list.len(),
        }
    }

    /// The index picked at position `i` along an axis of length `dim`.
    fn pick(&self, dim: usize, i: usize) -> (index: usize)
        requires
            i < self.indices(dim as nat).len(),
        ensures
            index == self.indices(dim as nat)[i as int],
    {
        match self {
            SubmatrixAxis::All => i,
            SubmatrixAxis::At(list) => list[i],
        }
    }
}

/// Copies the cells at the picked index pairs into a new matrix.
pub fn submatrix<T: Copy>(matrix: &MatrixBuf<T>, index: &[SubmatrixAxis; 2]) -> (out: MatrixBuf<T>)
    requires
        index[0].within(matrix@.dim0),
        index[1].within(matrix@.dim1),
    ensures
        out@.wf(),
        out@ == matrix@.selected(
            index[0].indices(matrix@.dim0),
            index[1].indices(matrix@.dim1),
        ),
{
    let dim = matrix.dim();
    let ghost cols = index[0].indices(matrix@.dim0);
    let ghost rows = index[1].indices(matrix@.dim1);
    let n_cols: usize = index[0].count(dim[0]);
    let n_rows: usize = index[1].count(dim[1]);
    let mut cells: Vec<T> = Vec::new();
    let mut j: usize = 0;
    while j < n_rows
        invariant
            j <= n_rows,
            dim[0] == matrix@.dim0,
            dim[1] == matrix@.dim1,
            cols == index[0].indices(matrix@.dim0),
            rows == index[1].indices(matrix@.dim1),
            index[0].within(matrix@.dim0),
            index[1].within(matrix@.dim1),
            n_cols == cols.len(),
            n_rows == rows.len(),
            cells@.len() == n_cols * j,
            forall|k: int|
                0 <= k < cells@.len() ==> #[trigger] cells@[k] == matrix@.at(
                    cols[k % (n_cols as int)] as int,
                    rows[k / (n_cols as int)] as int,
                ),
        decreases n_rows - j,
    {
        let row_i = index[1].pick(dim[1], j);
        let mut i: usize = 0;
        while i < n_cols
            invariant
                i <= n_cols,
                j < n_rows,
                dim[0] == matrix@.dim0,
                dim[1] == matrix@.dim1,
                cols == index[0].indices(matrix@.dim0),
                rows == index[1].indices(matrix@.dim1),
                index[0].within(matrix@.dim0),
                index[1].within(matrix@.dim1),
                n_cols == cols.len(),
                n_rows == rows.len(),
                row_i == rows[j as int],
                cells@.len() == n_cols * j + i,
                forall|k: int|
                    0 <= k < cells@.len() ==> #[trigger] cells@[k] == matrix@.at(
                        cols[k % (n_cols as int)] as int,
                        rows[k / (n_cols as int)] as int,
                    ),
            decreases n_cols - i,
        {
            let col_i = index[0].pick(dim[0], i);
            proof {
                assert(n_cols * j == j * n_cols) by (nonlinear_arith);
                lemma_offset_in_range(n_cols as nat, n_rows as nat, i as int, j as int);
            }
            cells.push(entry(matrix, [col_i, row_i]));
            i += 1;
        }
        proof {
            assert(n_cols * (j + 1) == n_cols * j + n_cols) by (nonlinear_arith);
        }
        j += 1;
    }
    let out = MatrixBuf::from_parts([n_cols, n_rows], cells);
    assert(out@.cells =~= matrix@.selected(cols, rows).cells);
    out
}

} // verus!
