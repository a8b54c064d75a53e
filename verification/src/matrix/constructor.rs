//! Constructors of matrices: from a flat source, as a diagonal, and by
//! stacking.

use crate::matrix::{
    entry, entry_mut, lemma_offset_in_range, lemma_offset_split, Grid, MatrixBuf,
};
use crate::vector::ops::{extend_to_len, lemma_mod_step, recycle, wrapping_incr};
use vstd::prelude::*;

verus! {

/// How a flat source populates a new matrix.
#[derive(Debug, Clone, Copy, PartialEq, Eq, Structural)]
pub enum FillOrdering {
    /// The source, repeated, is taken as the backing sequence itself.
    RowByRow,
    /// The source, repeated, is dealt out index pair by index pair: for each
    /// `col`, for each `row`.
    ColByCol,
}

/// The step of the cyclic walk over the source that lands on offset `k`.
pub open spec fn fill_step(dim0: nat, dim1: nat, ordering: FillOrdering, k: int) -> int {
    match ordering {
        FillOrdering::RowByRow => k,
        FillOrdering::ColByCol => (k % (dim0 as int)) * dim1 + k / (dim0 as int),
    }
}

/// The backing sequence of a `dim0` by `dim1` matrix filled from `data`.
pub open spec fn filled<T>(data: Seq<T>, dim0: nat, dim1: nat, ordering: FillOrdering) -> Seq<T> {
    Seq::new(dim0 * dim1, |k: int| recycle(data, fill_step(dim0, dim1, ordering, k)))
}

/// Cell by cell: filled row by row, the cell at `[col, row]` is the element
/// met at step `col + row * dim0` of the cyclic walk over the source; filled
/// column by column, it is the one met at step `col * dim1 + row`.
pub proof fn lemma_filled_at<T>(
    data: Seq<T>,
    dim0: nat,
    dim1: nat,
    ordering: FillOrdering,
    col: int,
    row: int,
)
    requires
        0 <= col < dim0,
        0 <= row < dim1,
    ensures
        (Grid { dim0, dim1, cells: filled(data, dim0, dim1, ordering) }).at(col, row) == recycle(
            data,
            match ordering {
                FillOrdering::RowByRow => col + row * dim0,
                FillOrdering::ColByCol => col * dim1 + row,
            },
        ),
{
    lemma_offset_in_range(dim0, dim1, col, row);
}

/// Builds a matrix of dimensions `dim` from a flat source, which is repeated
/// as often as needed.
pub fn matrix<T: Copy>(data: &[T], dim: [usize; 2], ordering: FillOrdering) -> (out: MatrixBuf<T>)
    requires
        data@.len() > 0,
        dim[0] * dim[1] <= usize::MAX,
        ((dim[0] * dim[1]) as nat) % data@.len() == 0,
    ensures
        out@.wf(),
        out@.dim0 == dim[0],
        out@.dim1 == dim[1],
        out@.cells == filled(data@, dim[0] as nat, dim[1] as nat, ordering),
{
    let out_len: usize = dim[0] * dim[1];
    let cells = extend_to_len(data, out_len);
    let mut out = MatrixBuf::from_parts(dim, cells);
    match ordering {
        FillOrdering::RowByRow => {
            assert(out@.cells =~= filled(data@, dim[0] as nat, dim[1] as nat, ordering));
        },
        FillOrdering::ColByCol => {
            let ghost d0 = dim[0] as nat;
            let ghost d1 = dim[1] as nat;
            let mut in_i: usize = 0;
            let mut col_i: usize = 0;
            proof {
                vstd::arithmetic::div_mod::lemma_small_mod(0, data@.len());
            }
            while col_i < dim[0]
                invariant
                    data@.len() > 0,
                    d0 == dim[0],
                    d1 == dim[1],
                    col_i <= dim[0],
                    out@.wf(),
                    out@.dim0 == d0,
                    out@.dim1 == d1,
                    in_i == (col_i * d1) % (data@.len() as int),
                    forall|c: int, r: int|
                        0 <= c < col_i && 0 <= r < d1 ==> #[trigger] out@.at(c, r) == recycle(
                            data@,
                            c * d1 + r,
                        ),
                decreases dim[0] - col_i,
            {
                let mut row_i: usize = 0;
                while row_i < dim[1]
                    invariant
                        data@.len() > 0,
                        d0 == dim[0],
                        d1 == dim[1],
                        col_i < dim[0],
                        row_i <= dim[1],
                        out@.wf(),
                        out@.dim0 == d0,
                        out@.dim1 == d1,
                        in_i == (col_i * d1 + row_i) % (data@.len() as int),
                        forall|c: int, r: int|
                            0 <= c < col_i && 0 <= r < d1 ==> #[trigger] out@.at(c, r) == recycle(
                                data@,
                                c * d1 + r,
                            ),
                        forall|r: int|
                            0 <= r < row_i ==> #[trigger] out@.at(col_i as int, r) == recycle(
                                data@,
                                col_i * d1 + r,
                            ),
                    decreases dim[1] - row_i,
                {
                    let ghost before = out@;
                    proof {
                        assert(0 <= col_i * d1) by (nonlinear_arith);
                        lemma_mod_step(col_i * d1 + row_i, data@.len() as int);
                        lemma_offset_in_range(d0, d1, col_i as int, row_i as int);
                    }
                    *entry_mut(&mut out, [col_i, row_i]) = data[in_i];
                    proof {
                        assert forall|c: int, r: int|
                            0 <= c < d0 && 0 <= r < d1 && !(c == col_i && r == row_i) implies (
                        #[trigger] out@.at(c, r)) == before.at(c, r) by {
                            lemma_offset_in_range(d0, d1, c, r);
                        }
                    }
                    in_i = wrapping_incr(in_i, data.len());
                    row_i += 1;
                }
                proof {
                    assert((col_i + 1) * d1 == col_i * d1 + d1) by (nonlinear_arith);
                }
                col_i += 1;
            }
            proof {
                assert forall|k: int| 0 <= k < d0 * d1 implies out@.cells[k] == recycle(
                    data@,
                    fill_step(d0, d1, ordering, k),
                ) by {
                    lemma_offset_split(d0, d1, k);
                    let c = k % (d0 as int);
                    let r = k / (d0 as int);
                    assert(out@.at(c, r) == recycle(data@, c * d1 + r));
                }
                assert(out@.cells =~= filled(data@, d0, d1, ordering));
            }
        },
    }
    out
}

/// The square matrix with `data` on its main diagonal and `zero` elsewhere.
pub open spec fn diagonal<T>(data: Seq<T>, zero: T) -> Grid<T> {
    let n = data.len() as int;
    Grid {
        dim0: data.len(),
        dim1: data.len(),
        cells: Seq::new(
            data.len() * data.len(),
            |k: int|
                if k % n == k / n {
                    data[k % n]
                } else {
                    zero
                },
        ),
    }
}

/// Cell by cell: the cell at `[i, i]` of the diagonal matrix is `data[i]`,
/// and every other cell is `zero`.
pub proof fn lemma_diagonal_at<T>(data: Seq<T>, zero: T, col: int, row: int)
    requires
        0 <= col < data.len(),
        0 <= row < data.len(),
    ensures
        diagonal(data, zero).wf(),
        diagonal(data, zero).at(col, row) == (if col == row {
            data[col]
        } else {
            zero
        }),
{
    lemma_offset_in_range(data.len(), data.len(), col, row);
}

/// Builds the square matrix with `data` on its main diagonal and `zero`
/// elsewhere.
pub fn diag<T: Copy>(data: &[T], zero: T) -> (out: MatrixBuf<T>)
    requires
        data@.len() > 0,
        data@.len() * data@.len() <= usize::MAX,
    ensures
        out@ == diagonal(data@, zero),
        out@.wf(),
{
    let n: usize = data.len();
    let out_len: usize = n * n;
    let mut cells: Vec<T> = Vec::with_capacity(out_len);
    while cells.len() < out_len
        invariant
            cells@.len() <= out_len,
            forall|k: int| 0 <= k < cells@.len() ==> cells@[k] == zero,
        decreases out_len - cells@.len(),
    {
        cells.push(zero);
    }
    let mut out = MatrixBuf::from_parts([n, n], cells);
    let ghost d = n as nat;
    let mut i: usize = 0;
    proof {
        assert forall|c: int, r: int| 0 <= c < d && 0 <= r < d implies (#[trigger] out@.at(c, r))
            == zero by {
            lemma_offset_in_range(d, d, c, r);
        }
    }
    while i < n
        invariant
            n == data@.len(),
            d == n,
            i <= n,
            out@.wf(),
            out@.dim0 == d,
            out@.dim1 == d,
            forall|c: int, r: int|
                0 <= c < d && 0 <= r < d ==> #[trigger] out@.at(c, r) == (if c == r && c < i {
                    data@[c]
                } else {
                    zero
                }),
        decreases n - i,
    {
        let ghost before = out@;
        proof {
            lemma_offset_in_range(d, d, i as int, i as int);
        }
        *entry_mut(&mut out, [i, i]) = data[i];
        proof {
            assert forall|c: int, r: int|
                0 <= c < d && 0 <= r < d && !(c == i && r == i) implies (#[trigger] out@.at(c, r))
                == before.at(c, r) by {
                lemma_offset_in_range(d, d, c, r);
            }
        }
        i += 1;
    }
    proof {
        assert forall|k: int| 0 <= k < d * d implies out@.cells[k] == diagonal(
            data@,
            zero,
        ).cells[k] by {
            lemma_offset_split(d, d, k);
            let c = k % (d as int);
            let r = k / (d as int);
            assert(out@.at(c, r) == out@.cells[k]);
        }
        assert(out@.cells =~= diagonal(data@, zero).cells);
    }
    out
}

/// The models of a list of matrices.
pub open spec fn grids<T>(matrices: Seq<&MatrixBuf<T>>) -> Seq<Grid<T>> {
    matrices.map_values(|m: &MatrixBuf<T>| m@)
}

/// The sum of the second dimensions of a list of matrices.
pub open spec fn stacked_dim1<T>(parts: Seq<Grid<T>>) -> nat
    decreases parts.len(),
{
    if parts.len() == 0 {
        0
    } else {
        stacked_dim1(parts.drop_last()) + parts.last().dim1
    }
}

/// The backing sequences of a list of matrices, one after the other.
pub open spec fn stacked_cells<T>(parts: Seq<Grid<T>>) -> Seq<T>
    decreases parts.len(),
{
    if parts.len() == 0 {
        Seq::empty()
    } else {
        stacked_cells(parts.drop_last()) + parts.last().cells
    }
}

/// The sums over a prefix grow with the prefix.
proof fn lemma_stacked_dim1_prefix<T>(parts: Seq<Grid<T>>, count: int)
    requires
        0 <= count <= parts.len(),
    ensures
        stacked_dim1(parts.take(count)) <= stacked_dim1(parts),
    decreases parts.len(),
{
    if count < parts.len() {
        assert(parts.drop_last().take(count) =~= parts.take(count));
        lemma_stacked_dim1_prefix(parts.drop_last(), count);
    } else {
        assert(parts.take(count) =~= parts);
    }
}

/// Matrices that agree on their first dimension stack to as many cells as
/// the dimensions of the stack ask for.
pub proof fn lemma_stacked_wf<T>(parts: Seq<Grid<T>>, dim0: nat)
    requires
        forall|k: int| 0 <= k < parts.len() ==> (#[trigger] parts[k]).wf() && parts[k].dim0 == dim0,
    ensures
        stacked_cells(parts).len() == dim0 * stacked_dim1(parts),
    decreases parts.len(),
{
    if parts.len() > 0 {
        let rest = parts.drop_last();
        assert forall|k: int| 0 <= k < rest.len() implies (#[trigger] rest[k]).wf() && rest[k].dim0
            == dim0 by {
            assert(rest[k] == parts[k]);
        }
        lemma_stacked_wf(rest, dim0);
        assert(parts.last().wf());
        assert(dim0 * (stacked_dim1(rest) + parts.last().dim1) == dim0 * stacked_dim1(rest) + dim0
            * parts.last().dim1) by (nonlinear_arith);
    } else {
        assert(dim0 * 0 == 0);
    }
}

/// Cell by cell: the cell at `[col, row]` of part `j` is the cell of the stack
/// at `[col, start + row]`, where `start` is the sum of the second dimensions
/// of the parts before `j`.
pub proof fn lemma_stacked_at<T>(parts: Seq<Grid<T>>, dim0: nat, j: int, col: int, row: int)
    requires
        forall|k: int| 0 <= k < parts.len() ==> (#[trigger] parts[k]).wf() && parts[k].dim0 == dim0,
        0 <= j < parts.len(),
        parts[j].has(col, row),
    ensures
        ({
            let whole = Grid { dim0, dim1: stacked_dim1(parts), cells: stacked_cells(parts) };
            let start = stacked_dim1(parts.take(j));
            whole.wf() && whole.has(col, start + row) && whole.at(col, start + row) == parts[j].at(
                col,
                row,
            )
        }),
    decreases parts.len(),
{
    let rest = parts.drop_last();
    let last = parts.last();
    assert forall|k: int| 0 <= k < rest.len() implies (#[trigger] rest[k]).wf() && rest[k].dim0
        == dim0 by {
        assert(rest[k] == parts[k]);
    }
    lemma_stacked_wf(parts, dim0);
    lemma_stacked_wf(rest, dim0);
    assert(last.wf() && last.dim0 == dim0);
    if j < parts.len() - 1 {
        lemma_stacked_at(rest, dim0, j, col, row);
        assert(rest.take(j) =~= parts.take(j));
        assert(rest[j] == parts[j]);
        let start = stacked_dim1(rest.take(j));
        lemma_offset_in_range(dim0, stacked_dim1(rest), col, start + row);
    } else {
        assert(parts.take(j) =~= rest);
        let start = stacked_dim1(rest);
        lemma_offset_in_range(dim0, last.dim1, col, row);
        assert(col + (start + row) * dim0 == dim0 * start + (col + row * dim0))
            by (nonlinear_arith);
        lemma_offset_in_range(dim0, stacked_dim1(parts), col, start + row);
    }
}

/// Stacks matrices that agree on their first dimension: the result has the
/// second dimensions added up and the backing sequences one after the other.
pub fn rbind<T: Copy>(matrices: &[&MatrixBuf<T>]) -> (out: MatrixBuf<T>)
    requires
        matrices@.len() > 0,
        forall|j: int|
            0 <= j < matrices@.len() ==> (#[trigger] matrices@[j])@.dim0 == matrices@[0]@.dim0,
        stacked_dim1(grids(matrices@)) <= usize::MAX,
    ensures
        out@.wf(),
        out@.dim0 == matrices@[0]@.dim0,
        out@.dim1 == stacked_dim1(grids(matrices@)),
        out@.cells == stacked_cells(grids(matrices@)),
{
    let ghost parts = grids(matrices@);
    let dim0: usize = matrices[0].dim()[0];
    let mut dim1: usize = 0;
    let mut cells: Vec<T> = Vec::new();
    let mut j: usize = 0;
    assert(parts.take(0) =~= Seq::<Grid<T>>::empty());
    while j < matrices.len()
        invariant
            j <= matrices@.len(),
            parts == grids(matrices@),
            dim0 == matrices@[0]@.dim0,
            forall|j: int|
                0 <= j < matrices@.len() ==> (#[trigger] matrices@[j])@.dim0 == matrices@[0]@.dim0,
            stacked_dim1(parts) <= usize::MAX,
            dim1 == stacked_dim1(parts.take(j as int)),
            cells@ == stacked_cells(parts.take(j as int)),
            cells@.len() == dim0 * dim1,
        decreases matrices@.len() - j,
    {
        let part = matrices[j];
        let part_dim = part.dim();
        let part_cells = part.data();
        proof {
            assert(parts.take(j + 1).drop_last() =~= parts.take(j as int));
            assert(parts.take(j + 1).last() == part@);
            lemma_stacked_dim1_prefix(parts, j + 1);
            assert(dim0 * (dim1 + part_dim[1]) == dim0 * dim1 + dim0 * part_dim[1])
                by (nonlinear_arith);
        }
        let ghost so_far = cells@;
        let mut k: usize = 0;
        while k < part_cells.len()
            invariant
                k <= part_cells@.len(),
                cells@ == so_far + part_cells@.take(k as int),
            decreases part_cells@.len() - k,
        {
            cells.push(part_cells[k]);
            k += 1;
            assert(cells@ =~= so_far + part_cells@.take(k as int));
        }
        assert(part_cells@.take(k as int) =~= part_cells@);
        dim1 += part_dim[1];
        j += 1;
    }
    assert(parts.take(j as int) =~= parts);
    MatrixBuf::from_parts([dim0, dim1], cells)
}

/// The sum of the first dimensions of a list of matrices.
pub open spec fn joined_dim0<T>(parts: Seq<Grid<T>>) -> nat
    decreases parts.len(),
{
    if parts.len() == 0 {
        0
    } else {
        joined_dim0(parts.drop_last()) + parts.last().dim0
    }
}

/// The cells of a matrix whose second index is `row`, by their first index.
pub open spec fn row_of<T>(part: Grid<T>, row: int) -> Seq<T> {
    part.cells.subrange(row * part.dim0, (row + 1) * part.dim0)
}

/// The cells with second index `row` of each matrix of a list, one matrix
/// after the other.
pub open spec fn joined_row<T>(parts: Seq<Grid<T>>, row: int) -> Seq<T>
    decreases parts.len(),
{
    if parts.len() == 0 {
        Seq::empty()
    } else {
        joined_row(parts.drop_last(), row) + row_of(parts.last(), row)
    }
}

/// The first `rows` joined rows of a list of matrices, one after the other.
pub open spec fn joined_cells<T>(parts: Seq<Grid<T>>, rows: nat) -> Seq<T>
    decreases rows,
{
    if rows == 0 {
        Seq::empty()
    } else {
        joined_cells(parts, (rows - 1) as nat) + joined_row(parts, rows - 1)
    }
}

proof fn lemma_joined_dim0_prefix<T>(parts: Seq<Grid<T>>, count: int)
    requires
        0 <= count <= parts.len(),
    ensures
        joined_dim0(parts.take(count)) <= joined_dim0(parts),
    decreases parts.len(),
{
    if count < parts.len() {
        assert(parts.drop_last().take(count) =~= parts.take(count));
        lemma_joined_dim0_prefix(parts.drop_last(), count);
    } else {
        assert(parts.take(count) =~= parts);
    }
}

/// A row of a well-formed matrix lies inside its backing sequence.
proof fn lemma_row_in_range<T>(part: Grid<T>, row: int)
    requires
        part.wf(),
        0 <= row < part.dim1,
    ensures
        0 <= row * part.dim0,
        (row + 1) * part.dim0 == row * part.dim0 + part.dim0,
        (row + 1) * part.dim0 <= part.cells.len(),
        row_of(part, row).len() == part.dim0,
{
    let d0 = part.dim0 as int;
    let d1 = part.dim1 as int;
    assert(0 <= row * d0) by (nonlinear_arith)
        requires
            0 <= row,
            0 <= d0,
    ;
    assert((row + 1) * d0 == row * d0 + d0) by (nonlinear_arith);
    assert((row + 1) * d0 <= d0 * d1) by (nonlinear_arith)
        requires
            row + 1 <= d1,
            0 <= d0,
    ;
}

/// A joined row has as many cells as the first dimensions add up to.
pub proof fn lemma_joined_row_len<T>(parts: Seq<Grid<T>>, dim1: nat, row: int)
    requires
        forall|k: int| 0 <= k < parts.len() ==> (#[trigger] parts[k]).wf() && parts[k].dim1 == dim1,
        0 <= row < dim1,
    ensures
        joined_row(parts, row).len() == joined_dim0(parts),
    decreases parts.len(),
{
    if parts.len() > 0 {
        let rest = parts.drop_last();
        assert forall|k: int| 0 <= k < rest.len() implies (#[trigger] rest[k]).wf() && rest[k].dim1
            == dim1 by {
            assert(rest[k] == parts[k]);
        }
        lemma_joined_row_len(rest, dim1, row);
        assert(parts.last().wf() && parts.last().dim1 == dim1);
        lemma_row_in_range(parts.last(), row);
    }
}

/// The joined rows take as many cells as the dimensions of the joined matrix
/// ask for.
pub proof fn lemma_joined_wf<T>(parts: Seq<Grid<T>>, dim1: nat, rows: nat)
    requires
        forall|k: int| 0 <= k < parts.len() ==> (#[trigger] parts[k]).wf() && parts[k].dim1 == dim1,
        rows <= dim1,
    ensures
        joined_cells(parts, rows).len() == joined_dim0(parts) * rows,
    decreases rows,
{
    if rows > 0 {
        lemma_joined_wf(parts, dim1, (rows - 1) as nat);
        lemma_joined_row_len(parts, dim1, rows - 1);
        assert(joined_dim0(parts) * rows == joined_dim0(parts) * (rows - 1) + joined_dim0(parts))
            by (nonlinear_arith);
    } else {
        assert(joined_dim0(parts) * 0 == 0);
    }
}

/// Cell by cell: the cell at `[col, row]` of part `j` is the cell of the
/// joined matrix at `[start + col, row]`, where `start` is the sum of the first
/// dimensions of the parts before `j`.
pub proof fn lemma_joined_at<T>(parts: Seq<Grid<T>>, dim1: nat, j: int, col: int, row: int)
    requires
        forall|k: int| 0 <= k < parts.len() ==> (#[trigger] parts[k]).wf() && parts[k].dim1 == dim1,
        0 <= j < parts.len(),
        parts[j].has(col, row),
    ensures
        ({
            let whole = Grid {
                dim0: joined_dim0(parts),
                dim1,
                cells: joined_cells(parts, dim1),
            };
            let start = joined_dim0(parts.take(j));
            whole.wf() && whole.has(start + col, row) && whole.at(start + col, row) == parts[j].at(
                col,
                row,
            )
        }),
{
    let width = joined_dim0(parts);
    let start = joined_dim0(parts.take(j));
    lemma_joined_wf(parts, dim1, dim1);
    lemma_joined_wf(parts, dim1, (row + 1) as nat);
    lemma_joined_wf(parts, dim1, row as nat);
    lemma_joined_row_len(parts, dim1, row);
    lemma_joined_row_at(parts, dim1, j, col, row);
    lemma_joined_cells_prefix(parts, dim1, (row + 1) as nat, dim1);
    assert(width * row == row * width) by (nonlinear_arith);
    assert(start + col < width);
    lemma_offset_in_range(width, dim1, start + col, row);
    let k = start + col + row * width;
    assert(joined_cells(parts, dim1)[k] == joined_cells(parts, (row + 1) as nat)[k]);
    assert(joined_cells(parts, (row + 1) as nat)[k] == joined_row(parts, row)[start + col]);
}

/// In a joined row, the cells of part `j` start where the first dimensions of
/// the parts before it add up to.
proof fn lemma_joined_row_at<T>(parts: Seq<Grid<T>>, dim1: nat, j: int, col: int, row: int)
    requires
        forall|k: int| 0 <= k < parts.len() ==> (#[trigger] parts[k]).wf() && parts[k].dim1 == dim1,
        0 <= j < parts.len(),
        parts[j].has(col, row),
    ensures
        joined_dim0(parts.take(j)) + col < joined_dim0(parts),
        joined_row(parts, row).len() == joined_dim0(parts),
        joined_row(parts, row)[joined_dim0(parts.take(j)) + col] == parts[j].at(col, row),
    decreases parts.len(),
{
    let rest = parts.drop_last();
    let last = parts.last();
    assert forall|k: int| 0 <= k < rest.len() implies (#[trigger] rest[k]).wf() && rest[k].dim1
        == dim1 by {
        assert(rest[k] == parts[k]);
    }
    lemma_joined_row_len(parts, dim1, row);
    lemma_joined_row_len(rest, dim1, row);
    assert(last.wf() && last.dim1 == dim1);
    lemma_row_in_range(last, row);
    if j < parts.len() - 1 {
        lemma_joined_row_at(rest, dim1, j, col, row);
        assert(rest.take(j) =~= parts.take(j));
        assert(rest[j] == parts[j]);
    } else {
        assert(parts.take(j) =~= rest);
        assert(row * last.dim0 + col == col + row * last.dim0);
    }
}

/// The first rows of the joined cells stay where they are when more rows
/// follow.
proof fn lemma_joined_cells_prefix<T>(parts: Seq<Grid<T>>, dim1: nat, rows: nat, more: nat)
    requires
        forall|k: int| 0 <= k < parts.len() ==> (#[trigger] parts[k]).wf() && parts[k].dim1 == dim1,
        rows <= more <= dim1,
    ensures
        joined_cells(parts, rows).len() <= joined_cells(parts, more).len(),
        forall|k: int|
            0 <= k < joined_cells(parts, rows).len() ==> joined_cells(parts, more)[k]
                == joined_cells(parts, rows)[k],
    decreases more - rows,
{
    if rows < more {
        lemma_joined_cells_prefix(parts, dim1, rows, (more - 1) as nat);
    }
}

/// Joins matrices that agree on their second dimension: the result has the
/// first dimensions added up, and each of its rows is made of the rows of the
/// matrices, in their order.
pub fn cbind<T: Copy>(matrices: &[&MatrixBuf<T>]) -> (out: MatrixBuf<T>)
    requires
        matrices@.len() > 0,
        forall|j: int|
            0 <= j < matrices@.len() ==> (#[trigger] matrices@[j])@.dim1 == matrices@[0]@.dim1,
        joined_dim0(grids(matrices@)) <= usize::MAX,
    ensures
        out@.wf(),
        out@.dim0 == joined_dim0(grids(matrices@)),
        out@.dim1 == matrices@[0]@.dim1,
        out@.cells == joined_cells(grids(matrices@), matrices@[0]@.dim1),
{
    let ghost parts = grids(matrices@);
    let dim1: usize = matrices[0].dim()[1];
    let mut dim0: usize = 0;
    let mut j: usize = 0;
    assert(parts.take(0) =~= Seq::<Grid<T>>::empty());
    while j < matrices.len()
        invariant
            j <= matrices@.len(),
            parts == grids(matrices@),
            joined_dim0(parts) <= usize::MAX,
            dim0 == joined_dim0(parts.take(j as int)),
        decreases matrices@.len() - j,
    {
        proof {
            assert(parts.take(j + 1).drop_last() =~= parts.take(j as int));
            assert(parts.take(j + 1).last() == matrices@[j as int]@);
            lemma_joined_dim0_prefix(parts, j + 1);
        }
        dim0 += matrices[j].dim()[0];
        j += 1;
    }
    assert(parts.take(j as int) =~= parts);
    let mut cells: Vec<T> = Vec::new();
    let mut row_i: usize = 0;
    while row_i < dim1
        invariant
            row_i <= dim1,
            parts == grids(matrices@),
            dim1 == matrices@[0]@.dim1,
            dim0 == joined_dim0(parts),
            forall|j: int|
                0 <= j < matrices@.len() ==> (#[trigger] matrices@[j])@.dim1 == matrices@[0]@.dim1,
            cells@ == joined_cells(parts, row_i as nat),
            cells@.len() == dim0 * row_i,
        decreases dim1 - row_i,
    {
        let ghost rows_done = cells@;
        let mut j: usize = 0;
        assert(parts.take(0) =~= Seq::<Grid<T>>::empty());
        while j < matrices.len()
            invariant
                j <= matrices@.len(),
                row_i < dim1,
                parts == grids(matrices@),
                dim1 == matrices@[0]@.dim1,
                forall|j: int|
                    0 <= j < matrices@.len() ==> (#[trigger] matrices@[j])@.dim1
                        == matrices@[0]@.dim1,
                cells@ == rows_done + joined_row(parts.take(j as int), row_i as int),
                joined_row(parts.take(j as int), row_i as int).len() == joined_dim0(
                    parts.take(j as int),
                ),
            decreases matrices@.len() - j,
        {
            let part = matrices[j];
            let part_dim = part.dim();
            let ghost row_start = cells@;
            proof {
                assert(parts.take(j + 1).drop_last() =~= parts.take(j as int));
                assert(parts.take(j + 1).last() == part@);
                lemma_row_in_range(part@, row_i as int);
            }
            let mut inner_col_i: usize = 0;
            while inner_col_i < part_dim[0]
                invariant
                    inner_col_i <= part_dim[0],
                    row_i < dim1,
                    part@.wf(),
                    part_dim[0] == part@.dim0,
                    part@.dim1 == dim1,
                    0 <= row_i * part@.dim0,
                    (row_i + 1) * part@.dim0 == row_i * part@.dim0 + part@.dim0,
                    (row_i + 1) * part@.dim0 <= part@.cells.len(),
                    cells@ == row_start + part@.cells.subrange(
                        row_i * part@.dim0,
                        row_i * part@.dim0 + inner_col_i,
                    ),
                decreases part_dim[0] - inner_col_i,
            {
                cells.push(entry(part, [inner_col_i, row_i]));
                inner_col_i += 1;
                assert(cells@ =~= row_start + part@.cells.subrange(
                    row_i * part@.dim0,
                    row_i * part@.dim0 + inner_col_i,
                ));
            }
            assert(cells@ =~= rows_done + joined_row(parts.take(j + 1), row_i as int));
            j += 1;
        }
        assert(parts.take(j as int) =~= parts);
        proof {
            assert(dim0 * (row_i + 1) == dim0 * row_i + dim0) by (nonlinear_arith);
        }
        row_i += 1;
    }
    MatrixBuf::from_parts([dim0, dim1], cells)
}

} // verus!
