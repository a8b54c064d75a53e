//! Matrices as text, in lines of right-aligned columns.

use crate::matrix::{entry_index, Grid, MatrixBuf};
use crate::vector::ops::{lemma_mod_step, wrapping_incr};
use vstd::prelude::*;
use vstd::string::{StrSliceExecFns, StringExecFns};
use vstd::utf8::encode_utf8;

verus! {

/// The number of bytes that a text takes in memory.
pub open spec fn stored_len(text: Seq<char>) -> usize {
    encode_utf8(text).len() as usize
}

/// The width of column `col` over the first `rows` rows: the stored length of
/// its longest cell.
pub open spec fn column_width(texts: Seq<Seq<char>>, dim0: nat, rows: nat, col: int) -> usize
    decreases rows,
{
    if rows == 0 {
        0
    } else {
        let above = column_width(texts, dim0, (rows - 1) as nat, col);
        let here = stored_len(texts[col + (rows - 1) * dim0]);
        if above < here {
            here
        } else {
            above
        }
    }
}

/// `count` spaces.
pub open spec fn padding(count: nat) -> Seq<char> {
    Seq::new(count, |i: int| ' ')
}

/// The cell at offset `k` as it is written: a separating space unless it is
/// first in its line, spaces up to the width of its column, its text, and a
/// line end if it is last in its line.
pub open spec fn laid_cell(texts: Seq<Seq<char>>, dim0: nat, dim1: nat, k: int) -> Seq<char> {
    let col = k % (dim0 as int);
    let width = column_width(texts, dim0, dim1, col);
    let text = texts[k];
    let lead = if col > 0 {
        seq![' ']
    } else {
        Seq::empty()
    };
    let pad = padding(
        if width > text.len() {
            (width - text.len()) as nat
        } else {
            0
        },
    );
    let end = if col + 1 == dim0 {
        seq!['\n']
    } else {
        Seq::empty()
    };
    lead + pad + text + end
}

/// The first `count` cells as they are written, one after the other.
pub open spec fn laid_out(texts: Seq<Seq<char>>, dim0: nat, dim1: nat, count: nat) -> Seq<char>
    decreases count,
{
    if count == 0 {
        Seq::empty()
    } else {
        laid_out(texts, dim0, dim1, (count - 1) as nat) + laid_cell(texts, dim0, dim1, count - 1)
    }
}

/// The texts of a sequence of strings.
pub open spec fn texts_of(cells: Seq<String>) -> Seq<Seq<char>> {
    cells.map_values(|cell: String| cell@)
}

/// Writes a matrix of texts as lines of right-aligned columns.
pub fn layout(texts: &MatrixBuf<String>) -> (out: String)
    ensures
        out@ == laid_out(
            texts_of(texts@.cells),
            texts@.dim0,
            texts@.dim1,
            texts@.cells.len(),
        ),
{
    let dim = texts.dim();
    let cells = texts.data();
    let ghost model = texts_of(cells@);
    let ghost d0 = dim[0] as nat;
    let ghost d1 = dim[1] as nat;
    let mut col_len: Vec<usize> = Vec::new();
    while col_len.len() < dim[0]
        invariant
            col_len@.len() <= dim[0],
            forall|c: int| 0 <= c < col_len@.len() ==> col_len@[c] == 0,
        decreases dim[0] - col_len@.len(),
    {
        col_len.push(0);
    }
    let mut row_i: usize = 0;
    while row_i < dim[1]
        invariant
            d0 == dim[0],
            d1 == dim[1],
            row_i <= dim[1],
            dim[0] * dim[1] <= usize::MAX,
            col_len@.len() == d0,
            cells@.len() == d0 * d1,
            model == texts_of(cells@),
            forall|c: int|
                0 <= c < d0 ==> #[trigger] col_len@[c] == column_width(model, d0, row_i as nat, c),
        decreases dim[1] - row_i,
    {
        let mut col_i: usize = 0;
        while col_i < dim[0]
            invariant
                d0 == dim[0],
                d1 == dim[1],
                row_i < dim[1],
                col_i <= dim[0],
                dim[0] * dim[1] <= usize::MAX,
                col_len@.len() == d0,
                cells@.len() == d0 * d1,
                model == texts_of(cells@),
                forall|c: int|
                    0 <= c < col_i ==> #[trigger] col_len@[c] == column_width(
                        model,
                        d0,
                        (row_i + 1) as nat,
                        c,
                    ),
                forall|c: int|
                    col_i <= c < d0 ==> #[trigger] col_len@[c] == column_width(
                        model,
                        d0,
                        row_i as nat,
                        c,
                    ),
            decreases dim[0] - col_i,
        {
            let offset = entry_index([col_i, row_i], dim);
            let here = cells[offset].as_str().len();
            assert(here == stored_len(model[col_i + row_i * d0]));
            if col_len[col_i] < here {
                col_len.set(col_i, here);
            }
            assert(col_len@[col_i as int] == column_width(
                model,
                d0,
                (row_i + 1) as nat,
                col_i as int,
            ));
            col_i += 1;
        }
        row_i += 1;
    }
    let mut out = String::new();
    let mut col_i: usize = 0;
    let mut k: usize = 0;
    proof {
        if d0 > 0 {
            vstd::arithmetic::div_mod::lemma_small_mod(0, d0);
        }
    }
    while k < cells.len()
        invariant
            d0 == dim[0],
            d1 == dim[1],
            k <= cells@.len(),
            col_len@.len() == d0,
            cells@.len() == d0 * d1,
            model == texts_of(cells@),
            d0 > 0 ==> col_i == (k as int) % (d0 as int),
            forall|c: int|
                0 <= c < d0 ==> #[trigger] col_len@[c] == column_width(model, d0, d1, c),
            out@ == laid_out(model, d0, d1, k as nat),
        decreases cells@.len() - k,
    {
        proof {
            assert(d0 > 0) by (nonlinear_arith)
                requires
                    k < d0 * d1,
            ;
            lemma_mod_step(k as int, d0 as int);
        }
        let ghost before = out@;
        let text = cells[k].as_str();
        assert(text@ == model[k as int]);
        if 0 < col_i {
            proof {
                reveal_strlit(" ");
            }
            out.append(" ");
            assert(out@ =~= before + seq![' ']);
        } else {
            assert(out@ =~= before + Seq::<char>::empty());
        }
        let ghost led = out@;
        let width = col_len[col_i];
        let shown = text.unicode_len();
        let mut filled: usize = shown;
        while filled < width
            invariant
                shown <= filled,
                shown < width ==> filled <= width,
                shown >= width ==> filled == shown,
                out@ == led + padding((filled - shown) as nat),
            decreases width - filled,
        {
            proof {
                reveal_strlit(" ");
            }
            out.append(" ");
            filled += 1;
            assert(out@ =~= led + padding((filled - shown) as nat));
        }
        let ghost pad = padding(
            if width > shown {
                (width - shown) as nat
            } else {
                0
            },
        );
        assert(out@ =~= led + pad);
        out.append(text);
        let ghost written = out@;
        assert(written == led + pad + text@);
        col_i = wrapping_incr(col_i, dim[0]);
        if col_i == 0 {
            proof {
                reveal_strlit("\n");
            }
            out.append("\n");
            assert(out@ =~= written + seq!['\n']);
        } else {
            assert(out@ =~= written + Seq::<char>::empty());
        }
        proof {
            assert(out@ =~= before + laid_cell(model, d0, d1, k as int));
        }
        k += 1;
    }
    out
}

/// A matrix to be written as text.
pub struct MatrixDisplay<'a, T> {
    matrix: &'a MatrixBuf<T>,
}

impl<'a, T> View for MatrixDisplay<'a, T> {
    type V = Grid<T>;

    closed spec fn view(&self) -> Grid<T> {
        self.matrix@
    }
}

/// `texts` holds, for each cell, a text that writing the cell can give.
pub open spec fn written<T: core::fmt::Display>(cells: Seq<T>, texts: Seq<String>) -> bool {
    &&& texts.len() == cells.len()
    &&& forall|i: int|
        0 <= i < cells.len() ==> vstd::string::to_string_from_display_ensures::<T>(
            &cells[i],
            #[trigger] texts[i],
        )
}

impl<'a, T> MatrixDisplay<'a, T> {
    /// Takes the matrix to be written.
    pub fn new(matrix: &'a MatrixBuf<T>) -> (out: Self)
        ensures
            out@ == matrix@,
    {
        MatrixDisplay { matrix }
    }
}

impl<'a, T: Copy + core::fmt::Display> MatrixDisplay<'a, T> {
    /// Writes each cell and lays the texts out as lines of right-aligned
    /// columns.
    pub fn to_string(&self) -> (out: String)
        ensures
            exists|texts: Seq<String>|
                {
                    &&& written(self@.cells, texts)
                    &&& out@ == laid_out(
                        texts_of(texts),
                        self@.dim0,
                        self@.dim1,
                        self@.cells.len(),
                    )
                },
    {
        let dim = self.matrix.dim();
        let cells = self.matrix.data();
        let mut texts: Vec<String> = Vec::with_capacity(cells.len());
        let mut k: usize = 0;
        while k < cells.len()
            invariant
                k <= cells@.len(),
                texts@.len() == k,
                forall|i: int|
                    0 <= i < k ==> vstd::string::to_string_from_display_ensures::<T>(
                        &cells@[i],
                        #[trigger] texts@[i],
                    ),
            decreases cells@.len() - k,
        {
            let cell = cells[k];
            texts.push(cell.to_string());
            k += 1;
        }
        let ghost shown = texts@;
        let texts = MatrixBuf::from_parts(dim, texts);
        let out = layout(&texts);
        assert(written(self@.cells, shown));
        out
    }
}

} // verus!
