//! Operations on matrices: the transpose, and the cell-wise operations, which
//! work on the backing sequences.

use crate::matrix::{entry, lemma_offset_in_range, lemma_transposed_twice, Grid, MatrixBuf};
use crate::property::{comparison_known, greater, less};
use crate::vector::ops::{
    all_pairs, distances, error_defined, error_known, recyclable, recycled_len, scaled_error,
    zipped, AllEqParams,
};
use core::ops::{Add, Div, Mul, Neg, Rem, Sub};
use vstd::prelude::*;
use vstd::std_specs::cmp::PartialEqSpec;
use vstd::std_specs::ops::{AddSpec, DivSpec, MulSpec, NegSpec, RemSpec, SubSpec};

verus! {

/// The matrix with the two dimensions swapped, as a copy: its cell at
/// `[row, col]` is the cell at `[col, row]` of `input`.
pub fn t<T: Copy>(input: &MatrixBuf<T>) -> (out: MatrixBuf<T>)
    ensures
        out@.wf(),
        out@ == input@.transposed(),
        out@.transposed() == input@,
{
    let dim = input.dim();
    let ghost d0 = dim[0] as nat;
    let ghost d1 = dim[1] as nat;
    let mut cells: Vec<T> = Vec::new();
    let mut col_i: usize = 0;
    while col_i < dim[0]
        invariant
            col_i <= dim[0],
            d0 == dim[0],
            d1 == dim[1],
            input@.dim0 == d0,
            input@.dim1 == d1,
            cells@.len() == d1 * col_i,
            forall|k: int|
                0 <= k < cells@.len() ==> #[trigger] cells@[k] == input@.at(
                    k / (d1 as int),
                    k % (d1 as int),
                ),
        decreases dim[0] - col_i,
    {
        let mut row_i: usize = 0;
        while row_i < dim[1]
            invariant
                col_i < dim[0],
                row_i <= dim[1],
                d0 == dim[0],
                d1 == dim[1],
                input@.dim0 == d0,
                input@.dim1 == d1,
                cells@.len() == d1 * col_i + row_i,
                forall|k: int|
                    0 <= k < cells@.len() ==> #[trigger] cells@[k] == input@.at(
                        k / (d1 as int),
                        k % (d1 as int),
                    ),
            decreases dim[1] - row_i,
        {
            proof {
                assert(d1 * col_i == col_i * d1) by (nonlinear_arith);
                lemma_offset_in_range(d1, d0, row_i as int, col_i as int);
            }
            cells.push(entry(input, [col_i, row_i]));
            row_i += 1;
        }
        proof {
            assert(d1 * (col_i + 1) == d1 * col_i + d1) by (nonlinear_arith);
        }
        col_i += 1;
    }
    proof {
        assert(d1 * d0 == d0 * d1) by (nonlinear_arith);
    }
    let out = MatrixBuf::from_parts([dim[1], dim[0]], cells);
    proof {
        assert(out@.cells =~= input@.transposed().cells);
        lemma_transposed_twice(input@);
    }
    out
}

/// The larger of two dimensions.
pub open spec fn larger(a: nat, b: nat) -> nat {
    if a >= b {
        a
    } else {
        b
    }
}

/// Two matrices can be combined cell by cell: neither is empty, and each
/// dimension of one is a multiple of the same dimension of the other.
pub open spec fn shapes_combine<A, B>(a: Grid<A>, b: Grid<B>) -> bool {
    &&& a.wf() && b.wf()
    &&& a.dim0 > 0 && a.dim1 > 0 && b.dim0 > 0 && b.dim1 > 0
    &&& (a.dim0 % b.dim0 == 0 && a.dim1 % b.dim1 == 0) || (b.dim0 % a.dim0 == 0 && b.dim1
        % a.dim1 == 0)
}

/// Tells whether matrices of dimensions `a` and `b` can be combined cell by
/// cell.
pub fn can_combine(a: [usize; 2], b: [usize; 2]) -> (ok: bool)
    ensures
        ok == ({
            &&& a[0] > 0 && a[1] > 0 && b[0] > 0 && b[1] > 0
            &&& (a[0] % b[0] == 0 && a[1] % b[1] == 0) || (b[0] % a[0] == 0 && b[1] % a[1] == 0)
        }),
{
    a[0] > 0 && a[1] > 0 && b[0] > 0 && b[1] > 0 && ((a[0] % b[0] == 0 && a[1] % b[1] == 0) || (
    b[0] % a[0] == 0 && b[1] % a[1] == 0))
}

/// A product of multiples is a multiple of the product, and not below it.
proof fn lemma_multiple_product(a0: nat, a1: nat, b0: nat, b1: nat)
    requires
        b0 > 0,
        b1 > 0,
        a0 > 0,
        a1 > 0,
        a0 % b0 == 0,
        a1 % b1 == 0,
    ensures
        b0 <= a0,
        b1 <= a1,
        b0 * b1 > 0,
        b0 * b1 <= a0 * a1,
        (a0 * a1) % (b0 * b1) == 0,
{
    let q0 = (a0 / b0) as int;
    let q1 = (a1 / b1) as int;
    vstd::arithmetic::div_mod::lemma_fundamental_div_mod(a0 as int, b0 as int);
    vstd::arithmetic::div_mod::lemma_fundamental_div_mod(a1 as int, b1 as int);
    assert(q0 >= 1 && q1 >= 1) by (nonlinear_arith)
        requires
            a0 == b0 * q0,
            a1 == b1 * q1,
            a0 > 0,
            a1 > 0,
            b0 > 0,
            b1 > 0,
    ;
    assert(b0 <= a0 && b1 <= a1 && b0 * b1 > 0 && b0 * b1 <= a0 * a1 && a0 * a1 == (q0 * q1) * (
    b0 * b1)) by (nonlinear_arith)
        requires
            a0 == b0 * q0,
            a1 == b1 * q1,
            q0 >= 1,
            q1 >= 1,
            b0 > 0,
            b1 > 0,
    ;
    vstd::arithmetic::div_mod::lemma_mod_multiples_basic(q0 * q1, (b0 * b1) as int);
}

/// Matrices that can be combined have backing sequences that can be
/// recycled, and the combination fills the larger dimensions.
pub proof fn lemma_shapes_combine<A, B>(a: Grid<A>, b: Grid<B>)
    requires
        shapes_combine(a, b),
    ensures
        recyclable(a.cells.len(), b.cells.len()),
        recycled_len(a.cells.len(), b.cells.len()) == larger(a.dim0, b.dim0) * larger(
            a.dim1,
            b.dim1,
        ),
{
    if a.dim0 % b.dim0 == 0 && a.dim1 % b.dim1 == 0 {
        lemma_multiple_product(a.dim0, a.dim1, b.dim0, b.dim1);
    } else {
        lemma_multiple_product(b.dim0, b.dim1, a.dim0, a.dim1);
    }
}

/// Applies a vector operation to the cells of a matrix; the dimensions stay.
pub fn elem_op1<A, B, F: Fn(&[A]) -> Vec<B>>(input: &MatrixBuf<A>, vec_op: F) -> (out: MatrixBuf<
    B,
>)
    requires
        forall|x: &[A]| x@ == input@.cells ==> call_requires(vec_op, (x,)),
        forall|x: &[A], z: Vec<B>|
            x@ == input@.cells && call_ensures(vec_op, (x,), z) ==> z@.len() == x@.len(),
    ensures
        out@.wf(),
        out@.dim0 == input@.dim0,
        out@.dim1 == input@.dim1,
        exists|x: &[A], z: Vec<B>|
            x@ == input@.cells && call_ensures(vec_op, (x,), z) && out@.cells == z@,
{
    let dim = input.dim();
    let cells = input.data();
    let data = vec_op(cells);
    MatrixBuf::from_parts(dim, data)
}

/// Applies a recycling vector operation to the cells of two matrices; each
/// dimension of the result is the larger of the two.
pub fn elem_op2<A, B, C, F: Fn(&[A], &[B]) -> Vec<C>>(
    a: &MatrixBuf<A>,
    b: &MatrixBuf<B>,
    vec_op: F,
) -> (out: MatrixBuf<C>)
    requires
        shapes_combine(a@, b@),
        forall|x: &[A], y: &[B]|
            x@ == a@.cells && y@ == b@.cells ==> call_requires(vec_op, (x, y)),
        forall|x: &[A], y: &[B], z: Vec<C>|
            x@ == a@.cells && y@ == b@.cells && call_ensures(vec_op, (x, y), z) ==> z@.len()
                == recycled_len(x@.len(), y@.len()),
    ensures
        out@.wf(),
        out@.dim0 == larger(a@.dim0, b@.dim0),
        out@.dim1 == larger(a@.dim1, b@.dim1),
        exists|x: &[A], y: &[B], z: Vec<C>|
            x@ == a@.cells && y@ == b@.cells && call_ensures(vec_op, (x, y), z) && out@.cells
                == z@,
{
    let a_dim = a.dim();
    let b_dim = b.dim();
    let data = vec_op(a.data(), b.data());
    let dim0 = if a_dim[0] >= b_dim[0] {
        a_dim[0]
    } else {
        b_dim[0]
    };
    let dim1 = if a_dim[1] >= b_dim[1] {
        a_dim[1]
    } else {
        b_dim[1]
    };
    proof {
        lemma_shapes_combine(a@, b@);
    }
    MatrixBuf::from_parts([dim0, dim1], data)
}

/// Applies `fmap` to each cell; the dimensions stay.
pub fn map<A: Copy, B, F: Fn(A) -> B>(matrix: &MatrixBuf<A>, fmap: F) -> (out: MatrixBuf<B>)
    requires
        forall|i: int|
            0 <= i < matrix@.cells.len() ==> call_requires(fmap, (#[trigger] matrix@.cells[i],)),
    ensures
        out@.wf(),
        out@.dim0 == matrix@.dim0,
        out@.dim1 == matrix@.dim1,
        out@.cells.len() == matrix@.cells.len(),
        forall|i: int|
            0 <= i < matrix@.cells.len() ==> call_ensures(
                fmap,
                (matrix@.cells[i],),
                #[trigger] out@.cells[i],
            ),
{
    let dim = matrix.dim();
    let data = crate::vector::ops::map(matrix.data(), fmap);
    MatrixBuf::from_parts(dim, data)
}

/// Cell-wise negation.
pub fn neg<T: Copy + Neg<Output = T>>(matrix: &MatrixBuf<T>) -> (out: MatrixBuf<T>)
    requires
        forall|i: int| 0 <= i < matrix@.cells.len() ==> (#[trigger] matrix@.cells[i]).neg_req(),
    ensures
        out@.wf(),
        out@.dim0 == matrix@.dim0,
        out@.dim1 == matrix@.dim1,
        T::obeys_neg_spec() ==> out@.cells == matrix@.cells.map_values(|x: T| x.neg_spec()),
{
    let vec_op = |x: &[T]| -> (z: Vec<T>)
        requires
            forall|i: int| 0 <= i < x@.len() ==> (#[trigger] x@[i]).neg_req(),
        ensures
            z@.len() == x@.len(),
            T::obeys_neg_spec() ==> z@ == x@.map_values(|x: T| x.neg_spec()),
        { crate::vector::ops::neg(x) };
    elem_op1(matrix, vec_op)
}

/// Cell-wise logical negation.
pub fn not(matrix: &MatrixBuf<bool>) -> (out: MatrixBuf<bool>)
    ensures
        out@.wf(),
        out@.dim0 == matrix@.dim0,
        out@.dim1 == matrix@.dim1,
        out@.cells == matrix@.cells.map_values(|x: bool| !x),
{
    let vec_op = |x: &[bool]| -> (z: Vec<bool>)
        ensures
            z@ == x@.map_values(|x: bool| !x),
        { crate::vector::ops::not(x) };
    elem_op1(matrix, vec_op)
}

/// Cell-wise sum, with recycling.
pub fn add<T: Copy + Add<Output = T>>(a: &MatrixBuf<T>, b: &MatrixBuf<T>) -> (out: MatrixBuf<T>)
    requires
        shapes_combine(a@, b@),
        all_pairs(a@.cells, b@.cells, |x: T, y: T| x.add_req(y)),
    ensures
        out@.wf(),
        out@.dim0 == larger(a@.dim0, b@.dim0),
        out@.dim1 == larger(a@.dim1, b@.dim1),
        T::obeys_add_spec() ==> out@.cells == zipped(
            a@.cells,
            b@.cells,
            |x: T, y: T| x.add_spec(y),
        ),
{
    let vec_op = |x: &[T], y: &[T]| -> (z: Vec<T>)
        requires
            recyclable(x@.len(), y@.len()),
            all_pairs(x@, y@, |x: T, y: T| x.add_req(y)),
        ensures
            z@.len() == recycled_len(x@.len(), y@.len()),
            T::obeys_add_spec() ==> z@ == zipped(x@, y@, |x: T, y: T| x.add_spec(y)),
        { crate::vector::ops::add(x, y) };
    proof {
        lemma_shapes_combine(a@, b@);
    }
    elem_op2(a, b, vec_op)
}

/// Cell-wise difference, with recycling.
pub fn sub<T: Copy + Sub<Output = T>>(a: &MatrixBuf<T>, b: &MatrixBuf<T>) -> (out: MatrixBuf<T>)
    requires
        shapes_combine(a@, b@),
        all_pairs(a@.cells, b@.cells, |x: T, y: T| x.sub_req(y)),
    ensures
        out@.wf(),
        out@.dim0 == larger(a@.dim0, b@.dim0),
        out@.dim1 == larger(a@.dim1, b@.dim1),
        T::obeys_sub_spec() ==> out@.cells == zipped(
            a@.cells,
            b@.cells,
            |x: T, y: T| x.sub_spec(y),
        ),
{
    let vec_op = |x: &[T], y: &[T]| -> (z: Vec<T>)
        requires
            recyclable(x@.len(), y@.len()),
            all_pairs(x@, y@, |x: T, y: T| x.sub_req(y)),
        ensures
            z@.len() == recycled_len(x@.len(), y@.len()),
            T::obeys_sub_spec() ==> z@ == zipped(x@, y@, |x: T, y: T| x.sub_spec(y)),
        { crate::vector::ops::sub(x, y) };
    proof {
        lemma_shapes_combine(a@, b@);
    }
    elem_op2(a, b, vec_op)
}

/// Cell-wise product, with recycling.
pub fn mul<T: Copy + Mul<Output = T>>(a: &MatrixBuf<T>, b: &MatrixBuf<T>) -> (out: MatrixBuf<T>)
    requires
        shapes_combine(a@, b@),
        all_pairs(a@.cells, b@.cells, |x: T, y: T| x.mul_req(y)),
    ensures
        out@.wf(),
        out@.dim0 == larger(a@.dim0, b@.dim0),
        out@.dim1 == larger(a@.dim1, b@.dim1),
        T::obeys_mul_spec() ==> out@.cells == zipped(
            a@.cells,
            b@.cells,
            |x: T, y: T| x.mul_spec(y),
        ),
{
    let vec_op = |x: &[T], y: &[T]| -> (z: Vec<T>)
        requires
            recyclable(x@.len(), y@.len()),
            all_pairs(x@, y@, |x: T, y: T| x.mul_req(y)),
        ensures
            z@.len() == recycled_len(x@.len(), y@.len()),
            T::obeys_mul_spec() ==> z@ == zipped(x@, y@, |x: T, y: T| x.mul_spec(y)),
        { crate::vector::ops::mul(x, y) };
    proof {
        lemma_shapes_combine(a@, b@);
    }
    elem_op2(a, b, vec_op)
}

/// Cell-wise quotient, with recycling.
pub fn div<T: Copy + Div<Output = T>>(a: &MatrixBuf<T>, b: &MatrixBuf<T>) -> (out: MatrixBuf<T>)
    requires
        shapes_combine(a@, b@),
        all_pairs(a@.cells, b@.cells, |x: T, y: T| x.div_req(y)),
    ensures
        out@.wf(),
        out@.dim0 == larger(a@.dim0, b@.dim0),
        out@.dim1 == larger(a@.dim1, b@.dim1),
        T::obeys_div_spec() ==> out@.cells == zipped(
            a@.cells,
            b@.cells,
            |x: T, y: T| x.div_spec(y),
        ),
{
    let vec_op = |x: &[T], y: &[T]| -> (z: Vec<T>)
        requires
            recyclable(x@.len(), y@.len()),
            all_pairs(x@, y@, |x: T, y: T| x.div_req(y)),
        ensures
            z@.len() == recycled_len(x@.len(), y@.len()),
            T::obeys_div_spec() ==> z@ == zipped(x@, y@, |x: T, y: T| x.div_spec(y)),
        { crate::vector::ops::div(x, y) };
    proof {
        lemma_shapes_combine(a@, b@);
    }
    elem_op2(a, b, vec_op)
}

/// Cell-wise remainder, with recycling.
pub fn modulo<T: Copy + Rem<Output = T>>(a: &MatrixBuf<T>, b: &MatrixBuf<T>) -> (out: MatrixBuf<T>)
    requires
        shapes_combine(a@, b@),
        all_pairs(a@.cells, b@.cells, |x: T, y: T| x.rem_req(y)),
    ensures
        out@.wf(),
        out@.dim0 == larger(a@.dim0, b@.dim0),
        out@.dim1 == larger(a@.dim1, b@.dim1),
        T::obeys_rem_spec() ==> out@.cells == zipped(
            a@.cells,
            b@.cells,
            |x: T, y: T| x.rem_spec(y),
        ),
{
    let vec_op = |x: &[T], y: &[T]| -> (z: Vec<T>)
        requires
            recyclable(x@.len(), y@.len()),
            all_pairs(x@, y@, |x: T, y: T| x.rem_req(y)),
        ensures
            z@.len() == recycled_len(x@.len(), y@.len()),
            T::obeys_rem_spec() ==> z@ == zipped(x@, y@, |x: T, y: T| x.rem_spec(y)),
        { crate::vector::ops::modulo(x, y) };
    proof {
        lemma_shapes_combine(a@, b@);
    }
    elem_op2(a, b, vec_op)
}

/// Cell-wise `<`, with recycling.
pub fn lt<T: Copy + PartialOrd>(a: &MatrixBuf<T>, b: &MatrixBuf<T>) -> (out: MatrixBuf<bool>)
    requires
        shapes_combine(a@, b@),
    ensures
        out@.wf(),
        out@.dim0 == larger(a@.dim0, b@.dim0),
        out@.dim1 == larger(a@.dim1, b@.dim1),
        comparison_known::<T>() ==> out@.cells == zipped(
            a@.cells,
            b@.cells,
            |x: T, y: T| less(x, y),
        ),
{
    let vec_op = |x: &[T], y: &[T]| -> (z: Vec<bool>)
        requires
            recyclable(x@.len(), y@.len()),
        ensures
            z@.len() == recycled_len(x@.len(), y@.len()),
            comparison_known::<T>() ==> z@ == zipped(x@, y@, |x: T, y: T| less(x, y)),
        { crate::vector::ops::lt(x, y) };
    proof {
        lemma_shapes_combine(a@, b@);
    }
    elem_op2(a, b, vec_op)
}

/// Cell-wise `>`, with recycling.
pub fn gt<T: Copy + PartialOrd>(a: &MatrixBuf<T>, b: &MatrixBuf<T>) -> (out: MatrixBuf<bool>)
    requires
        shapes_combine(a@, b@),
    ensures
        out@.wf(),
        out@.dim0 == larger(a@.dim0, b@.dim0),
        out@.dim1 == larger(a@.dim1, b@.dim1),
        comparison_known::<T>() ==> out@.cells == zipped(
            a@.cells,
            b@.cells,
            |x: T, y: T| greater(x, y),
        ),
{
    let vec_op = |x: &[T], y: &[T]| -> (z: Vec<bool>)
        requires
            recyclable(x@.len(), y@.len()),
        ensures
            z@.len() == recycled_len(x@.len(), y@.len()),
            comparison_known::<T>() ==> z@ == zipped(x@, y@, |x: T, y: T| greater(x, y)),
        { crate::vector::ops::gt(x, y) };
    proof {
        lemma_shapes_combine(a@, b@);
    }
    elem_op2(a, b, vec_op)
}

/// Cell-wise `==`, with recycling.
pub fn eq<T: Copy + PartialEq>(a: &MatrixBuf<T>, b: &MatrixBuf<T>) -> (out: MatrixBuf<bool>)
    requires
        shapes_combine(a@, b@),
    ensures
        out@.wf(),
        out@.dim0 == larger(a@.dim0, b@.dim0),
        out@.dim1 == larger(a@.dim1, b@.dim1),
        T::obeys_eq_spec() ==> out@.cells == zipped(a@.cells, b@.cells, |x: T, y: T| x.eq_spec(&y)),
{
    let vec_op = |x: &[T], y: &[T]| -> (z: Vec<bool>)
        requires
            recyclable(x@.len(), y@.len()),
        ensures
            z@.len() == recycled_len(x@.len(), y@.len()),
            T::obeys_eq_spec() ==> z@ == zipped(x@, y@, |x: T, y: T| x.eq_spec(&y)),
        { crate::vector::ops::eq(x, y) };
    proof {
        lemma_shapes_combine(a@, b@);
    }
    elem_op2(a, b, vec_op)
}

/// Cell-wise `!=`, with recycling.
pub fn neq<T: Copy + PartialEq>(a: &MatrixBuf<T>, b: &MatrixBuf<T>) -> (out: MatrixBuf<bool>)
    requires
        shapes_combine(a@, b@),
    ensures
        out@.wf(),
        out@.dim0 == larger(a@.dim0, b@.dim0),
        out@.dim1 == larger(a@.dim1, b@.dim1),
        T::obeys_eq_spec() ==> out@.cells == zipped(
            a@.cells,
            b@.cells,
            |x: T, y: T| !x.eq_spec(&y),
        ),
{
    let vec_op = |x: &[T], y: &[T]| -> (z: Vec<bool>)
        requires
            recyclable(x@.len(), y@.len()),
        ensures
            z@.len() == recycled_len(x@.len(), y@.len()),
            T::obeys_eq_spec() ==> z@ == zipped(x@, y@, |x: T, y: T| !x.eq_spec(&y)),
        { crate::vector::ops::neq(x, y) };
    proof {
        lemma_shapes_combine(a@, b@);
    }
    elem_op2(a, b, vec_op)
}

/// Cell-wise disjunction, with recycling.
pub fn or(a: &MatrixBuf<bool>, b: &MatrixBuf<bool>) -> (out: MatrixBuf<bool>)
    requires
        shapes_combine(a@, b@),
    ensures
        out@.wf(),
        out@.dim0 == larger(a@.dim0, b@.dim0),
        out@.dim1 == larger(a@.dim1, b@.dim1),
        out@.cells == zipped(a@.cells, b@.cells, |x: bool, y: bool| x || y),
{
    let vec_op = |x: &[bool], y: &[bool]| -> (z: Vec<bool>)
        requires
            recyclable(x@.len(), y@.len()),
        ensures
            z@.len() == recycled_len(x@.len(), y@.len()),
            z@ == zipped(x@, y@, |x: bool, y: bool| x || y),
        { crate::vector::ops::or(x, y) };
    proof {
        lemma_shapes_combine(a@, b@);
    }
    elem_op2(a, b, vec_op)
}

/// Cell-wise conjunction, with recycling.
pub fn and(a: &MatrixBuf<bool>, b: &MatrixBuf<bool>) -> (out: MatrixBuf<bool>)
    requires
        shapes_combine(a@, b@),
    ensures
        out@.wf(),
        out@.dim0 == larger(a@.dim0, b@.dim0),
        out@.dim1 == larger(a@.dim1, b@.dim1),
        out@.cells == zipped(a@.cells, b@.cells, |x: bool, y: bool| x && y),
{
    let vec_op = |x: &[bool], y: &[bool]| -> (z: Vec<bool>)
        requires
            recyclable(x@.len(), y@.len()),
        ensures
            z@.len() == recycled_len(x@.len(), y@.len()),
            z@ == zipped(x@, y@, |x: bool, y: bool| x && y),
        { crate::vector::ops::and(x, y) };
    proof {
        lemma_shapes_combine(a@, b@);
    }
    elem_op2(a, b, vec_op)
}

/// Cell-wise exclusive disjunction, with recycling.
pub fn xor(a: &MatrixBuf<bool>, b: &MatrixBuf<bool>) -> (out: MatrixBuf<bool>)
    requires
        shapes_combine(a@, b@),
    ensures
        out@.wf(),
        out@.dim0 == larger(a@.dim0, b@.dim0),
        out@.dim1 == larger(a@.dim1, b@.dim1),
        out@.cells == zipped(a@.cells, b@.cells, |x: bool, y: bool| x != y),
{
    let vec_op = |x: &[bool], y: &[bool]| -> (z: Vec<bool>)
        requires
            recyclable(x@.len(), y@.len()),
        ensures
            z@.len() == recycled_len(x@.len(), y@.len()),
            z@ == zipped(x@, y@, |x: bool, y: bool| x != y),
        { crate::vector::ops::xor(x, y) };
    proof {
        lemma_shapes_combine(a@, b@);
    }
    elem_op2(a, b, vec_op)
}

/// Whether two matrices are equal up to a tolerance. Matrices of different
/// dimensions are not; those of the same dimensions are where their backing
/// sequences are.
pub fn all_eq<
    T: Copy + PartialOrd + Add<Output = T> + Mul<Output = T> + Div<Output = T>,
    F: Fn(T, T) -> T,
>(
    a: &MatrixBuf<T>,
    b: &MatrixBuf<T>,
    params: &AllEqParams<T>,
    distance: F,
    auto: T,
    len: T,
    zero: T,
) -> (equal: bool)
    requires
        a@.dim0 == b@.dim0 && a@.dim1 == b@.dim1 ==> {
            &&& a@.cells.len() > 0
            &&& recyclable(a@.cells.len(), params.scale_or(auto).len())
            &&& forall|i: int|
                0 <= i < a@.cells.len() ==> call_requires(
                    distance,
                    (#[trigger] a@.cells[i], b@.cells[i]),
                )
            &&& forall|d: Seq<T>| #[trigger]
                distances(a@.cells, b@.cells, distance, d) ==> error_defined(
                    d,
                    params.scale_or(auto),
                    len,
                    zero,
                )
        },
    ensures
        !(a@.dim0 == b@.dim0 && a@.dim1 == b@.dim1) ==> !equal,
        a@.dim0 == b@.dim0 && a@.dim1 == b@.dim1 ==> exists|d: Seq<T>|
            {
                &&& #[trigger] distances(a@.cells, b@.cells, distance, d)
                &&& error_known::<T>() ==> equal == less(
                    scaled_error(d, params.scale_or(auto), len, zero),
                    params.tolerance,
                )
            },
{
    let a_dim = a.dim();
    let b_dim = b.dim();
    if a_dim[0] != b_dim[0] || a_dim[1] != b_dim[1] {
        return false;
    }
    let a_cells = a.data();
    let b_cells = b.data();
    proof {
        assert(a@.cells.len() == b@.cells.len());
        vstd::arithmetic::div_mod::lemma_mod_self_0(a@.cells.len() as int);
        assert forall|i: int| 0 <= i < a@.cells.len() implies call_requires(
            distance,
            (
                #[trigger] crate::vector::ops::recycle(a@.cells, i),
                crate::vector::ops::recycle(b@.cells, i),
            ),
        ) by {
            vstd::arithmetic::div_mod::lemma_small_mod(i as nat, a@.cells.len());
        }
    }
    crate::vector::ops::all_eq(a_cells, b_cells, params, distance, auto, len, zero)
}

} // verus!
