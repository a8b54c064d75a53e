use rmath::matrix::ops::t;
use rmath::matrix::{
    cbind, diag, entry, entry_index, entry_mut, layout, matrix, rbind, submatrix, FillOrdering,
    MatrixDisplay, SubmatrixAxis,
};
use rmath::vector::constructor::SeqParams;

fn ints(start: i32, end: i32) -> Vec<i32> {
    rmath::vector::constructor::seq(SeqParams { start, end, step: 1 })
}

#[test]
fn matrix_constructor_basics() {
    let a = &[0, 1];
    let b = matrix(a, [2, 3], FillOrdering::RowByRow);
    assert_eq!(b.data(), [0, 1, 0, 1, 0, 1]);
    let c = matrix(a, [3, 2], FillOrdering::ColByCol);
    assert_eq!(c.data(), [0, 0, 0, 1, 1, 1]);
    let d = diag(a, 0);
    assert_eq!(d.data(), [0, 0, 0, 1]);
    let e = rbind(&[&b, &d]);
    assert_eq!(e.dim(), [2, 5]);
    assert_eq!(e.data(), [0, 1, 0, 1, 0, 1, 0, 0, 0, 1]);
    let f = cbind(&[&c, &d]);
    assert_eq!(f.dim(), [5, 2]);
    assert_eq!(f.data(), [0, 0, 0, 0, 0, 1, 1, 1, 0, 1]);
}

#[test]
fn test_submatrix() {
    let a = ints(1, 6);
    let mut a = matrix(&a, [3, 2], FillOrdering::RowByRow);
    *entry_mut(&mut a, [2, 0]) = 0;
    println!("{}", MatrixDisplay::new(&a).to_string());
    let b = submatrix(
        &a,
        &[
            SubmatrixAxis::At(rmath::vector::constructor::seq(SeqParams {
                start: 1,
                end: 2,
                step: 1,
            })),
            SubmatrixAxis::All,
        ],
    );
    println!("{}", MatrixDisplay::new(&b).to_string());
    assert_eq!(a.data(), [1, 2, 0, 4, 5, 6]);
    assert_eq!(MatrixDisplay::new(&a).to_string(), "1 2 0\n4 5 6\n");
    assert_eq!(b.dim(), [2, 2]);
    assert_eq!(b.data(), [2, 0, 5, 6]);
    assert_eq!(MatrixDisplay::new(&b).to_string(), "2 0\n5 6\n");
}

#[test]
fn test_t() {
    let a = matrix(&ints(1, 6), [3, 2], FillOrdering::RowByRow);
    let b = t(&a);
    assert_eq!(b.dim(), [2, 3]);
    assert_eq!(b.data(), [1, 4, 2, 5, 3, 6]);
}

#[test]
fn fill_orderings_differ() {
    let a = &[0, 1];
    assert_eq!(matrix(a, [2, 3], FillOrdering::RowByRow).data(), [0, 1, 0, 1, 0, 1]);
    assert_eq!(matrix(a, [2, 3], FillOrdering::ColByCol).data(), [0, 1, 1, 0, 0, 1]);
    assert_eq!(matrix(a, [3, 2], FillOrdering::ColByCol).data(), [0, 0, 0, 1, 1, 1]);
    let b = matrix(&ints(1, 6), [2, 3], FillOrdering::ColByCol);
    assert_eq!(b.data(), [1, 4, 2, 5, 3, 6]);
    assert_eq!(entry(&b, [0, 0]), 1);
    assert_eq!(entry(&b, [0, 1]), 2);
    assert_eq!(entry(&b, [0, 2]), 3);
    assert_eq!(entry(&b, [1, 0]), 4);
}

#[test]
fn matrix_with_a_zero_dimension_is_empty() {
    let a = matrix(&[1], [0, 3], FillOrdering::RowByRow);
    assert_eq!(a.dim(), [0, 3]);
    assert!(a.data().is_empty());
    let a = matrix(&[1], [3, 0], FillOrdering::ColByCol);
    assert_eq!(a.dim(), [3, 0]);
    assert!(a.data().is_empty());
    assert_eq!(t(&a).dim(), [0, 3]);
    assert_eq!(MatrixDisplay::new(&a).to_string(), "");
}

#[test]
fn entry_offset_is_col_plus_row_times_first_dimension() {
    assert_eq!(entry_index([0, 0], [3, 2]), 0);
    assert_eq!(entry_index([2, 0], [3, 2]), 2);
    assert_eq!(entry_index([0, 1], [3, 2]), 3);
    assert_eq!(entry_index([2, 1], [3, 2]), 5);
    let a = matrix(&ints(1, 6), [3, 2], FillOrdering::RowByRow);
    assert_eq!(entry(&a, [2, 1]), 6);
    assert_eq!(entry(&a, [1, 0]), 2);
}

#[test]
fn entry_mut_changes_one_cell() {
    let mut a = matrix(&[0], [2, 2], FillOrdering::RowByRow);
    *entry_mut(&mut a, [1, 0]) = 7;
    *entry_mut(&mut a, [0, 1]) += 3;
    assert_eq!(a.data(), [0, 7, 3, 0]);
    assert_eq!(a.dim(), [2, 2]);
}

#[test]
fn diag_of_one_element() {
    let d = diag(&[5], 0);
    assert_eq!(d.dim(), [1, 1]);
    assert_eq!(d.data(), [5]);
    let d = diag(&[1, 2, 3], 0);
    assert_eq!(d.dim(), [3, 3]);
    assert_eq!(d.data(), [1, 0, 0, 0, 2, 0, 0, 0, 3]);
}

#[test]
fn transpose_twice_is_the_matrix() {
    for dim in [[1, 1], [3, 2], [2, 3], [1, 6], [6, 1], [0, 4]] {
        let a = matrix(&ints(1, 6), dim, FillOrdering::RowByRow);
        let back = t(&t(&a));
        assert_eq!(back.dim(), a.dim());
        assert_eq!(back.data(), a.data());
    }
}

#[test]
fn submatrix_repeats_and_reorders() {
    let a = matrix(&ints(1, 6), [3, 2], FillOrdering::RowByRow);
    let b = submatrix(&a, &[SubmatrixAxis::At(vec![2, 0, 2]), SubmatrixAxis::At(vec![1, 1])]);
    assert_eq!(b.dim(), [3, 2]);
    assert_eq!(b.data(), [6, 4, 6, 6, 4, 6]);
    let all = submatrix(&a, &[SubmatrixAxis::All, SubmatrixAxis::All]);
    assert_eq!(all.dim(), a.dim());
    assert_eq!(all.data(), a.data());
    let none = submatrix(&a, &[SubmatrixAxis::At(vec![]), SubmatrixAxis::All]);
    assert_eq!(none.dim(), [0, 2]);
    assert!(none.data().is_empty());
}

#[test]
fn stacking_adds_along_one_dimension() {
    let a = matrix(&ints(1, 6), [2, 3], FillOrdering::RowByRow);
    let b = matrix(&ints(7, 10), [2, 2], FillOrdering::RowByRow);
    let r = rbind(&[&a, &b]);
    assert_eq!(r.dim(), [2, 5]);
    assert_eq!(r.data(), [1, 2, 3, 4, 5, 6, 7, 8, 9, 10]);
    let a = t(&a);
    let b = t(&b);
    let c = cbind(&[&a, &b]);
    assert_eq!(c.dim(), [5, 2]);
    assert_eq!(c.data(), [1, 3, 5, 7, 9, 2, 4, 6, 8, 10]);
    assert_eq!(rbind(&[&a]).data(), a.data());
    assert_eq!(cbind(&[&a]).data(), a.data());
}

#[test]
fn layout_aligns_columns_to_the_right() {
    let a = matrix(&[1, -20, 300, 4000, 5, 6], [3, 2], FillOrdering::RowByRow);
    assert_eq!(MatrixDisplay::new(&a).to_string(), "   1 -20 300\n4000   5   6\n");
    let texts = rmath::matrix::ops::map(&a, |x: i32| x.to_string());
    assert_eq!(layout(&texts), "   1 -20 300\n4000   5   6\n");
    let words = ["a".to_string(), "bcd".to_string()];
    let texts = matrix(&[0usize, 1], [1, 2], FillOrdering::RowByRow);
    let texts = rmath::matrix::ops::map(&texts, |i: usize| words[i].clone());
    assert_eq!(layout(&texts), "  a\nbcd\n");
}

#[test]
fn layout_measures_width_in_bytes() {
    let words = ["é".to_string(), "ab".to_string(), "x".to_string(), "y".to_string()];
    let texts = matrix(&[0usize, 1, 2, 3], [2, 2], FillOrdering::RowByRow);
    let texts = rmath::matrix::ops::map(&texts, |i: usize| words[i].clone());
    assert_eq!(layout(&texts), " é ab\n x  y\n");
}

#[test]
fn element_wise_operations_on_matrices() {
    let a = matrix(&ints(1, 6), [3, 2], FillOrdering::RowByRow);
    let b = matrix(&[10, 20, 30], [3, 1], FillOrdering::RowByRow);
    let sum = rmath::matrix::ops::add(&a, &b);
    assert_eq!(sum.dim(), [3, 2]);
    assert_eq!(sum.data(), [11, 22, 33, 14, 25, 36]);
    let sum = rmath::matrix::ops::add(&b, &a);
    assert_eq!(sum.dim(), [3, 2]);
    assert_eq!(sum.data(), [11, 22, 33, 14, 25, 36]);
    assert_eq!(rmath::matrix::ops::sub(&a, &a).data(), [0, 0, 0, 0, 0, 0]);
    assert_eq!(rmath::matrix::ops::mul(&a, &b).data(), [10, 40, 90, 40, 100, 180]);
    assert_eq!(rmath::matrix::ops::div(&b, &a).data(), [10, 10, 10, 2, 4, 5]);
    assert_eq!(rmath::matrix::ops::modulo(&a, &b).data(), [1, 2, 3, 4, 5, 6]);
    assert_eq!(rmath::matrix::ops::neg(&b).data(), [-10, -20, -30]);
    let two = matrix(&[2], [1, 1], FillOrdering::RowByRow);
    let small = rmath::matrix::ops::lt(&a, &two);
    assert_eq!(small.dim(), [3, 2]);
    assert_eq!(small.data(), [true, false, false, false, false, false]);
    assert_eq!(
        rmath::matrix::ops::gt(&a, &two).data(),
        [false, false, true, true, true, true]
    );
    assert_eq!(
        rmath::matrix::ops::eq(&a, &two).data(),
        [false, true, false, false, false, false]
    );
    assert_eq!(
        rmath::matrix::ops::neq(&a, &two).data(),
        [true, false, true, true, true, true]
    );
    let big = rmath::matrix::ops::not(&small);
    assert_eq!(big.data(), [false, true, true, true, true, true]);
    assert_eq!(rmath::matrix::ops::and(&small, &big).data(), [false; 6]);
    assert_eq!(rmath::matrix::ops::or(&small, &big).data(), [true; 6]);
    assert_eq!(rmath::matrix::ops::xor(&small, &small).data(), [false; 6]);
    let real = rmath::matrix::ops::map(&a, |x: i32| x as f64 / 2.);
    assert_eq!(real.dim(), [3, 2]);
    assert_eq!(real.data(), [0.5, 1., 1.5, 2., 2.5, 3.]);
}

#[test]
fn matrices_of_different_dimensions_are_not_equal() {
    let distance = |a: f64, b: f64| (a - b).abs();
    let params = rmath::vector::AllEqParams {
        tolerance: 10e-7,
        scale: rmath::vector::all_eq_no_scale(),
    };
    let a = matrix(&[1., 2., 3., 4., 5., 6.], [3, 2], FillOrdering::RowByRow);
    let b = matrix(&[1., 2., 3., 4., 5., 6.], [2, 3], FillOrdering::RowByRow);
    assert!(!rmath::matrix::ops::all_eq(&a, &b, &params, distance, 3.5, 6., 0.));
    assert!(rmath::matrix::ops::all_eq(&a, &a, &params, distance, 3.5, 6., 0.));
    let c = matrix(&[1., 2., 3., 4., 5., 6.5], [3, 2], FillOrdering::RowByRow);
    assert!(!rmath::matrix::ops::all_eq(&a, &c, &params, distance, 3.5, 6., 0.));
}
