use rmath::vector::constructor::SeqParams;
use rmath::vector::ops::{
    add, all, all_eq_no_scale, and, any, auto_scale, binomial, can_recycle, circle_zip, cumsum,
    div, eq, extend_to_len, factorial, gt, lt, modulo, mul, neg, neq, not, or, prod, sub, subset,
    sum, var, which, wrapping_incr, xor, AllEqParams,
};

fn ints(start: i32, end: i32) -> Vec<i32> {
    rmath::vector::constructor::seq(SeqParams { start, end, step: 1 })
}

fn mean(x: &[f64]) -> f64 {
    rmath::vector::ops::mean(x, x.len() as f64, 0.)
}

fn all_eq(a: &[f64], b: &[f64], params: &AllEqParams<f64>) -> bool {
    let mean_abs = mean(&rmath::vector::ops::map(a, |x: f64| x.abs()));
    let auto = auto_scale(mean_abs, mean_abs.is_finite(), params.tolerance, 1.);
    let distance = |a: f64, b: f64| (a - b).abs();
    rmath::vector::ops::all_eq(a, b, params, distance, auto, a.len() as f64, 0.)
}

fn up_to(tolerance: f64) -> AllEqParams<'static, f64> {
    AllEqParams { tolerance, scale: all_eq_no_scale() }
}

#[test]
fn ops_basics() {
    let a: &[i32] = &[1, 4];
    let b: &[i32] = &[1, 2, 3, 4];
    assert_eq!(add(a, b), &[2, 6, 4, 8]);
    assert_eq!(sub(a, b), &[0, 2, -2, 0]);
    assert_eq!(mul(a, b), &[1, 8, 3, 16]);
    assert_eq!(div(a, b), &[1, 2, 0, 1]);
    let exponents = rmath::vector::ops::map(b, |x| x as u32);
    assert_eq!(circle_zip(a, &exponents, |x: i32, y: u32| x.pow(y)), &[1, 16, 1, 256]);
    let exponents = rmath::vector::ops::map(&[1, 2], |x: i32| x as u32);
    assert_eq!(
        circle_zip(&ints(1, 10), &exponents, |x: i32, y: u32| x.pow(y)),
        &[1, 4, 3, 16, 5, 36, 7, 64, 9, 100]
    );
    assert_eq!(rmath::vector::ops::min(a), 1);
}

#[test]
fn test_mean() {
    let x = rmath::vector::ops::map(&ints(1, 6), |x| x as f32);
    let mean = rmath::vector::ops::mean(&x, x.len() as f32, 0.);
    assert_eq!(mean, 3.5);
}

#[test]
fn mean_divides_each_element_before_adding() {
    // the sum overflows to infinity, the shares do not
    let x = [f64::MAX, f64::MAX];
    assert_eq!(mean(&x), f64::MAX);
    assert!(sum(&x, 0.).is_infinite());
    // with whole numbers each share is cut before it is added
    assert_eq!(rmath::vector::ops::mean(&[4, 6], 2, 0), 5);
    assert_eq!(rmath::vector::ops::mean(&[3, 3], 2, 0), 2);
}

#[test]
fn var_is_the_sample_variance() {
    let nan = f64::NAN;
    assert_eq!(var(&[1., 2., 3., 4.], 4., 3., 0., nan), 5. / 3.);
    assert_eq!(var(&[2., 2., 2.], 3., 2., 0., nan), 0.);
    assert!(var(&[7.], 1., 0., 0., nan).is_nan());
    // with whole numbers the mean is 0 + 2, and the squares 1 and 9 add up
    assert_eq!(var(&[1, 5], 2, 1, 0, -1), 10);
}

#[test]
fn auto_scale_is_relative_unless_the_mean_is_small_or_not_finite() {
    assert_eq!(auto_scale(3., true, 1e-6, 1.), 3.);
    assert_eq!(auto_scale(1e-9, true, 1e-6, 1.), 1.);
    assert_eq!(auto_scale(1e-6, true, 1e-6, 1.), 1e-6);
    assert_eq!(auto_scale(f64::INFINITY, false, 1e-6, 1.), 1.);
    assert_eq!(auto_scale(f64::NAN, false, 1e-6, 1.), 1.);
}

#[test]
fn nan() {
    let a = &[11., f64::NAN, 13.];
    let is_nan = rmath::vector::ops::map(a, |x: f64| x.is_nan());
    assert_eq!(is_nan, &[false, true, false]);
    assert!(any(&is_nan));
    assert!(mean(a).is_nan());
    let b = subset(a, |x: f64| !x.is_nan());
    assert_eq!(mean(&b), 12.);
}

#[test]
fn bool() {
    let a = &neq(&[0], &[0, 0, 1, 1]);
    let b = &neq(&[0], &[0, 1, 0, 1]);
    assert_eq!(or(a, b), [false, true, true, true]);
    assert_eq!(xor(a, b), [false, true, true, false]);
    let x = &[1, 1, 2, 3, 5, 8, 13];
    assert_eq!(which(&eq(&modulo(x, &[2]), &[0])), [2, 5]);
}

#[test]
fn test_tolerance() {
    let sqrt2 = &rmath::vector::ops::map(&[2.], |x: f64| x.sqrt());
    let about2 = &mul(sqrt2, sqrt2);
    assert!(about2[0] != 2.);
    assert!(all_eq(
        about2,
        &[2.],
        &AllEqParams { tolerance: 10e-7, scale: all_eq_no_scale() }
    ));
}

#[test]
fn tolerance_is_an_aggregate_measure() {
    // relative: the scale is the mean of the absolute values of the first operand
    assert!(all_eq(&[1000., 1000.], &[1000.001, 1000.], &up_to(10e-7)));
    assert!(!all_eq(&[1000., 1000.], &[1000.01, 1000.], &up_to(10e-7)));
    // absolute: a mean below the tolerance gives the scale 1
    assert!(all_eq(&[0., 0.], &[1e-7, 0.], &up_to(10e-7)));
    assert!(!all_eq(&[0., 0.], &[1e-5, 0.], &up_to(10e-7)));
    // one large difference is not made up for by many exact elements
    assert!(!all_eq(&[1., 1., 1., 1.], &[1., 1., 1., 1.1], &up_to(10e-7)));
    // a given scale is taken as it is, and recycled
    let halved = AllEqParams { tolerance: 0.5, scale: Some(&[2.][..]) };
    assert!(all_eq(&[1., 2.], &[1.5, 2.5], &halved));
    let as_it_is = AllEqParams { tolerance: 0.5, scale: Some(&[1.][..]) };
    assert!(!all_eq(&[1., 2.], &[1.5, 2.5], &as_it_is));
    // one scale for each element
    let each = AllEqParams { tolerance: 0.5, scale: Some(&[1., 100.][..]) };
    assert!(all_eq(&[1., 2.], &[1., 52.], &each));
    assert!(!all_eq(&[1., 2.], &[2., 2.], &each));
    // the second operand is recycled
    assert!(all_eq(&[3., 3., 3.], &[3.], &up_to(10e-7)));
}

#[test]
fn tolerance_on_whole_numbers() {
    let distance = |a: i32, b: i32| (a - b).abs();
    let params = AllEqParams { tolerance: 3, scale: all_eq_no_scale() };
    // 40 / (1 * 2) + 0 / (1 * 2) is 20, which is not below 3
    assert!(!rmath::vector::ops::all_eq(&[50, 10], &[10], &params, distance, 1, 2, 0));
    // 4 / (1 * 2) + 0 / (1 * 2) is 2, which is
    assert!(rmath::vector::ops::all_eq(&[14, 10], &[10], &params, distance, 1, 2, 0));
    // with the scale 5: 40 / (5 * 2) is 4, and 20 / (5 * 2) is 2
    assert!(!rmath::vector::ops::all_eq(&[50], &[10], &params, distance, 5, 2, 0));
    assert!(rmath::vector::ops::all_eq(&[30], &[10], &params, distance, 5, 2, 0));
}

#[test]
fn test_cumsum() {
    assert_eq!(cumsum(&[1, 2, 3, 4, 5], 0), [1, 3, 6, 10, 15]);
}

#[test]
fn recycled_length_is_the_longer_length() {
    for (a, b) in [(1usize, 1usize), (1, 5), (5, 1), (2, 6), (6, 3), (4, 4)] {
        let x = vec![1u32; a];
        let y = vec![2u32; b];
        assert!(can_recycle(a, b));
        assert_eq!(add(&x, &y).len(), a.max(b));
    }
}

#[test]
fn lengths_that_do_not_divide_cannot_be_recycled() {
    assert!(!can_recycle(2, 3));
    assert!(!can_recycle(4, 6));
    assert!(!can_recycle(0, 3));
    assert!(!can_recycle(3, 0));
    assert!(!can_recycle(0, 0));
    assert!(can_recycle(3, 3));
    assert!(can_recycle(2, 8));
}

#[test]
fn circle_zip_walks_both_operands_cyclically() {
    let pairs = circle_zip(&[1, 2, 3, 4, 5, 6], &['a', 'b', 'c'], |x: i32, y: char| (x, y));
    assert_eq!(pairs, [(1, 'a'), (2, 'b'), (3, 'c'), (4, 'a'), (5, 'b'), (6, 'c')]);
    let pairs = circle_zip(&[true], &[7, 8], |x: bool, y: u8| (x, y));
    assert_eq!(pairs, [(true, 7), (true, 8)]);
}

#[test]
fn wrapping_incr_returns_to_zero() {
    assert_eq!(wrapping_incr(0, 3), 1);
    assert_eq!(wrapping_incr(1, 3), 2);
    assert_eq!(wrapping_incr(2, 3), 0);
    assert_eq!(wrapping_incr(0, 1), 0);
}

#[test]
fn extend_to_len_repeats_whole_copies() {
    assert_eq!(extend_to_len(&[1, 2], 6), [1, 2, 1, 2, 1, 2]);
    assert_eq!(extend_to_len(&[1, 2], 0), [0i32; 0]);
    let none: [i32; 0] = [];
    assert!(extend_to_len(&none, 0).is_empty());
}

#[test]
fn comparisons_are_element_wise() {
    assert_eq!(lt(&[1, 5, 3], &[3]), [true, false, false]);
    assert_eq!(gt(&[1, 5, 3], &[3]), [false, true, false]);
    assert_eq!(eq(&[1, 5, 3], &[3]), [false, false, true]);
    assert_eq!(neq(&[1, 5, 3], &[3]), [true, true, false]);
    assert_eq!(lt(&[1., f64::NAN], &[f64::NAN, 2.]), [false, false]);
}

#[test]
fn boolean_operations_are_element_wise() {
    let a = [false, false, true, true];
    let b = [false, true];
    assert_eq!(and(&a, &b), [false, false, false, true]);
    assert_eq!(or(&a, &b), [false, true, true, true]);
    assert_eq!(xor(&a, &b), [false, true, true, false]);
    assert_eq!(not(&a), [true, true, false, false]);
}

#[test]
fn division_and_remainder_truncate_toward_zero() {
    assert_eq!(div(&[7, -7], &[2]), [3, -3]);
    assert_eq!(modulo(&[7, -7], &[2]), [1, -1]);
}

#[test]
fn neg_negates_each_element() {
    assert_eq!(neg(&[1, -2, 0]), [-1, 2, 0]);
    assert_eq!(neg(&[1.5]), [-1.5]);
}

#[test]
fn sum_and_prod_fold_from_the_identity() {
    assert_eq!(sum(&[1, 2, 3, 4], 0), 10);
    assert_eq!(prod(&[1, 2, 3, 4], 1), 24);
    let none: [i32; 0] = [];
    assert_eq!(sum(&none, 0), 0);
    assert_eq!(prod(&none, 1), 1);
    assert_eq!(sum(&[0.5, 0.25], 0.), 0.75);
}

#[test]
fn any_and_all_on_empty_and_mixed() {
    let none: [bool; 0] = [];
    assert!(!any(&none));
    assert!(all(&none));
    assert!(any(&[false, true]));
    assert!(!all(&[false, true]));
    assert!(all(&[true, true]));
    assert!(!any(&[false, false]));
}

#[test]
fn subset_keeps_order() {
    assert_eq!(subset(&[5, 2, 8, 1, 9], |x: i32| x > 4), [5, 8, 9]);
    assert_eq!(rmath::vector::ops::map(&[1, 2, 3], |x: i32| x * 10), [10, 20, 30]);
}

#[test]
fn which_gives_positions_of_true() {
    assert_eq!(which(&[true, false, true, true]), [0, 2, 3]);
    assert_eq!(which(&[false]), [0usize; 0]);
}

#[test]
fn factorial_and_binomial_are_element_wise() {
    assert_eq!(factorial(&[0u32, 1, 2, 3, 4, 5]), [1, 1, 2, 6, 24, 120]);
    assert_eq!(binomial(&[4, 6, 5], &[2, 4, 0]), [6, 15, 1]);
    assert_eq!(binomial(&[5u8], &[0, 1, 2, 3, 4, 5]), [1, 5, 10, 10, 5, 1]);
}

fn is_prime(n: usize) -> bool {
    if n < 2 {
        return false;
    }
    let mut d = 2;
    while d * d <= n {
        if n % d == 0 {
            return false;
        }
        d += 1;
    }
    true
}

#[test]
fn prime_density_by_cumulative_sum() {
    let x = rmath::vector::constructor::seq(SeqParams { start: 2usize, end: 1000, step: 1 });
    let is_prime = rmath::vector::ops::map(&x, is_prime);
    let prime = cumsum(&rmath::vector::ops::map(&is_prime, |x| x as usize), 0);
    assert_eq!(prime[100 - 2], 25);
    assert_eq!(prime[1000 - 2], 168);
    let as_real = |v: &[usize]| rmath::vector::ops::map(v, |x| x as f64);
    let density = div(&as_real(&prime), &as_real(&x));
    assert_eq!(density.len(), 999);
    assert_eq!(density[0], 0.5);
    assert_eq!(density[100 - 2], 0.25);
    assert!(density[1000 - 2] < density[100 - 2]);
}
