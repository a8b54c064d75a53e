use rmath::vector::constructor::SeqParams;
use rmath::vector::{c, rep, RepParams};

#[test]
fn constructor_basics() {
    let x = rmath::vector::constructor::seq(SeqParams { start: 1, end: 20, step: 2 });
    let y = rep(RepParams { value: 3, times: 4 });
    let z = c(&[&y, &x]);
    assert_eq!(z, [3, 3, 3, 3, 1, 3, 5, 7, 9, 11, 13, 15, 17, 19]);

    let x = rmath::vector::constructor::seq(SeqParams { start: 0.1, end: 0.9, step: 0.1 });
    assert_eq!(x.len(), 9);
}

#[test]
fn test_set() {
    let mut a = rmath::vector::constructor::seq(SeqParams { start: 1, end: 2, step: 1 });
    rmath::vector::set(&mut a, 0..1, &[0], || 0);
    assert_eq!(a, [0, 2]);
    rmath::vector::set(&mut a, 3..4, &[3], || 0);
    assert_eq!(a, [0, 2, 0, 3]);
}

#[test]
fn seq_is_empty_when_start_is_behind_end() {
    let x: Vec<i32> = rmath::vector::constructor::seq(SeqParams { start: 5, end: 4, step: 1 });
    assert!(x.is_empty());
}

#[test]
fn seq_stops_at_last_term_within_end() {
    let x = rmath::vector::constructor::seq(SeqParams { start: 10u8, end: 200, step: 60 });
    assert_eq!(x, [10, 70, 130, 190]);
}

#[test]
fn seq_params_from_half_open_range() {
    let params = SeqParams::from_range(1..7, 1);
    assert_eq!(params.start, 1);
    assert_eq!(params.end, 6);
    assert_eq!(params.step, 1);
    assert_eq!(rmath::vector::constructor::seq(params), [1, 2, 3, 4, 5, 6]);
}

#[test]
fn rep_zero_times_is_empty() {
    let y: Vec<u8> = rep(RepParams { value: 3, times: 0 });
    assert!(y.is_empty());
}

#[test]
fn c_keeps_order_and_skips_empty_parts() {
    let none: [i32; 0] = [];
    assert_eq!(c(&[&[1, 2][..], &none[..], &[3][..]]), [1, 2, 3]);
    let nothing: [&[i32]; 0] = [];
    assert!(c(&nothing).is_empty());
}

#[test]
fn set_writes_cyclically_inside() {
    let mut a = vec![0, 0, 0, 0, 0, 0];
    rmath::vector::set(&mut a, 1..5, &[7, 8], || 0);
    assert_eq!(a, [0, 7, 8, 7, 8, 0]);
}

#[test]
fn set_is_cut_at_the_end_when_it_starts_inside() {
    let mut a = vec![1, 2, 3];
    rmath::vector::set(&mut a, 2..6, &[7, 8], || 0);
    assert_eq!(a, [1, 2, 7]);
}

#[test]
fn set_fills_the_gap_when_it_starts_behind() {
    let mut a = vec![1];
    rmath::vector::set(&mut a, 3..5, &[7, 8], || 9);
    assert_eq!(a, [1, 9, 9, 7, 8]);
}

#[test]
fn set_with_empty_range_at_the_end_changes_nothing() {
    let mut a = vec![1, 2];
    let none: [i32; 0] = [];
    rmath::vector::set(&mut a, 2..2, &none, || 9);
    assert_eq!(a, [1, 2]);
}
