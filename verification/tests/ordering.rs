use rmath::property::IsOrd;
use rmath::vector::ops::{max, min, pmax, pmin, sort};

#[derive(Debug, Clone, Copy, PartialEq, PartialOrd)]
struct Real(f32);

impl IsOrd for Real {
    fn always_ord_spec() -> bool {
        unreachable!()
    }
    fn is_ord_spec(&self) -> bool {
        unreachable!()
    }
    fn always_ord() -> bool {
        false
    }
    fn is_ord(&self) -> bool {
        !self.0.is_nan()
    }
}

#[test]
fn not_finite() {
    let x = [Real(1.), Real(f32::NAN)];
    assert!(min(&x).0.is_nan());
    let x = [Real(1.), Real(-f32::INFINITY)];
    assert_eq!(min(&x), Real(-f32::INFINITY));
    let x = [Real(1.), Real(f32::INFINITY)];
    assert_eq!(max(&x), Real(f32::INFINITY));
    let x = [Real(1.), Real(f32::INFINITY), Real(f32::INFINITY)];
    assert_eq!(sort(&x), [Real(1.), Real(f32::INFINITY), Real(f32::INFINITY)]);
}

#[test]
fn test_sqrt() {
    let x = rmath::vector::constructor::seq(rmath::vector::constructor::SeqParams {
        start: 1,
        end: 6,
        step: 1,
    });
    let x = rmath::vector::ops::map(&x, |x: i32| x as f32);
    let sqrt = rmath::vector::ops::map(&x, |x: f32| x.sqrt());
    #[allow(clippy::approx_constant)]
    let y: &[f32] = &[1., 1.414214, 1.732051, 2., 2.236068, 2.44949];
    let d = rmath::vector::ops::sub(&sqrt, y);
    let d = rmath::vector::ops::map(&d, |x: f32| Real(x.abs()));
    let max = max(&d).0;
    assert!(max < 0.001);
}

#[test]
fn sort_drops_what_is_not_ordered() {
    let x = [Real(11.), Real(f32::NAN), Real(13.)];
    assert_eq!(sort(&x), [Real(11.), Real(13.)]);
    let x = [Real(f32::NAN), Real(3.), Real(f32::NAN), Real(-1.), Real(2.)];
    assert_eq!(sort(&x), [Real(-1.), Real(2.), Real(3.)]);
}

#[test]
fn sort_keeps_every_integer() {
    assert_eq!(sort(&[3, 1, 2, 3, 1, -7, 0]), [-7, 0, 1, 1, 2, 3, 3]);
    assert_eq!(sort(&[5u8]), [5]);
    let none: [i32; 0] = [];
    assert!(sort(&none).is_empty());
    let many: Vec<u32> = (0..1000).map(|i| (i * 7919) % 1000).collect();
    let sorted = sort(&many);
    assert_eq!(sorted.len(), many.len());
    assert_eq!(sorted, (0..1000).collect::<Vec<u32>>());
}

#[test]
fn first_unordered_value_wins() {
    let x = [Real(5.), Real(f32::NAN), Real(1.)];
    assert!(min(&x).0.is_nan());
    assert!(max(&x).0.is_nan());
}

#[test]
fn min_and_max_of_integers() {
    assert_eq!(min(&[3, 1, 2, 1]), 1);
    assert_eq!(max(&[3, 1, 2, 3]), 3);
    assert_eq!(min(&[7u8]), 7);
    assert_eq!(max(&[7u8]), 7);
}

#[test]
fn ties_keep_the_earlier_element() {
    #[derive(Debug, Clone, Copy)]
    struct Tagged(i32, char);
    impl PartialEq for Tagged {
        fn eq(&self, other: &Self) -> bool {
            self.0 == other.0
        }
    }
    impl PartialOrd for Tagged {
        fn partial_cmp(&self, other: &Self) -> Option<std::cmp::Ordering> {
            self.0.partial_cmp(&other.0)
        }
    }
    impl IsOrd for Tagged {
        fn always_ord_spec() -> bool {
            unreachable!()
        }
        fn is_ord_spec(&self) -> bool {
            unreachable!()
        }
        fn always_ord() -> bool {
            true
        }
        fn is_ord(&self) -> bool {
            true
        }
    }
    let x = [Tagged(2, 'a'), Tagged(1, 'b'), Tagged(1, 'c'), Tagged(2, 'd')];
    assert_eq!(min(&x).1, 'b');
    assert_eq!(max(&x).1, 'a');
}

#[test]
fn parallel_min_and_max() {
    let a: &[i32] = &[3, 1, 2];
    let b: &[i32] = &[9];
    assert_eq!(pmin(&[a, b]), [1, 9]);
    assert_eq!(pmax(&[a, b]), [3, 9]);
}

#[test]
fn integers_are_always_ordered() {
    assert!(<i32 as IsOrd>::always_ord());
    assert!(<u128 as IsOrd>::always_ord());
    assert!(0usize.is_ord());
    assert!((-1i8).is_ord());
    assert!(!Real::always_ord());
}
