use rmath::property::{CalcChoose, CalcFactorial};
use rmath::vector::ops::{all_eq_no_scale, auto_scale, mean, AllEqParams};

#[derive(Debug, Clone, Copy)]
struct Real(f64);

impl CalcFactorial for Real {
    fn factorial_req(&self) -> bool {
        unreachable!()
    }
    fn factorial_spec(&self) -> Self {
        unreachable!()
    }
    fn factorial(&self) -> Self {
        Real(statrs::function::gamma::gamma(self.0 + 1.))
    }
}

impl CalcChoose for Real {
    fn binomial_req(&self, _r: Self) -> bool {
        unreachable!()
    }
    fn binomial_spec(&self, _r: Self) -> Self {
        unreachable!()
    }
    fn binomial(&self, r: Self) -> Self {
        Real(self.factorial().0 / (r.factorial().0 * Real(self.0 - r.0).factorial().0))
    }
}

fn all_eq(a: &[f64], b: &[f64], params: &AllEqParams<f64>) -> bool {
    let len = a.len() as f64;
    let mean_abs = mean(&rmath::vector::ops::map(a, |x: f64| x.abs()), len, 0.);
    let auto = auto_scale(mean_abs, mean_abs.is_finite(), params.tolerance, 1.);
    let distance = |a: f64, b: f64| (a - b).abs();
    rmath::vector::ops::all_eq(a, b, params, distance, auto, len, 0.)
}

#[test]
fn test_choose() {
    assert_eq!(4.binomial(2), 6);
    assert!(all_eq(
        &[Real(4.).binomial(Real(2.)).0],
        &[6.],
        &AllEqParams { tolerance: 10e-7, scale: all_eq_no_scale() }
    ));
    assert_eq!(6.binomial(4), 15);
    assert!(all_eq(
        &[Real(6.).binomial(Real(4.)).0],
        &[15.],
        &AllEqParams { tolerance: 10e-7, scale: all_eq_no_scale() }
    ));
}

#[test]
fn factorial_of_small_numbers() {
    assert_eq!(0u8.factorial(), 1);
    assert_eq!(1u8.factorial(), 1);
    assert_eq!(5u8.factorial(), 120);
    assert_eq!(5i8.factorial(), 120);
    assert_eq!(12i32.factorial(), 479001600);
    assert_eq!(20usize.factorial(), 2432902008176640000);
    assert_eq!(34u128.factorial(), 295232799039604140847618609643520000000);
}

#[test]
fn factorial_of_a_negative_number_is_one() {
    assert_eq!((-3i32).factorial(), 1);
    assert_eq!(i8::MIN.factorial(), 1);
}

#[test]
fn binomial_edges() {
    assert_eq!(5u32.binomial(0), 1);
    assert_eq!(5u32.binomial(5), 1);
    assert_eq!(5u32.binomial(1), 5);
    assert_eq!(0u32.binomial(0), 1);
    assert_eq!(10i16.binomial(3), 120);
    assert_eq!(10i16.binomial(-1), 1);
    assert_eq!((-1i16).binomial(-3), 1);
    assert_eq!(30u128.binomial(15), 155117520);
}
