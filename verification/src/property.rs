//! What a numeric kind can do: whether its values are always ordered, and
//! its factorial and binomial coefficient.

use core::cmp::Ordering;
use vstd::prelude::*;
use vstd::std_specs::cmp::PartialOrdSpec;

verus! {

/// `a` is strictly below `b` in the order of the kind.
pub open spec fn less<T: PartialOrd>(a: T, b: T) -> bool {
    a.partial_cmp_spec(&b) == Some(Ordering::Less)
}

/// `a` is strictly above `b` in the order of the kind.
pub open spec fn greater<T: PartialOrd>(a: T, b: T) -> bool {
    a.partial_cmp_spec(&b) == Some(Ordering::Greater)
}

/// `a` is below `b` or equal to it in the order of the kind.
pub open spec fn at_most<T: PartialOrd>(a: T, b: T) -> bool {
    a.partial_cmp_spec(&b) == Some(Ordering::Less) || a.partial_cmp_spec(&b) == Some(
        Ordering::Equal,
    )
}

/// Comparing two values of the kind gives what `less`, `greater` and
/// `at_most` say.
pub open spec fn comparison_known<T: PartialOrd>() -> bool {
    T::obeys_partial_cmp_spec()
}

/// A relation that orders values like a ranking: nothing is below itself,
/// being below carries over, and so does not being below.
pub open spec fn ranks<T>(below: spec_fn(T, T) -> bool) -> bool {
    &&& forall|a: T| !#[trigger] below(a, a)
    &&& forall|a: T, b: T, c: T| #[trigger] below(a, b) && #[trigger] below(b, c) ==> below(a, c)
    &&& forall|a: T, b: T, c: T|
        !#[trigger] below(a, b) && !#[trigger] below(b, c) ==> !below(a, c)
}

/// The order of the kind is known and ranks its values.
pub open spec fn strict_weak_order<T: PartialOrd>() -> bool {
    comparison_known::<T>() && ranks(|a: T, b: T| less(a, b))
}

/// A numeric kind says whether all its values are ordered, and of each value
/// whether it is.
pub trait IsOrd: Sized {
    /// Whether every value of the kind is ordered.
    spec fn always_ord_spec() -> bool;

    /// Whether this value is ordered.
    spec fn is_ord_spec(&self) -> bool;

    /// Tells whether every value of the kind is ordered.
    fn always_ord() -> (always: bool)
        ensures
            always == Self::always_ord_spec(),
    ;

    /// Tells whether this value is ordered.
    fn is_ord(&self) -> (ordered: bool)
        ensures
            ordered == self.is_ord_spec(),
    ;
}

impl IsOrd for u8 {
    open spec fn always_ord_spec() -> bool {
        true
    }

    open spec fn is_ord_spec(&self) -> bool {
        true
    }

    fn always_ord() -> (always: bool) {
        true
    }

    fn is_ord(&self) -> (ordered: bool) {
        true
    }
}

impl IsOrd for i8 {
    open spec fn always_ord_spec() -> bool {
        true
    }

    open spec fn is_ord_spec(&self) -> bool {
        true
    }

    fn always_ord() -> (always: bool) {
        true
    }

    fn is_ord(&self) -> (ordered: bool) {
        true
    }
}

impl IsOrd for u16 {
    open spec fn always_ord_spec() -> bool {
        true
    }

    open spec fn is_ord_spec(&self) -> bool {
        true
    }

    fn always_ord() -> (always: bool) {
        true
    }

    fn is_ord(&self) -> (ordered: bool) {
        true
    }
}

impl IsOrd for i16 {
    open spec fn always_ord_spec() -> bool {
        true
    }

    open spec fn is_ord_spec(&self) -> bool {
        true
    }

    fn always_ord() -> (always: bool) {
        true
    }

    fn is_ord(&self) -> (ordered: bool) {
        true
    }
}

impl IsOrd for u32 {
    open spec fn always_ord_spec() -> bool {
        true
    }

    open spec fn is_ord_spec(&self) -> bool {
        true
    }

    fn always_ord() -> (always: bool) {
        true
    }

    fn is_ord(&self) -> (ordered: bool) {
        true
    }
}

impl IsOrd for i32 {
    open spec fn always_ord_spec() -> bool {
        true
    }

    open spec fn is_ord_spec(&self) -> bool {
        true
    }

    fn always_ord() -> (always: bool) {
        true
    }

    fn is_ord(&self) -> (ordered: bool) {
        true
    }
}

impl IsOrd for u128 {
    open spec fn always_ord_spec() -> bool {
        true
    }

    open spec fn is_ord_spec(&self) -> bool {
        true
    }

    fn always_ord() -> (always: bool) {
        true
    }

    fn is_ord(&self) -> (ordered: bool) {
        true
    }
}

impl IsOrd for i128 {
    open spec fn always_ord_spec() -> bool {
        true
    }

    open spec fn is_ord_spec(&self) -> bool {
        true
    }

    fn always_ord() -> (always: bool) {
        true
    }

    fn is_ord(&self) -> (ordered: bool) {
        true
    }
}

impl IsOrd for usize {
    open spec fn always_ord_spec() -> bool {
        true
    }

    open spec fn is_ord_spec(&self) -> bool {
        true
    }

    fn always_ord() -> (always: bool) {
        true
    }

    fn is_ord(&self) -> (ordered: bool) {
        true
    }
}

impl IsOrd for isize {
    open spec fn always_ord_spec() -> bool {
        true
    }

    open spec fn is_ord_spec(&self) -> bool {
        true
    }

    fn always_ord() -> (always: bool) {
        true
    }

    fn is_ord(&self) -> (ordered: bool) {
        true
    }
}

/// The factorial of `n`: the product of the numbers from 1 up to `n`, which is
/// 1 where there are none.
pub open spec fn factorial_of(n: int) -> int
    decreases n,
{
    if n <= 0 {
        1
    } else {
        factorial_of(n - 1) * n
    }
}

/// The product of the numbers from `from` up to `to`, which is 1 where there
/// are none.
pub open spec fn rising(from: int, to: int) -> int
    decreases to - from + 1,
{
    if to < from {
        1
    } else {
        rising(from, to - 1) * to
    }
}

/// The number of ways to pick `r` out of `n`: the product of the `r` numbers
/// up to `n`, divided by the factorial of `r`.
pub open spec fn binomial_of(n: int, r: int) -> int {
    rising(n - r + 1, n) / factorial_of(r)
}

/// The factorial is the product of the numbers from 1.
proof fn lemma_factorial_is_rising(n: int)
    ensures
        factorial_of(n) == rising(1, n),
    decreases n,
{
    if n > 0 {
        lemma_factorial_is_rising(n - 1);
    }
}

/// A product of positive numbers is positive and grows with its last factor.
proof fn lemma_rising_grows(from: int, mid: int, to: int)
    requires
        1 <= from,
        from - 1 <= mid <= to,
    ensures
        1 <= rising(from, mid) <= rising(from, to),
    decreases to - mid,
{
    lemma_rising_positive(from, mid);
    if mid < to {
        lemma_rising_grows(from, mid, to - 1);
        assert(rising(from, to - 1) <= rising(from, to - 1) * to) by (nonlinear_arith)
            requires
                rising(from, to - 1) >= 1,
                to >= 1,
        ;
    }
}

/// A product of positive numbers is positive.
proof fn lemma_rising_positive(from: int, to: int)
    requires
        1 <= from,
    ensures
        1 <= rising(from, to),
    decreases to - from + 1,
{
    if to >= from {
        lemma_rising_positive(from, to - 1);
        assert(rising(from, to - 1) * to >= 1) by (nonlinear_arith)
            requires
                rising(from, to - 1) >= 1,
                to >= 1,
        ;
    }
}

/// Where `0 <= r <= n`, the number of ways to pick `r` out of `n` is the
/// factorial of `n` divided by those of `r` and of `n - r`.
pub proof fn lemma_binomial_by_factorials(n: int, r: int)
    requires
        0 <= r <= n,
    ensures
        binomial_of(n, r) == factorial_of(n) / (factorial_of(r) * factorial_of(n - r)),
{
    let rest = factorial_of(n - r);
    let orders = factorial_of(r);
    let top = rising(n - r + 1, n);
    lemma_factorial_is_rising(n - r);
    lemma_factorial_is_rising(n);
    lemma_factorial_is_rising(r);
    lemma_rising_positive(1, n - r);
    lemma_rising_positive(1, r);
    lemma_rising_positive(1, n);
    lemma_rising_splits(n - r, n);
    assert(factorial_of(n) == rest * top);
    vstd::arithmetic::div_mod::lemma_div_denominator(factorial_of(n), rest, orders);
    vstd::arithmetic::div_mod::lemma_div_multiples_vanish(top, rest);
    assert(factorial_of(n) / rest == top);
    assert(rest * orders == orders * rest) by (nonlinear_arith);
}

/// The product from 1 up to `to` is the product up to `mid` times the product
/// behind `mid`.
proof fn lemma_rising_splits(mid: int, to: int)
    requires
        0 <= mid <= to,
    ensures
        rising(1, to) == rising(1, mid) * rising(mid + 1, to),
    decreases to - mid,
{
    if mid < to {
        lemma_rising_splits(mid, to - 1);
        assert(rising(1, mid) * rising(mid + 1, to - 1) * to == rising(1, mid) * (rising(
            mid + 1,
            to - 1,
        ) * to)) by (nonlinear_arith);
    } else {
        assert(rising(1, mid) * 1 == rising(1, mid));
    }
}

/// The product of the numbers from `from` up to `to`, where it is at most
/// `max`.
fn product_up(from: u128, to: u128, max: u128) -> (out: u128)
    requires
        1 <= from,
        rising(from as int, to as int) <= max,
    ensures
        out == rising(from as int, to as int),
{
    if to < from {
        return 1;
    }
    let mut cum: u128 = 1;
    let mut last: u128 = from - 1;
    while last < to
        invariant
            1 <= from,
            from - 1 <= last <= to,
            rising(from as int, to as int) <= max,
            cum == rising(from as int, last as int),
        decreases to - last,
    {
        last += 1;
        proof {
            lemma_rising_grows(from as int, last as int, to as int);
            lemma_rising_positive(from as int, last as int - 1);
        }
        cum = cum * last;
    }
    cum
}

/// A numeric kind with a factorial.
pub trait CalcFactorial: Sized {
    /// The factorial of this value fits the kind.
    spec fn factorial_req(&self) -> bool;

    /// The factorial of this value.
    spec fn factorial_spec(&self) -> Self;

    /// Computes the factorial of this value.
    fn factorial(&self) -> (out: Self)
        requires
            self.factorial_req(),
        ensures
            out == self.factorial_spec(),
    ;
}

/// A numeric kind with a binomial coefficient.
pub trait CalcChoose: Sized {
    /// `r` is at most this value, and what is computed on the way to the
    /// number of ways to pick `r` out of this value fits the kind.
    spec fn binomial_req(&self, r: Self) -> bool;

    /// The number of ways to pick `r` out of this value.
    spec fn binomial_spec(&self, r: Self) -> Self;

    /// Computes the number of ways to pick `r` out of this value.
    fn binomial(&self, r: Self) -> (out: Self)
        requires
            self.binomial_req(r),
        ensures
            out == self.binomial_spec(r),
    ;
}

impl CalcFactorial for u8 {
    open spec fn factorial_req(&self) -> bool {
        factorial_of(*self as int) <= u8::MAX
    }

    open spec fn factorial_spec(&self) -> u8 {
        factorial_of(*self as int) as u8
    }

    fn factorial(&self) -> (out: u8) {
        if *self == 0 {
            return 1;
        }
        proof {
            lemma_factorial_is_rising(*self as int);
        }
        product_up(1, *self as u128, u8::MAX as u128) as u8
    }
}

impl CalcChoose for u8 {
    open spec fn binomial_req(&self, r: u8) -> bool {
        &&& r <= *self
        &&& *self - r + 1 <= u8::MAX
        &&& rising(*self - r + 1, *self as int) <= u8::MAX
        &&& factorial_of(r as int) <= u8::MAX
    }

    open spec fn binomial_spec(&self, r: u8) -> u8 {
        binomial_of(*self as int, r as int) as u8
    }

    fn binomial(&self, r: u8) -> (out: u8) {
        let from: u8 = *self - r + 1;
        let picked: u8 = if *self < from {
            1
        } else {
            product_up(from as u128, *self as u128, u8::MAX as u128) as u8
        };
        let orders: u8 = r.factorial();
        proof {
            lemma_factorial_is_rising(r as int);
            lemma_rising_positive(1, r as int);
        }
        picked / orders
    }
}

impl CalcFactorial for i8 {
    open spec fn factorial_req(&self) -> bool {
        factorial_of(*self as int) <= i8::MAX
    }

    open spec fn factorial_spec(&self) -> i8 {
        factorial_of(*self as int) as i8
    }

    fn factorial(&self) -> (out: i8) {
        if *self <= 0 {
            return 1;
        }
        proof {
            lemma_factorial_is_rising(*self as int);
        }
        product_up(1, *self as u128, i8::MAX as u128) as i8
    }
}

impl CalcChoose for i8 {
    open spec fn binomial_req(&self, r: i8) -> bool {
        &&& r <= *self
        &&& *self - r + 1 <= i8::MAX
        &&& rising(*self - r + 1, *self as int) <= i8::MAX
        &&& factorial_of(r as int) <= i8::MAX
    }

    open spec fn binomial_spec(&self, r: i8) -> i8 {
        binomial_of(*self as int, r as int) as i8
    }

    fn binomial(&self, r: i8) -> (out: i8) {
        let from: i8 = *self - r + 1;
        let picked: i8 = if *self < from {
            1
        } else {
            product_up(from as u128, *self as u128, i8::MAX as u128) as i8
        };
        let orders: i8 = r.factorial();
        proof {
            lemma_factorial_is_rising(r as int);
            lemma_rising_positive(1, r as int);
        }
        picked / orders
    }
}

impl CalcFactorial for u16 {
    open spec fn factorial_req(&self) -> bool {
        factorial_of(*self as int) <= u16::MAX
    }

    open spec fn factorial_spec(&self) -> u16 {
        factorial_of(*self as int) as u16
    }

    fn factorial(&self) -> (out: u16) {
        if *self == 0 {
            return 1;
        }
        proof {
            lemma_factorial_is_rising(*self as int);
        }
        product_up(1, *self as u128, u16::MAX as u128) as u16
    }
}

impl CalcChoose for u16 {
    open spec fn binomial_req(&self, r: u16) -> bool {
        &&& r <= *self
        &&& *self - r + 1 <= u16::MAX
        &&& rising(*self - r + 1, *self as int) <= u16::MAX
        &&& factorial_of(r as int) <= u16::MAX
    }

    open spec fn binomial_spec(&self, r: u16) -> u16 {
        binomial_of(*self as int, r as int) as u16
    }

    fn binomial(&self, r: u16) -> (out: u16) {
        let from: u16 = *self - r + 1;
        let picked: u16 = if *self < from {
            1
        } else {
            product_up(from as u128, *self as u128, u16::MAX as u128) as u16
        };
        let orders: u16 = r.factorial();
        proof {
            lemma_factorial_is_rising(r as int);
            lemma_rising_positive(1, r as int);
        }
        picked / orders
    }
}

impl CalcFactorial for i16 {
    open spec fn factorial_req(&self) -> bool {
        factorial_of(*self as int) <= i16::MAX
    }

    open spec fn factorial_spec(&self) -> i16 {
        factorial_of(*self as int) as i16
    }

    fn factorial(&self) -> (out: i16) {
        if *self <= 0 {
            return 1;
        }
        proof {
            lemma_factorial_is_rising(*self as int);
        }
        product_up(1, *self as u128, i16::MAX as u128) as i16
    }
}

impl CalcChoose for i16 {
    open spec fn binomial_req(&self, r: i16) -> bool {
        &&& r <= *self
        &&& *self - r + 1 <= i16::MAX
        &&& rising(*self - r + 1, *self as int) <= i16::MAX
        &&& factorial_of(r as int) <= i16::MAX
    }

    open spec fn binomial_spec(&self, r: i16) -> i16 {
        binomial_of(*self as int, r as int) as i16
    }

    fn binomial(&self, r: i16) -> (out: i16) {
        let from: i16 = *self - r + 1;
        let picked: i16 = if *self < from {
            1
        } else {
            product_up(from as u128, *self as u128, i16::MAX as u128) as i16
        };
        let orders: i16 = r.factorial();
        proof {
            lemma_factorial_is_rising(r as int);
            lemma_rising_positive(1, r as int);
        }
        picked / orders
    }
}

impl CalcFactorial for u32 {
    open spec fn factorial_req(&self) -> bool {
        factorial_of(*self as int) <= u32::MAX
    }

    open spec fn factorial_spec(&self) -> u32 {
        factorial_of(*self as int) as u32
    }

    fn factorial(&self) -> (out: u32) {
        if *self == 0 {
            return 1;
        }
        proof {
            lemma_factorial_is_rising(*self as int);
        }
        product_up(1, *self as u128, u32::MAX as u128) as u32
    }
}

impl CalcChoose for u32 {
    open spec fn binomial_req(&self, r: u32) -> bool {
        &&& r <= *self
        &&& *self - r + 1 <= u32::MAX
        &&& rising(*self - r + 1, *self as int) <= u32::MAX
        &&& factorial_of(r as int) <= u32::MAX
    }

    open spec fn binomial_spec(&self, r: u32) -> u32 {
        binomial_of(*self as int, r as int) as u32
    }

    fn binomial(&self, r: u32) -> (out: u32) {
        let from: u32 = *self - r + 1;
        let picked: u32 = if *self < from {
            1
        } else {
            product_up(from as u128, *self as u128, u32::MAX as u128) as u32
        };
        let orders: u32 = r.factorial();
        proof {
            lemma_factorial_is_rising(r as int);
            lemma_rising_positive(1, r as int);
        }
        picked / orders
    }
}

impl CalcFactorial for i32 {
    open spec fn factorial_req(&self) -> bool {
        factorial_of(*self as int) <= i32::MAX
    }

    open spec fn factorial_spec(&self) -> i32 {
        factorial_of(*self as int) as i32
    }

    fn factorial(&self) -> (out: i32) {
        if *self <= 0 {
            return 1;
        }
        proof {
            lemma_factorial_is_rising(*self as int);
        }
        product_up(1, *self as u128, i32::MAX as u128) as i32
    }
}

impl CalcChoose for i32 {
    open spec fn binomial_req(&self, r: i32) -> bool {
        &&& r <= *self
        &&& *self - r + 1 <= i32::MAX
        &&& rising(*self - r + 1, *self as int) <= i32::MAX
        &&& factorial_of(r as int) <= i32::MAX
    }

    open spec fn binomial_spec(&self, r: i32) -> i32 {
        binomial_of(*self as int, r as int) as i32
    }

    fn binomial(&self, r: i32) -> (out: i32) {
        let from: i32 = *self - r + 1;
        let picked: i32 = if *self < from {
            1
        } else {
            product_up(from as u128, *self as u128, i32::MAX as u128) as i32
        };
        let orders: i32 = r.factorial();
        proof {
            lemma_factorial_is_rising(r as int);
            lemma_rising_positive(1, r as int);
        }
        picked / orders
    }
}

impl CalcFactorial for u128 {
    open spec fn factorial_req(&self) -> bool {
        factorial_of(*self as int) <= u128::MAX
    }

    open spec fn factorial_spec(&self) -> u128 {
        factorial_of(*self as int) as u128
    }

    fn factorial(&self) -> (out: u128) {
        if *self == 0 {
            return 1;
        }
        proof {
            lemma_factorial_is_rising(*self as int);
        }
        product_up(1, *self as u128, u128::MAX as u128) as u128
    }
}

impl CalcChoose for u128 {
    open spec fn binomial_req(&self, r: u128) -> bool {
        &&& r <= *self
        &&& *self - r + 1 <= u128::MAX
        &&& rising(*self - r + 1, *self as int) <= u128::MAX
        &&& factorial_of(r as int) <= u128::MAX
    }

    open spec fn binomial_spec(&self, r: u128) -> u128 {
        binomial_of(*self as int, r as int) as u128
    }

    fn binomial(&self, r: u128) -> (out: u128) {
        let from: u128 = *self - r + 1;
        let picked: u128 = if *self < from {
            1
        } else {
            product_up(from as u128, *self as u128, u128::MAX as u128) as u128
        };
        let orders: u128 = r.factorial();
        proof {
            lemma_factorial_is_rising(r as int);
            lemma_rising_positive(1, r as int);
        }
        picked / orders
    }
}

impl CalcFactorial for i128 {
    open spec fn factorial_req(&self) -> bool {
        factorial_of(*self as int) <= i128::MAX
    }

    open spec fn factorial_spec(&self) -> i128 {
        factorial_of(*self as int) as i128
    }

    fn factorial(&self) -> (out: i128) {
        if *self <= 0 {
            return 1;
        }
        proof {
            lemma_factorial_is_rising(*self as int);
        }
        product_up(1, *self as u128, i128::MAX as u128) as i128
    }
}

impl CalcChoose for i128 {
    open spec fn binomial_req(&self, r: i128) -> bool {
        &&& r <= *self
        &&& *self - r + 1 <= i128::MAX
        &&& rising(*self - r + 1, *self as int) <= i128::MAX
        &&& factorial_of(r as int) <= i128::MAX
    }

    open spec fn binomial_spec(&self, r: i128) -> i128 {
        binomial_of(*self as int, r as int) as i128
    }

    fn binomial(&self, r: i128) -> (out: i128) {
        let from: i128 = *self - r + 1;
        let picked: i128 = if *self < from {
            1
        } else {
            product_up(from as u128, *self as u128, i128::MAX as u128) as i128
        };
        let orders: i128 = r.factorial();
        proof {
            lemma_factorial_is_rising(r as int);
            lemma_rising_positive(1, r as int);
        }
        picked / orders
    }
}

impl CalcFactorial for usize {
    open spec fn factorial_req(&self) -> bool {
        factorial_of(*self as int) <= usize::MAX
    }

    open spec fn factorial_spec(&self) -> usize {
        factorial_of(*self as int) as usize
    }

    fn factorial(&self) -> (out: usize) {
        if *self == 0 {
            return 1;
        }
        proof {
            lemma_factorial_is_rising(*self as int);
        }
        product_up(1, *self as u128, usize::MAX as u128) as usize
    }
}

impl CalcChoose for usize {
    open spec fn binomial_req(&self, r: usize) -> bool {
        &&& r <= *self
        &&& *self - r + 1 <= usize::MAX
        &&& rising(*self - r + 1, *self as int) <= usize::MAX
        &&& factorial_of(r as int) <= usize::MAX
    }

    open spec fn binomial_spec(&self, r: usize) -> usize {
        binomial_of(*self as int, r as int) as usize
    }

    fn binomial(&self, r: usize) -> (out: usize) {
        let from: usize = *self - r + 1;
        let picked: usize = if *self < from {
            1
        } else {
            product_up(from as u128, *self as u128, usize::MAX as u128) as usize
        };
        let orders: usize = r.factorial();
        proof {
            lemma_factorial_is_rising(r as int);
            lemma_rising_positive(1, r as int);
        }
        picked / orders
    }
}

impl CalcFactorial for isize {
    open spec fn factorial_req(&self) -> bool {
        factorial_of(*self as int) <= isize::MAX
    }

    open spec fn factorial_spec(&self) -> isize {
        factorial_of(*self as int) as isize
    }

    fn factorial(&self) -> (out: isize) {
        if *self <= 0 {
            return 1;
        }
        proof {
            lemma_factorial_is_rising(*self as int);
        }
        product_up(1, *self as u128, isize::MAX as u128) as isize
    }
}

impl CalcChoose for isize {
    open spec fn binomial_req(&self, r: isize) -> bool {
        &&& r <= *self
        &&& *self - r + 1 <= isize::MAX
        &&& rising(*self - r + 1, *self as int) <= isize::MAX
        &&& factorial_of(r as int) <= isize::MAX
    }

    open spec fn binomial_spec(&self, r: isize) -> isize {
        binomial_of(*self as int, r as int) as isize
    }

    fn binomial(&self, r: isize) -> (out: isize) {
        let from: isize = *self - r + 1;
        let picked: isize = if *self < from {
            1
        } else {
            product_up(from as u128, *self as u128, isize::MAX as u128) as isize
        };
        let orders: isize = r.factorial();
        proof {
            lemma_factorial_is_rising(r as int);
            lemma_rising_positive(1, r as int);
        }
        picked / orders
    }
}

} // verus!
