use vstd::prelude::*;

verus! {

/// The field of numbers a matrix holds.
///
/// The methods carry no contract: an implementation decides what its
/// arithmetic is. What the library proves about a numeric routine is stated
/// relative to these operations, through the predicates below, each of which
/// says that one call of an operation on given arguments may return a given
/// result.
pub trait Scalar: Copy {
    /// The additive identity.
    fn zero() -> Self;

    /// The multiplicative identity.
    fn one() -> Self;

    /// `self + rhs`
    fn add(self, rhs: Self) -> Self;

    /// `self - rhs`
    fn sub(self, rhs: Self) -> Self;

    /// `self * rhs`
    fn mul(self, rhs: Self) -> Self;

    /// `self / rhs`
    fn div(self, rhs: Self) -> Self;

    /// Whether `self` is exactly zero.
    fn is_zero(self) -> bool;

    /// Whether `self` is neither infinite nor undefined.
    fn is_finite(self) -> bool;

    /// Whether `|self| < |rhs|`.
    fn abs_lt(self, rhs: Self) -> bool;
}

/// `z` is a value that `T::zero()` may return.
pub open spec fn is_zero_of<T: Scalar>(z: T) -> bool {
    call_ensures(T::zero, (), z)
}

/// `u` is a value that `T::one()` may return.
pub open spec fn is_one_of<T: Scalar>(u: T) -> bool {
    call_ensures(T::one, (), u)
}

/// `r` is a value that `a.add(b)` may return.
pub open spec fn is_sum<T: Scalar>(a: T, b: T, r: T) -> bool {
    call_ensures(T::add, (a, b), r)
}

/// `r` is a value that `a.sub(b)` may return.
pub open spec fn is_difference<T: Scalar>(a: T, b: T, r: T) -> bool {
    call_ensures(T::sub, (a, b), r)
}

/// `r` is a value that `a.mul(b)` may return.
pub open spec fn is_product<T: Scalar>(a: T, b: T, r: T) -> bool {
    call_ensures(T::mul, (a, b), r)
}

/// `r` is a value that `a.div(b)` may return.
pub open spec fn is_quotient<T: Scalar>(a: T, b: T, r: T) -> bool {
    call_ensures(T::div, (a, b), r)
}

/// `r` is a value that `x.sub(v.mul(m))` may return: the update `x - v * m`
/// of one entry during a substitution.
pub open spec fn is_eliminated<T: Scalar>(x: T, v: T, m: T, r: T) -> bool {
    exists|p: T| is_product(v, m, p) && is_difference(x, p, r)
}

/// `r` is a value that `y.add(v.mul(x))` may return: the update `y + v * x`
/// of one entry during a matrix-vector product.
pub open spec fn is_accumulated<T: Scalar>(y: T, v: T, x: T, r: T) -> bool {
    exists|p: T| is_product(v, x, p) && is_sum(y, p, r)
}

/// `a.is_zero()` may return `r`.
pub open spec fn zero_test<T: Scalar>(a: T, r: bool) -> bool {
    call_ensures(T::is_zero, (a,), r)
}

/// `a.is_finite()` may return `r`.
pub open spec fn finite_test<T: Scalar>(a: T, r: bool) -> bool {
    call_ensures(T::is_finite, (a,), r)
}

/// `a.abs_lt(b)` may return `r`.
pub open spec fn abs_lt_test<T: Scalar>(a: T, b: T, r: bool) -> bool {
    call_ensures(T::abs_lt, (a, b), r)
}

} // verus!
