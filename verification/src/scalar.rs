//! The numbers that matrices and vectors hold.
//!
//! Kernels are written once, over any value type that offers the handful of
//! operations below. Each operation comes in two forms: a specification
//! function that names its result, and an executable method that is bound to
//! return exactly that result. Contracts elsewhere in the crate are stated over
//! the specification functions, so they fix the order in which values are
//! combined without fixing how a value type rounds.

use vstd::prelude::*;

verus! {

/// A value that can be multiplied, accumulated and compared.
///
/// Implementations must compute every operation as a function of its
/// arguments alone. Nothing else is asked: addition need not be associative,
/// and `le` need not relate every pair of values. An implementation that is
/// written outside verified code gives each naming function the body of the
/// operation that it names.
pub trait Scalar: Copy + Sized {
    /// The value that empty positions of a matrix or vector hold.
    spec fn zero_value() -> Self;

    /// Whether a value is dropped when it is stored sparsely.
    spec fn is_zero_spec(self) -> bool;

    /// The result of `plus`.
    spec fn plus_spec(self, rhs: Self) -> Self;

    /// The result of `times`.
    spec fn times_spec(self, rhs: Self) -> Self;

    /// The result of `abs`.
    spec fn abs_spec(self) -> Self;

    /// The result of `le`.
    spec fn le_spec(self, rhs: Self) -> bool;

    /// Zero.
    fn zero() -> (r: Self)
        ensures
            r == Self::zero_value(),
    ;

    /// Whether `self` counts as zero.
    fn is_zero(self) -> (b: bool)
        ensures
            b == self.is_zero_spec(),
    ;

    /// `self + rhs`.
    fn plus(self, rhs: Self) -> (r: Self)
        ensures
            r == self.plus_spec(rhs),
    ;

    /// `self * rhs`.
    fn times(self, rhs: Self) -> (r: Self)
        ensures
            r == self.times_spec(rhs),
    ;

    /// The magnitude of `self`.
    fn abs(self) -> (r: Self)
        ensures
            r == self.abs_spec(),
    ;

    /// `self <= rhs`; `false` when the two cannot be compared.
    fn le(self, rhs: Self) -> (b: bool)
        ensures
            b == self.le_spec(rhs),
    ;
}

/// A scalar with division, roots and exponentials, as floating-point numbers
/// have them.
pub trait Real: Scalar {
    /// The result of `from_count`.
    spec fn from_count_spec(n: usize) -> Self;

    /// The result of `nan`.
    spec fn nan_value() -> Self;

    /// The result of `div`.
    spec fn div_spec(self, rhs: Self) -> Self;

    /// The result of `sqrt`.
    spec fn sqrt_spec(self) -> Self;

    /// The result of `exp`.
    spec fn exp_spec(self) -> Self;

    /// The value nearest to a count.
    fn from_count(n: usize) -> (r: Self)
        ensures
            r == Self::from_count_spec(n),
    ;

    /// The value that stands for an undefined quotient.
    fn nan() -> (r: Self)
        ensures
            r == Self::nan_value(),
    ;

    /// `self / rhs`.
    fn div(self, rhs: Self) -> (r: Self)
        ensures
            r == self.div_spec(rhs),
    ;

    /// The square root of `self`.
    fn sqrt(self) -> (r: Self)
        ensures
            r == self.sqrt_spec(),
    ;

    /// `e` raised to `self`.
    fn exp(self) -> (r: Self)
        ensures
            r == self.exp_spec(),
    ;
}

/// `a < b`: `a <= b` and not `b <= a`.
pub open spec fn lt_spec<V: Scalar>(a: V, b: V) -> bool {
    a.le_spec(b) && !b.le_spec(a)
}

/// The square of a value.
pub open spec fn square_spec<V: Scalar>(a: V) -> V {
    a.times_spec(a)
}

impl Scalar for i32 {
    open spec fn zero_value() -> i32 {
        0
    }

    open spec fn is_zero_spec(self) -> bool {
        self == 0
    }

    open spec fn plus_spec(self, rhs: i32) -> i32 {
        self.wrapping_add(rhs)
    }

    open spec fn times_spec(self, rhs: i32) -> i32 {
        self.wrapping_mul(rhs)
    }

    open spec fn abs_spec(self) -> i32 {
        if self < 0 {
            0i32.wrapping_sub(self)
        } else {
            self
        }
    }

    open spec fn le_spec(self, rhs: i32) -> bool {
        self <= rhs
    }

    fn zero() -> (r: i32) {
        0
    }

    fn is_zero(self) -> (b: bool) {
        self == 0
    }

    fn plus(self, rhs: i32) -> (r: i32) {
        self.wrapping_add(rhs)
    }

    fn times(self, rhs: i32) -> (r: i32) {
        self.wrapping_mul(rhs)
    }

    fn abs(self) -> (r: i32) {
        if self < 0 {
            0i32.wrapping_sub(self)
        } else {
            self
        }
    }

    fn le(self, rhs: i32) -> (b: bool) {
        self <= rhs
    }
}

impl Scalar for i64 {
    open spec fn zero_value() -> i64 {
        0
    }

    open spec fn is_zero_spec(self) -> bool {
        self == 0
    }

    open spec fn plus_spec(self, rhs: i64) -> i64 {
        self.wrapping_add(rhs)
    }

    open spec fn times_spec(self, rhs: i64) -> i64 {
        self.wrapping_mul(rhs)
    }

    open spec fn abs_spec(self) -> i64 {
        if self < 0 {
            0i64.wrapping_sub(self)
        } else {
            self
        }
    }

    open spec fn le_spec(self, rhs: i64) -> bool {
        self <= rhs
    }

    fn zero() -> (r: i64) {
        0
    }

    fn is_zero(self) -> (b: bool) {
        self == 0
    }

    fn plus(self, rhs: i64) -> (r: i64) {
        self.wrapping_add(rhs)
    }

    fn times(self, rhs: i64) -> (r: i64) {
        self.wrapping_mul(rhs)
    }

    fn abs(self) -> (r: i64) {
        if self < 0 {
            0i64.wrapping_sub(self)
        } else {
            self
        }
    }

    fn le(self, rhs: i64) -> (b: bool) {
        self <= rhs
    }
}

} // verus!
