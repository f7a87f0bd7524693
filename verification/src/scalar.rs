//! The element arithmetic that every kernel is built on.
use vstd::prelude::*;

verus! {

/// A full-precision element: a zero, an addition and a multiplication.
///
/// No law is asked of the three (rounding arithmetic has none to offer), only
/// that each operation is a function of its operands. Every result in this
/// crate is stated as an expression over `sum` and `product`, in the exact
/// order in which the operations are applied.
///
/// `zero_value`, `sum` and `product` are the models that contracts speak of.
/// An implementation that is not verified writes them as ordinary functions
/// that compute what `zero`, `plus` and `times` compute.
pub trait Scalar: Copy + Sized {
    /// The value an accumulator starts from.
    spec fn zero_value() -> Self;

    /// What `plus` computes.
    spec fn sum(a: Self, b: Self) -> Self;

    /// What `times` computes.
    spec fn product(a: Self, b: Self) -> Self;

    fn zero() -> (z: Self)
        ensures
            z == Self::zero_value(),
    ;

    fn plus(self, rhs: Self) -> (r: Self)
        ensures
            r == Self::sum(self, rhs),
    ;

    fn times(self, rhs: Self) -> (r: Self)
        ensures
            r == Self::product(self, rhs),
    ;
}

/// A reduced-precision element that is widened before any arithmetic.
pub trait Narrow: Copy + Sized {
    /// The element type in which sums are accumulated.
    type Wide: Scalar;

    /// What `to_wide` computes.
    spec fn widened(self) -> Self::Wide;

    /// What `from_wide` computes.
    spec fn narrowed(w: Self::Wide) -> Self;

    fn to_wide(self) -> (w: Self::Wide)
        ensures
            w == self.widened(),
    ;

    fn from_wide(w: Self::Wide) -> (h: Self)
        ensures
            h == Self::narrowed(w),
    ;
}

/// `acc + a * b`: the product is formed first, then added to the accumulator.
pub open spec fn fma<T: Scalar>(acc: T, a: T, b: T) -> T {
    T::sum(acc, T::product(a, b))
}

/// Multiply-accumulate on single elements.
pub fn mul_add<T: Scalar>(acc: T, a: T, b: T) -> (r: T)
    ensures
        r == fma(acc, a, b),
{
    acc.plus(a.times(b))
}

/// Each element of `s`, widened.
pub open spec fn widen_seq<H: Narrow>(s: Seq<H>) -> Seq<H::Wide> {
    Seq::new(s.len(), |i: int| s[i].widened())
}

/// Two's-complement integers: exact, wrapping on overflow.
impl Scalar for i64 {
    open spec fn zero_value() -> i64 {
        0i64
    }

    open spec fn sum(a: i64, b: i64) -> i64 {
        a.wrapping_add(b)
    }

    open spec fn product(a: i64, b: i64) -> i64 {
        a.wrapping_mul(b)
    }

    fn zero() -> (z: i64) {
        0i64
    }

    fn plus(self, rhs: i64) -> (r: i64) {
        self.wrapping_add(rhs)
    }

    fn times(self, rhs: i64) -> (r: i64) {
        self.wrapping_mul(rhs)
    }
}

/// 32-bit integers accumulated in 64 bits; narrowing keeps the low 32 bits.
impl Narrow for i32 {
    type Wide = i64;

    open spec fn widened(self) -> i64 {
        self as i64
    }

    open spec fn narrowed(w: i64) -> i32 {
        w as i32
    }

    fn to_wide(self) -> (w: i64) {
        self as i64
    }

    fn from_wide(w: i64) -> (h: i32) {
        #[verifier::truncate]
        (w as i32)
    }
}

} // verus!
