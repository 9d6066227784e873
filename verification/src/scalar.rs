//! The numbers that the layout computes with.
use vstd::prelude::*;

verus! {

/// A number on the page: a coordinate, a width, a pressure, an angle.
///
/// The layout never looks inside such a number. It only combines numbers with the
/// operations below, in a fixed order, and every contract of this library is an
/// equation over their spec counterparts. In specifications `+`, `-`, `*`, `/`, `<`
/// and `<=` stand for the operations declared first.
///
/// `crate::milli::Milli` is the instance that this library brings along, with every
/// operation specified and proved. An instance outside of verified code gives the
/// executable operations alone; nothing is then known of its numbers but that equal
/// operations on equal numbers give equal results.
pub trait Scalar: Sized + Copy {
    /// `a + b`.
    closed spec fn spec_add(self, other: Self) -> Self {
        arbitrary()
    }

    /// `a - b`.
    closed spec fn spec_sub(self, other: Self) -> Self {
        arbitrary()
    }

    /// `a * b`.
    closed spec fn spec_mul(self, other: Self) -> Self {
        arbitrary()
    }

    /// `a / b`.
    closed spec fn spec_euclidean_or_real_div(self, other: Self) -> Self {
        arbitrary()
    }

    /// `-a`.
    closed spec fn spec_neg(self) -> Self {
        arbitrary()
    }

    /// `a < b`. A value that is no number is below nothing.
    closed spec fn spec_lt(self, other: Self) -> bool {
        arbitrary()
    }

    /// `a <= b`. A value that is no number is at most nothing.
    closed spec fn spec_le(self, other: Self) -> bool {
        arbitrary()
    }

    /// Whether both are the same number.
    closed spec fn same(self, other: Self) -> bool {
        arbitrary()
    }

    /// The larger of the two.
    closed spec fn larger(self, other: Self) -> Self {
        arbitrary()
    }

    /// The smaller of the two.
    closed spec fn smaller(self, other: Self) -> Self {
        arbitrary()
    }

    /// The nearest number from `low` to `high`.
    closed spec fn held(self, low: Self, high: Self) -> Self {
        arbitrary()
    }

    /// The distance from zero.
    closed spec fn magnitude(self) -> Self {
        arbitrary()
    }

    /// The sine of an angle in radians.
    closed spec fn sine(self) -> Self {
        arbitrary()
    }

    /// The cosine of an angle in radians.
    closed spec fn cosine(self) -> Self {
        arbitrary()
    }

    /// The length of the hypotenuse over two legs.
    closed spec fn hypotenuse(self, other: Self) -> Self {
        arbitrary()
    }

    /// The next whole number upwards.
    closed spec fn ceiling(self) -> Self {
        arbitrary()
    }

    /// The nearest whole number.
    closed spec fn nearest(self) -> Self {
        arbitrary()
    }

    /// Whether this is a number within bounds, not an overflow.
    closed spec fn finite(self) -> bool {
        arbitrary()
    }

    /// The integer by which the number is sorted.
    closed spec fn key(self) -> i64 {
        arbitrary()
    }

    /// The number that is sorted by an integer.
    closed spec fn of_key(key: i64) -> Self {
        arbitrary()
    }

    /// `n` thousandths.
    closed spec fn mil(n: int) -> Self {
        arbitrary()
    }

    /// The whole number `n`.
    closed spec fn counted(n: int) -> Self {
        arbitrary()
    }

    /// Half a turn in radians.
    closed spec fn half_turn() -> Self {
        arbitrary()
    }

    /// Above every finite number.
    closed spec fn topmost() -> Self {
        arbitrary()
    }

    /// Below every finite number.
    closed spec fn bottommost() -> Self {
        arbitrary()
    }

    /// The whole part, as a count.
    closed spec fn count(self) -> usize {
        arbitrary()
    }

    /// How the number is written in a message.
    closed spec fn written(self) -> Seq<char> {
        arbitrary()
    }

    fn plus(self, other: Self) -> (r: Self)
        ensures
            r == self + other,
    ;

    fn minus(self, other: Self) -> (r: Self)
        ensures
            r == self - other,
    ;

    fn times(self, other: Self) -> (r: Self)
        ensures
            r == self * other,
    ;

    fn over(self, other: Self) -> (r: Self)
        ensures
            r == self / other,
    ;

    fn negated(self) -> (r: Self)
        ensures
            r == -self,
    ;

    fn lt(self, other: Self) -> (r: bool)
        ensures
            r == (self < other),
    ;

    fn le(self, other: Self) -> (r: bool)
        ensures
            r == (self <= other),
    ;

    fn is_same(self, other: Self) -> (r: bool)
        ensures
            r == self.same(other),
    ;

    fn max(self, other: Self) -> (r: Self)
        ensures
            r == self.larger(other),
    ;

    fn min(self, other: Self) -> (r: Self)
        ensures
            r == self.smaller(other),
    ;

    fn clamp(self, low: Self, high: Self) -> (r: Self)
        ensures
            r == self.held(low, high),
    ;

    fn abs(self) -> (r: Self)
        ensures
            r == self.magnitude(),
    ;

    fn sin(self) -> (r: Self)
        ensures
            r == self.sine(),
    ;

    fn cos(self) -> (r: Self)
        ensures
            r == self.cosine(),
    ;

    fn hypot(self, other: Self) -> (r: Self)
        ensures
            r == self.hypotenuse(other),
    ;

    fn ceil(self) -> (r: Self)
        ensures
            r == self.ceiling(),
    ;

    fn round(self) -> (r: Self)
        ensures
            r == self.nearest(),
    ;

    fn is_finite(self) -> (r: bool)
        ensures
            r == self.finite(),
    ;

    fn to_key(self) -> (r: i64)
        ensures
            r == self.key(),
    ;

    fn from_key(key: i64) -> (r: Self)
        ensures
            r == Self::of_key(key),
    ;

    fn milli(n: i32) -> (r: Self)
        ensures
            r == Self::mil(n as int),
    ;

    fn whole(n: usize) -> (r: Self)
        ensures
            r == Self::counted(n as int),
    ;

    fn pi() -> (r: Self)
        ensures
            r == Self::half_turn(),
    ;

    fn infinity() -> (r: Self)
        ensures
            r == Self::topmost(),
    ;

    fn neg_infinity() -> (r: Self)
        ensures
            r == Self::bottommost(),
    ;

    fn to_count(self) -> (r: usize)
        ensures
            r == self.count(),
    ;

    fn to_text(self) -> (r: String)
        ensures
            r@ == self.written(),
    ;
}

} // verus!
