//! The numbers of a network, and the relations that name their operations.

use vstd::prelude::*;

verus! {

/// The numbers a network computes with.
///
/// The methods carry no contract: the network is verified for every
/// implementation, and its own contracts say which of these operations
/// were applied to which values, and in which order. Each relation below
/// names one operation; `is_sum(a, b, r)` reads "`r` is what `a.plus(b)`
/// returned".
pub trait Scalar: Copy + PartialEq {
    /// The number 0.
    fn zero() -> Self;

    /// The number 1.
    fn one() -> Self;

    /// `self + rhs`.
    fn plus(self, rhs: Self) -> Self;

    /// `self - rhs`.
    fn minus(self, rhs: Self) -> Self;

    /// `self * rhs`.
    fn times(self, rhs: Self) -> Self;

    /// `self / rhs`.
    fn over(self, rhs: Self) -> Self;

    /// `-self`.
    fn negated(self) -> Self;

    /// `e` raised to `self`.
    fn exp(self) -> Self;

    /// The decimal text of the number, on one line.
    fn render(self) -> String;

    /// The number that `text` denotes, if it denotes one.
    fn parse(text: &str) -> Option<Self>;
}

/// A supply of initial values for weights and biases.
pub trait Source<T> {
    /// The next initial value.
    fn draw(&mut self) -> T;
}

/// `value` is what a call of `draw` returned.
pub open spec fn is_drawn<T, S: Source<T>>(value: T) -> bool {
    exists|source: &mut S| #[trigger] call_ensures(S::draw, (source,), value)
}

/// `r` is what `T::zero()` returned.
pub open spec fn is_zero<T: Scalar>(r: T) -> bool {
    call_ensures(T::zero, (), r)
}

/// `r` is what `T::one()` returned.
pub open spec fn is_one<T: Scalar>(r: T) -> bool {
    call_ensures(T::one, (), r)
}

/// `r` is what `a.plus(b)` returned.
pub open spec fn is_sum<T: Scalar>(a: T, b: T, r: T) -> bool {
    call_ensures(T::plus, (a, b), r)
}

/// `r` is what `a.minus(b)` returned.
pub open spec fn is_difference<T: Scalar>(a: T, b: T, r: T) -> bool {
    call_ensures(T::minus, (a, b), r)
}

/// `r` is what `a.times(b)` returned.
pub open spec fn is_multiple<T: Scalar>(a: T, b: T, r: T) -> bool {
    call_ensures(T::times, (a, b), r)
}

/// `r` is what `a.over(b)` returned.
pub open spec fn is_quotient<T: Scalar>(a: T, b: T, r: T) -> bool {
    call_ensures(T::over, (a, b), r)
}

/// `r` is what `a.negated()` returned.
pub open spec fn is_negation<T: Scalar>(a: T, r: T) -> bool {
    call_ensures(T::negated, (a,), r)
}

/// `r` is what `a.exp()` returned.
pub open spec fn is_exponential<T: Scalar>(a: T, r: T) -> bool {
    call_ensures(T::exp, (a,), r)
}

/// Every operation of the arithmetic is a function: for the same arguments
/// it returns the same result.
pub open spec fn has_exact_arithmetic<T: Scalar>() -> bool {
    &&& forall|r: T, s: T| #[trigger] is_zero(r) && #[trigger] is_zero(s) ==> r == s
    &&& forall|r: T, s: T| #[trigger] is_one(r) && #[trigger] is_one(s) ==> r == s
    &&& forall|a: T, b: T, r: T, s: T|
        #[trigger] is_sum(a, b, r) && #[trigger] is_sum(a, b, s) ==> r == s
    &&& forall|a: T, b: T, r: T, s: T|
        #[trigger] is_difference(a, b, r) && #[trigger] is_difference(a, b, s) ==> r == s
    &&& forall|a: T, b: T, r: T, s: T|
        #[trigger] is_multiple(a, b, r) && #[trigger] is_multiple(a, b, s) ==> r == s
    &&& forall|a: T, b: T, r: T, s: T|
        #[trigger] is_quotient(a, b, r) && #[trigger] is_quotient(a, b, s) ==> r == s
    &&& forall|a: T, r: T, s: T| #[trigger] is_negation(a, r) && #[trigger] is_negation(a, s) ==> r == s
    &&& forall|a: T, r: T, s: T|
        #[trigger] is_exponential(a, r) && #[trigger] is_exponential(a, s) ==> r == s
}

/// `text` is what `x.render()` returned.
pub open spec fn is_text_of<T: Scalar>(x: T, text: Seq<char>) -> bool {
    exists|s: String| #[trigger] call_ensures(T::render, (x,), s) && s@ == text
}

/// `render` is a function: a number has one text.
pub open spec fn has_exact_texts<T: Scalar>() -> bool {
    forall|x: T, s: Seq<char>, t: Seq<char>|
        #[trigger] is_text_of(x, s) && #[trigger] is_text_of(x, t) ==> s == t
}

/// `r` is what `T::parse` returned for `text`.
pub open spec fn is_reading_of<T: Scalar>(text: Seq<char>, r: Option<T>) -> bool {
    exists|s: &str| s@ == text && #[trigger] call_ensures(T::parse, (s,), r)
}

/// `parse` is a function: a text is read in one way.
pub open spec fn has_exact_readings<T: Scalar>() -> bool {
    forall|text: Seq<char>, r: Option<T>, s: Option<T>|
        #[trigger] is_reading_of(text, r) && #[trigger] is_reading_of(text, s) ==> r == s
}

} // verus!
