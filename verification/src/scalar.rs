//! The arithmetic that the regression runs on.
use vstd::prelude::*;

verus! {

/// Arithmetic, as mathematics: each operation is a function of its operands. Nothing else is asked
/// of the operations, so rounding, saturation and special values are the numbers' own affair.
pub trait Arithmetic: Sized {
    spec fn nil() -> Self;

    spec fn unit() -> Self;

    spec fn sum(a: Self, b: Self) -> Self;

    spec fn difference(a: Self, b: Self) -> Self;

    spec fn product(a: Self, b: Self) -> Self;

    spec fn quotient(a: Self, b: Self) -> Self;

    spec fn opposite(a: Self) -> Self;

    spec fn root(a: Self) -> Self;

    spec fn size(a: Self) -> Self;

    spec fn below(a: Self, b: Self) -> bool;
}

/// Numbers that a machine computes with, by the arithmetic that they have.
///
/// The type `Fixed` is proved to be such a type. A type from elsewhere has to compute, in each
/// operation, what its arithmetic says.
pub trait Scalar: Copy + Arithmetic {
    fn zero() -> (r: Self)
        ensures
            r == Self::nil(),
    ;

    fn one() -> (r: Self)
        ensures
            r == Self::unit(),
    ;

    fn plus(self, other: Self) -> (r: Self)
        ensures
            r == Self::sum(self, other),
    ;

    fn minus(self, other: Self) -> (r: Self)
        ensures
            r == Self::difference(self, other),
    ;

    fn times(self, other: Self) -> (r: Self)
        ensures
            r == Self::product(self, other),
    ;

    fn over(self, other: Self) -> (r: Self)
        ensures
            r == Self::quotient(self, other),
    ;

    fn negated(self) -> (r: Self)
        ensures
            r == Self::opposite(self),
    ;

    fn square_root(self) -> (r: Self)
        ensures
            r == Self::root(self),
    ;

    fn magnitude(self) -> (r: Self)
        ensures
            r == Self::size(self),
    ;

    fn less(self, other: Self) -> (r: bool)
        ensures
            r == Self::below(self, other),
    ;
}

} // verus!
