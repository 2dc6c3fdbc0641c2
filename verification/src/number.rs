//! Exact numbers: arithmetic kept as an expression over integer leaves.
use vstd::prelude::*;

verus! {

/// A number, written as the arithmetic that produces it.
///
/// The leaves are exact integers and negative powers of ten; the inner nodes
/// are the operations of the equation language. Two numbers are equal when
/// they record the same operations on the same leaves in the same order, so
/// a caller that folds a `Number` in binary floating point gets, bit for bit,
/// what a direct floating-point evaluation of the same steps would give.
#[derive(Debug, PartialEq)]
pub enum Number {
    /// The integer itself.
    Integer(i64),
    /// Ten raised to the negative of the count: `TenToMinus(2)` is one hundredth,
    /// taken as the reciprocal of the power.
    TenToMinus(usize),
    /// The operand with its sign flipped.
    Negated(Box<Number>),
    /// Left plus right.
    Plus(Box<Number>, Box<Number>),
    /// Left minus right.
    Minus(Box<Number>, Box<Number>),
    /// Left times right.
    Times(Box<Number>, Box<Number>),
    /// Left divided by right.
    Over(Box<Number>, Box<Number>),
    /// Left raised to the power right.
    RaisedTo(Box<Number>, Box<Number>),
}

impl Clone for Number {
    fn clone(&self) -> (copy: Number)
        ensures
            copy == *self,
        decreases self,
    {
        match self {
            Number::Integer(value) => Number::Integer(*value),
            Number::TenToMinus(count) => Number::TenToMinus(*count),
            Number::Negated(inner) => Number::Negated(Box::new((&**inner).clone())),
            Number::Plus(left, right) => Number::Plus(
                Box::new((&**left).clone()),
                Box::new((&**right).clone()),
            ),
            Number::Minus(left, right) => Number::Minus(
                Box::new((&**left).clone()),
                Box::new((&**right).clone()),
            ),
            Number::Times(left, right) => Number::Times(
                Box::new((&**left).clone()),
                Box::new((&**right).clone()),
            ),
            Number::Over(left, right) => Number::Over(
                Box::new((&**left).clone()),
                Box::new((&**right).clone()),
            ),
            Number::RaisedTo(left, right) => Number::RaisedTo(
                Box::new((&**left).clone()),
                Box::new((&**right).clone()),
            ),
        }
    }
}

impl Number {
    /// `left + right`.
    pub open spec fn sum(left: Number, right: Number) -> Number {
        Number::Plus(Box::new(left), Box::new(right))
    }

    /// `left - right`.
    pub open spec fn difference(left: Number, right: Number) -> Number {
        Number::Minus(Box::new(left), Box::new(right))
    }

    /// `left * right`.
    pub open spec fn product(left: Number, right: Number) -> Number {
        Number::Times(Box::new(left), Box::new(right))
    }

    /// `left / right`.
    pub open spec fn quotient(left: Number, right: Number) -> Number {
        Number::Over(Box::new(left), Box::new(right))
    }

    /// `left ^ right`.
    pub open spec fn power(left: Number, right: Number) -> Number {
        Number::RaisedTo(Box::new(left), Box::new(right))
    }

    /// `-inner`.
    pub open spec fn opposite(inner: Number) -> Number {
        Number::Negated(Box::new(inner))
    }

    /// Builds `self + right`.
    pub fn plus(self, right: Number) -> (result: Number)
        ensures
            result == Number::sum(self, right),
    {
        Number::Plus(Box::new(self), Box::new(right))
    }

    /// Builds `self - right`.
    pub fn minus(self, right: Number) -> (result: Number)
        ensures
            result == Number::difference(self, right),
    {
        Number::Minus(Box::new(self), Box::new(right))
    }

    /// Builds `self * right`.
    pub fn times(self, right: Number) -> (result: Number)
        ensures
            result == Number::product(self, right),
    {
        Number::Times(Box::new(self), Box::new(right))
    }

    /// Builds `self / right`.
    pub fn over(self, right: Number) -> (result: Number)
        ensures
            result == Number::quotient(self, right),
    {
        Number::Over(Box::new(self), Box::new(right))
    }

    /// Builds `self ^ right`.
    pub fn raised_to(self, right: Number) -> (result: Number)
        ensures
            result == Number::power(self, right),
    {
        Number::RaisedTo(Box::new(self), Box::new(right))
    }

    /// Builds `-self`.
    pub fn negated(self) -> (result: Number)
        ensures
            result == Number::opposite(self),
    {
        Number::Negated(Box::new(self))
    }
}

} // verus!
