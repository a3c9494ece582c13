//! The error values of this layer.  None of them is fatal: every failure is
//! a value the caller inspects.

use vstd::prelude::*;

verus! {

/// A typed failure of the modeling layer.
#[derive(Clone, Copy, Debug, PartialEq, Eq, Structural)]
pub enum LpError {
    /// A value was asked of an unsolved variable or expression.
    NoValue,
    /// A ratio's denominator evaluates to zero while its numerator does not.
    DivisionByZero,
    /// Two expressions that both carry variables were multiplied, or a
    /// divisor carries variables.
    NonConstant,
    /// A category name other than `Continuous`, `Integer` or `Binary`.
    InvalidCategory,
    /// An initial value lies outside the variable's bounds and the strict
    /// flag was set.
    BoundViolation,
    /// An exact result leaves the representable fixed-point range.
    OutOfRange,
}

} // verus!
