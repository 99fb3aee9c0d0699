use vstd::prelude::*;

verus! {

/// Why an expression could not be tokenized or evaluated.
#[derive(Clone, Copy, Debug, PartialEq, Eq, Structural)]
pub enum CalcError {
    /// A character outside digits, `.`, `+ - * / %`, parentheses and whitespace.
    InvalidCharacter(char),
    /// A numeral that is not a decimal number (two points, a lone point),
    /// or one too large to hold.
    InvalidNumber,
    /// An operator without two operands, or not exactly one value left at the end.
    InvalidExpression,
    /// The right operand of `/` or `%` is zero.
    DivisionByZero,
    /// An exact intermediate value does not fit in 128-bit integers.
    Overflow,
}

} // verus!
