//! The ways in which a calculation can fail.

use vstd::prelude::*;

verus! {

/// Why an expression has no value. Each of these ends the calculation at once.
#[derive(Debug, Clone, Copy, PartialEq, Eq)]
pub enum CalcError {
    /// The text holds this character, which no token may contain.
    Lexical(char),
    /// A run of digits and decimal points does not spell a decimal number.
    NumericParse,
    /// An operator found fewer than two values waiting.
    StackUnderflow,
    /// At the end there was no value, or more than one.
    MalformedResult,
    /// An operator token holds this character, which is no operator symbol.
    UnknownOperator(char),
    /// A parenthesis stands in a postfix sequence, where none belongs.
    UnexpectedToken,
}

} // verus!
