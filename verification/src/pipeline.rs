//! From the text of an expression to its value.

use crate::converter::{postfix, to_rpn};
use crate::error::CalcError;
use crate::evaluator::{denotes, eval_rpn, expression, Expr};
use crate::lexer::{lex, tokenize};
use crate::token::{is_decimal, is_operator, Literal};
use vstd::prelude::*;

verus! {

/// The expression that a text spells: its tokens, put in postfix order and
/// reduced to one tree; or the first error on the way.
pub open spec fn calculation(text: Seq<char>) -> Result<Expr, CalcError> {
    match lex(text) {
        Ok(tokens) => expression(postfix(tokens)),
        Err(e) => Err(e),
    }
}

/// Calculates the value of the expression that `text` spells, with the
/// caller's arithmetic: `number` reads a literal and `apply` applies an
/// operator symbol to a left and a right operand.
pub fn calculate<N, FN: Fn(&Literal) -> N, FA: Fn(char, N, N) -> N>(
    text: &str,
    number: FN,
    apply: FA,
) -> (r: Result<N, CalcError>)
    requires
        forall|literal: &Literal| is_decimal(literal@) ==> call_requires(number, (literal,)),
        forall|op: char, a: N, b: N| is_operator(op) ==> call_requires(apply, (op, a, b)),
    ensures
        match calculation(text@) {
            Ok(e) => r is Ok && denotes(number, apply, e, r.unwrap()),
            Err(e) => r == Err::<N, CalcError>(e),
        },
{
    match tokenize(text) {
        Ok(tokens) => eval_rpn(to_rpn(tokens), number, apply),
        Err(e) => Err(e),
    }
}

} // verus!
