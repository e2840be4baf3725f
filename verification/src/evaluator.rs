//! Evaluation of a postfix token sequence on a stack of values.
//!
//! The arithmetic is the caller's: the evaluator decides which operator is
//! applied to which operands, and in which order, for any kind of number.

use crate::error::CalcError;
use crate::token::{
    is_decimal, is_operator, is_operator_char, token_views, Literal, SpecToken, Token,
};
use vstd::prelude::*;

verus! {

/// An expression as a tree: a number, or an operator with its left and right
/// operand.
pub enum Expr {
    Number(Seq<char>),
    Binary(char, Box<Expr>, Box<Expr>),
}

/// The stack of operand trees after one more token of a postfix sequence: a
/// number is pushed, an operator replaces the two trees on top, the upper one
/// as its right operand.
pub open spec fn reduce(stack: Seq<Expr>, token: SpecToken) -> Result<Seq<Expr>, CalcError> {
    match token {
        SpecToken::Number(text) => Ok(stack.push(Expr::Number(text))),
        SpecToken::Op(op) => {
            if stack.len() < 2 {
                Err(CalcError::StackUnderflow)
            } else if !is_operator(op) {
                Err(CalcError::UnknownOperator(op))
            } else {
                let left = stack[stack.len() - 2];
                let right = stack[stack.len() - 1];
                Ok(
                    stack.take(stack.len() - 2).push(
                        Expr::Binary(op, Box::new(left), Box::new(right)),
                    ),
                )
            }
        },
        _ => Err(CalcError::UnexpectedToken),
    }
}

/// The stack after a run of tokens, taken from the left, or the first error.
pub open spec fn reduce_all(stack: Seq<Expr>, tokens: Seq<SpecToken>) -> Result<
    Seq<Expr>,
    CalcError,
>
    decreases tokens.len(),
{
    if tokens.len() == 0 {
        Ok(stack)
    } else {
        match reduce_all(stack, tokens.drop_last()) {
            Ok(reduced) => reduce(reduced, tokens.last()),
            Err(e) => Err(e),
        }
    }
}

/// The expression that a postfix sequence spells: the one tree left at the end.
pub open spec fn expression(tokens: Seq<SpecToken>) -> Result<Expr, CalcError> {
    match reduce_all(Seq::empty(), tokens) {
        Ok(stack) => if stack.len() == 1 {
            Ok(stack[0])
        } else {
            Err(CalcError::MalformedResult)
        },
        Err(e) => Err(e),
    }
}

/// Whether `value` is what the expression `e` comes to under the caller's
/// arithmetic: `number` reads a literal and `apply` applies an operator symbol
/// to a left and a right operand.
pub open spec fn denotes<N, FN: Fn(&Literal) -> N, FA: Fn(char, N, N) -> N>(
    number: FN,
    apply: FA,
    e: Expr,
    value: N,
) -> bool
    decreases e,
{
    match e {
        Expr::Number(text) => exists|literal: Literal|
            literal@ == text && #[trigger] call_ensures(number, (&literal,), value),
        Expr::Binary(op, left, right) => is_operator(op) && exists|a: N, b: N|
            denotes(number, apply, *left, a) && denotes(number, apply, *right, b)
                && #[trigger] call_ensures(apply, (op, a, b), value),
    }
}

/// Evaluates a postfix sequence with the caller's arithmetic.
///
/// The tokens are taken from the left. A number is read with `number` and
/// pushed. An operator takes the two values on top, the upper one as its
/// right operand, and `apply` gives the value that replaces them. The result
/// is the one value left at the end.
///
/// The first of these ends the evaluation: an operator that finds fewer than
/// two values is a `StackUnderflow`; one that finds them and is none of the
/// four symbols is an `UnknownOperator`; a parenthesis is an
/// `UnexpectedToken`. No value at the end, or more than one, is a
/// `MalformedResult`.
pub fn eval_rpn<N, FN: Fn(&Literal) -> N, FA: Fn(char, N, N) -> N>(
    tokens: Vec<Token>,
    number: FN,
    apply: FA,
) -> (r: Result<N, CalcError>)
    requires
        forall|literal: &Literal| is_decimal(literal@) ==> call_requires(number, (literal,)),
        forall|op: char, a: N, b: N| is_operator(op) ==> call_requires(apply, (op, a, b)),
    ensures
        match expression(token_views(tokens@)) {
            Ok(e) => r is Ok && denotes(number, apply, e, r.unwrap()),
            Err(e) => r == Err::<N, CalcError>(e),
        },
{
    let mut stack: Vec<N> = Vec::new();
    let ghost mut trees: Seq<Expr> = Seq::empty();
    let ghost all = token_views(tokens@);
    for t in it: tokens
        invariant
            forall|literal: &Literal| is_decimal(literal@) ==> call_requires(number, (literal,)),
            forall|op: char, a: N, b: N| is_operator(op) ==> call_requires(apply, (op, a, b)),
            token_views(it.seq()) == all,
            reduce_all(Seq::empty(), all.take(it.index())) == Ok::<Seq<Expr>, CalcError>(trees),
            trees.len() == stack@.len(),
            forall|k: int|
                0 <= k < trees.len() ==> denotes(number, apply, #[trigger] trees[k], stack@[k]),
    {
        let ghost i = it.index();
        assert(all.take(i + 1).drop_last() =~= all.take(i));
        assert(all.take(i + 1).last() == t@);
        match t {
            Token::Number(literal) => {
                proof {
                    use_type_invariant(&literal);
                }
                let value = number(&literal);
                stack.push(value);
                proof {
                    trees = trees.push(Expr::Number(literal@));
                }
            },
            Token::Op(op) => {
                if stack.len() < 2 {
                    proof {
                        lemma_reduce_all_error(Seq::empty(), all, i + 1);
                    }
                    return Err(CalcError::StackUnderflow);
                }
                if !is_operator_char(op) {
                    proof {
                        lemma_reduce_all_error(Seq::empty(), all, i + 1);
                    }
                    return Err(CalcError::UnknownOperator(op));
                }
                let ghost left = trees[trees.len() - 2];
                let ghost right = trees[trees.len() - 1];
                let b = stack.pop().unwrap();
                let a = stack.pop().unwrap();
                let value = apply(op, a, b);
                stack.push(value);
                proof {
                    lemma_denotes_binary(number, apply, op, left, right, a, b, value);
                    trees = trees.take(trees.len() - 2).push(
                        Expr::Binary(op, Box::new(left), Box::new(right)),
                    );
                }
            },
            _ => {
                proof {
                    lemma_reduce_all_error(Seq::empty(), all, i + 1);
                }
                return Err(CalcError::UnexpectedToken);
            },
        }
    }
    assert(all.take(all.len() as int) =~= all);
    if stack.len() != 1 {
        return Err(CalcError::MalformedResult);
    }
    Ok(stack.pop().unwrap())
}

/// An operator applied to what its operands come to gives what the whole
/// comes to.
pub proof fn lemma_denotes_binary<N, FN: Fn(&Literal) -> N, FA: Fn(char, N, N) -> N>(
    number: FN,
    apply: FA,
    op: char,
    left: Expr,
    right: Expr,
    a: N,
    b: N,
    value: N,
)
    requires
        is_operator(op),
        denotes(number, apply, left, a),
        denotes(number, apply, right, b),
        call_ensures(apply, (op, a, b), value),
    ensures
        denotes(number, apply, Expr::Binary(op, Box::new(left), Box::new(right)), value),
{
    let node = Expr::Binary(op, Box::new(left), Box::new(right));
    assert(node matches Expr::Binary(o, l, r) && o == op && *l == left && *r == right);
}

/// The value of an expression under arithmetic given as two functions: `read`
/// gives the number that a literal spells and `combine` the result of an
/// operator on a left and a right operand.
pub open spec fn value_of<N>(
    read: spec_fn(Seq<char>) -> N,
    combine: spec_fn(char, N, N) -> N,
    e: Expr,
) -> N
    decreases e,
{
    match e {
        Expr::Number(text) => read(text),
        Expr::Binary(op, left, right) => combine(
            op,
            value_of(read, combine, *left),
            value_of(read, combine, *right),
        ),
    }
}

/// Whether the caller's arithmetic computes the two functions `read` and
/// `combine`.
pub open spec fn computes<N, FN: Fn(&Literal) -> N, FA: Fn(char, N, N) -> N>(
    number: FN,
    apply: FA,
    read: spec_fn(Seq<char>) -> N,
    combine: spec_fn(char, N, N) -> N,
) -> bool {
    &&& forall|literal: &Literal, value: N| #[trigger]
        call_ensures(number, (literal,), value) ==> value == read(literal@)
    &&& forall|op: char, a: N, b: N, value: N|
        is_operator(op) && #[trigger] call_ensures(apply, (op, a, b), value) ==> value == combine(
            op,
            a,
            b,
        )
}

/// Under arithmetic that computes two functions, what an expression comes to
/// is its value under these functions.
pub proof fn lemma_denoted_value<N, FN: Fn(&Literal) -> N, FA: Fn(char, N, N) -> N>(
    number: FN,
    apply: FA,
    read: spec_fn(Seq<char>) -> N,
    combine: spec_fn(char, N, N) -> N,
    e: Expr,
    value: N,
)
    requires
        computes(number, apply, read, combine),
        denotes(number, apply, e, value),
    ensures
        value == value_of(read, combine, e),
    decreases e,
{
    match e {
        Expr::Number(text) => {},
        Expr::Binary(op, left, right) => {
            let (a, b) = choose|a: N, b: N|
                denotes(number, apply, *left, a) && denotes(number, apply, *right, b)
                    && #[trigger] call_ensures(apply, (op, a, b), value);
            lemma_denoted_value(number, apply, read, combine, *left, a);
            lemma_denoted_value(number, apply, read, combine, *right, b);
        },
    }
}

/// A run of tokens may be taken in two parts.
pub proof fn lemma_reduce_all_concat(stack: Seq<Expr>, a: Seq<SpecToken>, b: Seq<SpecToken>)
    ensures
        reduce_all(stack, a + b) == match reduce_all(stack, a) {
            Ok(reduced) => reduce_all(reduced, b),
            Err(e) => Err(e),
        },
    decreases b.len(),
{
    if b.len() > 0 {
        assert((a + b).drop_last() =~= a + b.drop_last());
        lemma_reduce_all_concat(stack, a, b.drop_last());
    }
}

/// A run of one token is one step.
pub proof fn lemma_reduce_all_one(stack: Seq<Expr>, token: SpecToken)
    ensures
        reduce_all(stack, seq![token]) == reduce(stack, token),
{
    assert(reduce_all(stack, seq![token].drop_last()) == Ok::<Seq<Expr>, CalcError>(stack));
}

/// How many of the tokens are numbers.
pub open spec fn count_numbers(tokens: Seq<SpecToken>) -> nat
    decreases tokens.len(),
{
    if tokens.len() == 0 {
        0
    } else {
        count_numbers(tokens.drop_last()) + if tokens.last() is Number {
            1nat
        } else {
            0nat
        }
    }
}

/// How many of the tokens are operators.
pub open spec fn count_operators(tokens: Seq<SpecToken>) -> nat
    decreases tokens.len(),
{
    if tokens.len() == 0 {
        0
    } else {
        count_operators(tokens.drop_last()) + if tokens.last() is Op {
            1nat
        } else {
            0nat
        }
    }
}

/// Where a run of tokens reduces a stack without error, every number has
/// added one tree and every operator has taken one away, and no parenthesis
/// stands among the tokens.
pub proof fn lemma_reduce_all_counts(stack: Seq<Expr>, tokens: Seq<SpecToken>)
    requires
        reduce_all(stack, tokens) is Ok,
    ensures
        reduce_all(stack, tokens)->Ok_0.len() + count_operators(tokens) == stack.len()
            + count_numbers(tokens),
        forall|i: int| 0 <= i < tokens.len() ==> #[trigger] tokens[i] is Number || tokens[i] is Op,
    decreases tokens.len(),
{
    if tokens.len() > 0 {
        lemma_reduce_all_counts(stack, tokens.drop_last());
        assert forall|i: int| 0 <= i < tokens.len() implies #[trigger] tokens[i] is Number
            || tokens[i] is Op by {
            if i < tokens.len() - 1 {
                assert(tokens.drop_last()[i] == tokens[i]);
            }
        }
    }
}

/// A postfix sequence that spells an expression holds one number more than
/// operators, and no parenthesis.
pub proof fn lemma_expression_counts(tokens: Seq<SpecToken>)
    requires
        expression(tokens) is Ok,
    ensures
        count_numbers(tokens) == count_operators(tokens) + 1,
        forall|i: int| 0 <= i < tokens.len() ==> #[trigger] tokens[i] is Number || tokens[i] is Op,
{
    lemma_reduce_all_counts(Seq::empty(), tokens);
}

/// An error on the way stays the result, whatever follows.
pub proof fn lemma_reduce_all_error(stack: Seq<Expr>, tokens: Seq<SpecToken>, k: int)
    requires
        0 <= k <= tokens.len(),
        reduce_all(stack, tokens.take(k)) is Err,
    ensures
        reduce_all(stack, tokens) == reduce_all(stack, tokens.take(k)),
    decreases tokens.len() - k,
{
    if k < tokens.len() {
        assert(tokens.take(k + 1).drop_last() =~= tokens.take(k));
        lemma_reduce_all_error(stack, tokens, k + 1);
    } else {
        assert(tokens.take(k) =~= tokens);
    }
}

} // verus!
