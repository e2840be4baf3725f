//! Expressions as they are written, and what the calculator makes of them.
//!
//! A [`Syntax`] is an expression with its parentheses. The theorems of this
//! module say that the converter and the evaluator read such an expression as
//! arithmetic does: `*` and `/` before `+` and `-`, operators of equal
//! strength from left to right, and a group as one operand.

use crate::converter::{
    binding, empty_yard, lemma_close_waiting, lemma_shunt_all_concat, lemma_shunt_all_one,
    lemma_yield_waiting, operators_from, postfix, shunt, shunt_all, top_yields, Yard,
};
use crate::error::CalcError;
use crate::evaluator::{
    expression, lemma_reduce_all_concat, lemma_reduce_all_one, reduce_all, Expr,
};
use crate::lexer::{after, lemma_after_after, lemma_numeric_run_is, lex};
use crate::pipeline::calculation;
use crate::token::{is_decimal, is_numeric, is_operator, SpecToken};
use vstd::prelude::*;

verus! {

/// An expression as it is written.
pub enum Syntax {
    /// A number literal.
    Number(Seq<char>),
    /// An expression in parentheses.
    Group(Box<Syntax>),
    /// A left operand, an operator symbol and a right operand.
    Binary(Box<Syntax>, char, Box<Syntax>),
}

/// How strongly the outermost operator of an expression binds; a number and a
/// group bind more strongly than any operator.
pub open spec fn level(e: Syntax) -> int {
    match e {
        Syntax::Binary(_, op, _) => binding(op),
        _ => 3,
    }
}

/// Whether the expression is written as it is meant: literals are decimal
/// numbers, operators are among the four, a left operand binds at least as
/// strongly as its operator and a right operand more strongly. Anything
/// weaker has to stand in parentheses.
pub open spec fn well_formed(e: Syntax) -> bool
    decreases e,
{
    match e {
        Syntax::Number(text) => is_decimal(text),
        Syntax::Group(inner) => well_formed(*inner),
        Syntax::Binary(left, op, right) => {
            &&& is_operator(op)
            &&& well_formed(*left)
            &&& well_formed(*right)
            &&& level(*left) >= binding(op)
            &&& level(*right) > binding(op)
        },
    }
}

/// The tokens of an expression in the order in which it is written.
pub open spec fn infix(e: Syntax) -> Seq<SpecToken>
    decreases e,
{
    match e {
        Syntax::Number(text) => seq![SpecToken::Number(text)],
        Syntax::Group(inner) => seq![SpecToken::LParen] + infix(*inner) + seq![SpecToken::RParen],
        Syntax::Binary(left, op, right) => infix(*left) + seq![SpecToken::Op(op)] + infix(*right),
    }
}

/// The tokens of an expression with each operator behind its two operands.
pub open spec fn postorder(e: Syntax) -> Seq<SpecToken>
    decreases e,
{
    match e {
        Syntax::Number(text) => seq![SpecToken::Number(text)],
        Syntax::Group(inner) => postorder(*inner),
        Syntax::Binary(left, op, right) => postorder(*left) + postorder(*right) + seq![
            SpecToken::Op(op),
        ],
    }
}

/// The tree of an expression: its operators and numbers without the
/// parentheses.
pub open spec fn tree(e: Syntax) -> Expr
    decreases e,
{
    match e {
        Syntax::Number(text) => Expr::Number(text),
        Syntax::Group(inner) => tree(*inner),
        Syntax::Binary(left, op, right) => Expr::Binary(
            op,
            Box::new(tree(*left)),
            Box::new(tree(*right)),
        ),
    }
}

/// The text of an expression, written without spaces.
pub open spec fn render(e: Syntax) -> Seq<char>
    decreases e,
{
    match e {
        Syntax::Number(text) => text,
        Syntax::Group(inner) => seq!['('] + render(*inner) + seq![')'],
        Syntax::Binary(left, op, right) => render(*left) + seq![op] + render(*right),
    }
}

/// What the converter has emitted when it has read an expression.
pub open spec fn emitted(e: Syntax) -> Seq<SpecToken>
    decreases e,
{
    match e {
        Syntax::Number(text) => seq![SpecToken::Number(text)],
        Syntax::Group(inner) => postorder(*inner),
        Syntax::Binary(left, op, right) => postorder(*left) + emitted(*right),
    }
}

/// The operators that still wait when the converter has read an expression.
pub open spec fn waiting(e: Syntax) -> Seq<SpecToken>
    decreases e,
{
    match e {
        Syntax::Binary(left, op, right) => seq![SpecToken::Op(op)] + waiting(*right),
        _ => Seq::empty(),
    }
}

/// Reading a well-formed expression, the converter leaves what waited before
/// untouched, emits `emitted(e)` and lets `waiting(e)` wait; together these
/// are the expression's postfix order.
pub proof fn lemma_shunt_expression(y: Yard, e: Syntax)
    requires
        well_formed(e),
        !top_yields(y.stack, level(e)),
    ensures
        shunt_all(y, infix(e)) == (Yard {
            output: y.output + emitted(e),
            stack: y.stack + waiting(e),
        }),
        emitted(e) + waiting(e).reverse() == postorder(e),
        operators_from(waiting(e), level(e)),
    decreases e,
{
    match e {
        Syntax::Number(text) => {
            let token = SpecToken::Number(text);
            lemma_shunt_all_one(y, token);
            assert(y.output.push(token) =~= y.output + emitted(e));
        },
        Syntax::Group(inner) => {
            let open = Yard { output: y.output, stack: y.stack.push(SpecToken::LParen) };
            lemma_shunt_all_concat(y, seq![SpecToken::LParen] + infix(*inner), seq![SpecToken::RParen]);
            lemma_shunt_all_concat(y, seq![SpecToken::LParen], infix(*inner));
            lemma_shunt_all_one(y, SpecToken::LParen);
            lemma_shunt_expression(open, *inner);
            let read = shunt_all(open, infix(*inner));
            lemma_shunt_all_one(read, SpecToken::RParen);
            lemma_close_waiting(read.output, y.stack, waiting(*inner));
            assert(y.output + emitted(*inner) + waiting(*inner).reverse() =~= y.output
                + postorder(*inner));
        },
        Syntax::Binary(left, op, right) => {
            let token = SpecToken::Op(op);
            lemma_shunt_all_concat(y, infix(*left) + seq![token], infix(*right));
            lemma_shunt_all_concat(y, infix(*left), seq![token]);
            lemma_shunt_expression(y, *left);
            let first = shunt_all(y, infix(*left));
            lemma_shunt_all_one(first, token);
            lemma_yield_waiting(first.output, y.stack, waiting(*left), binding(op));
            let second = shunt(first, token);
            lemma_shunt_expression(second, *right);
            let last = shunt_all(second, infix(*right));
            assert(last.output =~= y.output + emitted(e));
            assert(last.stack =~= y.stack + waiting(e));
        },
    }
}

/// The converter puts a well-formed expression into its postfix order: each
/// operator behind its operands, `*` and `/` applied before `+` and `-`,
/// operators of equal strength from left to right, and no parentheses left.
pub proof fn lemma_converts_expression(e: Syntax)
    requires
        well_formed(e),
    ensures
        postfix(infix(e)) == postorder(e),
{
    lemma_shunt_expression(empty_yard(), e);
}

/// Reading the postfix order of a well-formed expression, the evaluator
/// pushes the expression's tree and touches nothing below it.
pub proof fn lemma_reduce_expression(stack: Seq<Expr>, e: Syntax)
    requires
        well_formed(e),
    ensures
        reduce_all(stack, postorder(e)) == Ok::<Seq<Expr>, CalcError>(stack.push(tree(e))),
    decreases e,
{
    match e {
        Syntax::Number(text) => {
            lemma_reduce_all_one(stack, SpecToken::Number(text));
        },
        Syntax::Group(inner) => {
            lemma_reduce_expression(stack, *inner);
        },
        Syntax::Binary(left, op, right) => {
            let token = SpecToken::Op(op);
            lemma_reduce_all_concat(stack, postorder(*left) + postorder(*right), seq![token]);
            lemma_reduce_all_concat(stack, postorder(*left), postorder(*right));
            lemma_reduce_expression(stack, *left);
            let one = stack.push(tree(*left));
            lemma_reduce_expression(one, *right);
            let two = one.push(tree(*right));
            lemma_reduce_all_one(two, token);
            assert(two.take(two.len() - 2) =~= stack);
        },
    }
}

/// The postfix order of a well-formed expression evaluates to the
/// expression's tree.
pub proof fn lemma_evaluates_postorder(e: Syntax)
    requires
        well_formed(e),
    ensures
        expression(postorder(e)) == Ok::<Expr, CalcError>(tree(e)),
{
    lemma_reduce_expression(Seq::empty(), e);
}

/// The text of a well-formed expression, followed by anything that does not
/// start with a digit or a decimal point, has the expression's tokens and
/// then those of what follows.
pub proof fn lemma_lex_expression(e: Syntax, rest: Seq<char>)
    requires
        well_formed(e),
        rest.len() == 0 || !is_numeric(rest[0]),
    ensures
        lex(render(e) + rest) == after(infix(e), lex(rest)),
    decreases e,
{
    let s = render(e) + rest;
    match e {
        Syntax::Number(text) => {
            let n = text.len() as int;
            assert(s.take(n) =~= text);
            lemma_numeric_run_is(s, n);
            assert(s.skip(n) =~= rest);
        },
        Syntax::Group(inner) => {
            let closing = seq![')'] + rest;
            assert(s[0] == '(');
            assert(s.skip(1) =~= render(*inner) + closing);
            lemma_lex_expression(*inner, closing);
            assert(closing[0] == ')');
            assert(closing.skip(1) =~= rest);
            lemma_after_after(infix(*inner), seq![SpecToken::RParen], lex(rest));
            lemma_after_after(
                seq![SpecToken::LParen],
                infix(*inner) + seq![SpecToken::RParen],
                lex(rest),
            );
            assert(seq![SpecToken::LParen] + (infix(*inner) + seq![SpecToken::RParen]) =~= infix(
                e,
            ));
        },
        Syntax::Binary(left, op, right) => {
            let second = render(*right) + rest;
            let middle = seq![op] + second;
            assert(s =~= render(*left) + middle);
            lemma_lex_expression(*left, middle);
            assert(middle.skip(1) =~= second);
            lemma_lex_expression(*right, rest);
            lemma_after_after(seq![SpecToken::Op(op)], infix(*right), lex(rest));
            lemma_after_after(infix(*left), seq![SpecToken::Op(op)] + infix(*right), lex(rest));
            assert(infix(*left) + (seq![SpecToken::Op(op)] + infix(*right)) =~= infix(e));
        },
    }
}

/// The text of a well-formed expression has a value: the calculation ends in
/// the expression's tree and in no error.
pub proof fn lemma_calculates_rendered(e: Syntax)
    requires
        well_formed(e),
    ensures
        calculation(render(e)) == Ok::<Expr, CalcError>(tree(e)),
{
    lemma_lex_expression(e, Seq::empty());
    lemma_calculates_expression(render(e), e);
}

/// A text whose tokens are those of a well-formed expression has a value: the
/// calculation ends in the expression's tree and in no error.
pub proof fn lemma_calculates_expression(text: Seq<char>, e: Syntax)
    requires
        well_formed(e),
        lex(text) == Ok::<Seq<SpecToken>, CalcError>(infix(e)),
    ensures
        calculation(text) == Ok::<Expr, CalcError>(tree(e)),
{
    lemma_converts_expression(e);
    lemma_evaluates_postorder(e);
}

} // verus!
