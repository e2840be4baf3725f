//! Parentheses around a whole expression change nothing.

use crate::converter::{
    binding, close_group, emit_top, empty_yard, lemma_close_waiting, lemma_shunt_all_concat,
    lemma_shunt_all_one, postfix, shunt, shunt_all, top_yields, yield_operators, Yard,
};
use crate::error::CalcError;
use crate::evaluator::{expression, lemma_expression_counts};
use crate::lexer::{lemma_numeric_run_ends, lemma_numeric_run_is, lex, numeric_run, punctuation};
use crate::pipeline::calculation;
use crate::token::{is_numeric, SpecToken};
use vstd::prelude::*;

verus! {

/// The number of opening parentheses that are still unclosed after `tokens`.
/// A closing parenthesis closes the nearest unclosed opening one; where there
/// is none, it counts for nothing.
pub open spec fn unclosed(tokens: Seq<SpecToken>) -> nat
    decreases tokens.len(),
{
    if tokens.len() == 0 {
        0
    } else {
        let before = unclosed(tokens.drop_last());
        match tokens.last() {
            SpecToken::LParen => before + 1,
            SpecToken::RParen => if before > 0 {
                (before - 1) as nat
            } else {
                0
            },
            _ => before,
        }
    }
}

/// The tokens with one pair of parentheses around them.
pub open spec fn parenthesized(tokens: Seq<SpecToken>) -> Seq<SpecToken> {
    seq![SpecToken::LParen] + tokens + seq![SpecToken::RParen]
}

/// The number of opening parentheses that wait on a stack.
pub open spec fn waiting_open(stack: Seq<SpecToken>) -> nat
    decreases stack.len(),
{
    if stack.len() == 0 {
        0
    } else {
        waiting_open(stack.drop_last()) + if stack.last() == SpecToken::LParen {
            1nat
        } else {
            0nat
        }
    }
}

proof fn lemma_none_open(stack: Seq<SpecToken>)
    requires
        waiting_open(stack) == 0,
    ensures
        !stack.contains(SpecToken::LParen),
    decreases stack.len(),
{
    if stack.len() > 0 {
        lemma_none_open(stack.drop_last());
        if stack.contains(SpecToken::LParen) {
            let i = choose|i: int| 0 <= i < stack.len() && stack[i] == SpecToken::LParen;
            assert(stack.drop_last()[i] == SpecToken::LParen);
        }
    }
}

proof fn lemma_yield_keeps_open(y: Yard, level: int)
    ensures
        waiting_open(yield_operators(y, level).stack) == waiting_open(y.stack),
    decreases y.stack.len(),
{
    if top_yields(y.stack, level) {
        lemma_yield_keeps_open(emit_top(y), level);
    }
}

proof fn lemma_close_closes_one(y: Yard)
    ensures
        waiting_open(close_group(y).stack) == if waiting_open(y.stack) > 0 {
            (waiting_open(y.stack) - 1) as nat
        } else {
            0
        },
    decreases y.stack.len(),
{
    if y.stack.len() > 0 && y.stack.last() != SpecToken::LParen {
        lemma_close_closes_one(emit_top(y));
    }
}

/// The opening parentheses that wait when the converter has read `tokens`
/// are the unclosed ones.
pub proof fn lemma_unclosed_wait(tokens: Seq<SpecToken>)
    ensures
        waiting_open(shunt_all(empty_yard(), tokens).stack) == unclosed(tokens),
    decreases tokens.len(),
{
    if tokens.len() > 0 {
        lemma_unclosed_wait(tokens.drop_last());
        let before = shunt_all(empty_yard(), tokens.drop_last());
        match tokens.last() {
            SpecToken::Number(_) => {},
            SpecToken::Op(op) => {
                lemma_yield_keeps_open(before, binding(op));
                let yielded = yield_operators(before, binding(op));
                assert(yielded.stack.push(tokens.last()).drop_last() =~= yielded.stack);
            },
            SpecToken::LParen => {
                assert(before.stack.push(tokens.last()).drop_last() =~= before.stack);
            },
            SpecToken::RParen => {
                lemma_close_closes_one(before);
            },
        }
    }
}

/// The state `inner` with one more opening parenthesis at the bottom of its
/// stack, or, once a closing parenthesis has taken that one, `inner` itself.
pub open spec fn enclosed(inner: Yard, outer: Yard) -> bool {
    &&& outer.output == inner.output
    &&& outer.stack == seq![SpecToken::LParen] + inner.stack || outer.stack == inner.stack
}

proof fn lemma_yield_enclosed(y: Yard, level: int)
    ensures
        yield_operators(
            Yard { output: y.output, stack: seq![SpecToken::LParen] + y.stack },
            level,
        ) == (Yard {
            output: yield_operators(y, level).output,
            stack: seq![SpecToken::LParen] + yield_operators(y, level).stack,
        }),
    decreases y.stack.len(),
{
    let outer = Yard { output: y.output, stack: seq![SpecToken::LParen] + y.stack };
    if top_yields(y.stack, level) {
        assert(outer.stack.drop_last() =~= seq![SpecToken::LParen] + y.stack.drop_last());
        lemma_yield_enclosed(emit_top(y), level);
    }
}

proof fn lemma_close_enclosed(y: Yard)
    ensures
        enclosed(
            close_group(y),
            close_group(Yard { output: y.output, stack: seq![SpecToken::LParen] + y.stack }),
        ),
    decreases y.stack.len(),
{
    let outer = Yard { output: y.output, stack: seq![SpecToken::LParen] + y.stack };
    if y.stack.len() > 0 {
        assert(outer.stack.drop_last() =~= seq![SpecToken::LParen] + y.stack.drop_last());
        if y.stack.last() != SpecToken::LParen {
            lemma_close_enclosed(emit_top(y));
        }
    } else {
        assert(outer.stack.drop_last() =~= y.stack);
    }
}

proof fn lemma_shunt_enclosed(inner: Yard, outer: Yard, token: SpecToken)
    requires
        enclosed(inner, outer),
    ensures
        enclosed(shunt(inner, token), shunt(outer, token)),
{
    if outer.stack != inner.stack {
        match token {
            SpecToken::Op(op) => {
                lemma_yield_enclosed(inner, binding(op));
                let yielded = yield_operators(inner, binding(op));
                assert((seq![SpecToken::LParen] + yielded.stack).push(token) =~= seq![
                    SpecToken::LParen,
                ] + yielded.stack.push(token));
            },
            SpecToken::LParen => {
                assert((seq![SpecToken::LParen] + inner.stack).push(token) =~= seq![
                    SpecToken::LParen,
                ] + inner.stack.push(token));
            },
            SpecToken::RParen => {
                lemma_close_enclosed(inner);
            },
            SpecToken::Number(_) => {},
        }
    }
}

proof fn lemma_shunt_all_enclosed(inner: Yard, outer: Yard, tokens: Seq<SpecToken>)
    requires
        enclosed(inner, outer),
    ensures
        enclosed(shunt_all(inner, tokens), shunt_all(outer, tokens)),
    decreases tokens.len(),
{
    if tokens.len() > 0 {
        lemma_shunt_all_enclosed(inner, outer, tokens.drop_last());
        lemma_shunt_enclosed(
            shunt_all(inner, tokens.drop_last()),
            shunt_all(outer, tokens.drop_last()),
            tokens.last(),
        );
    }
}

proof fn lemma_close_everything(y: Yard)
    requires
        !y.stack.contains(SpecToken::LParen),
    ensures
        close_group(y) == (Yard {
            output: y.output + y.stack.reverse(),
            stack: Seq::<SpecToken>::empty(),
        }),
    decreases y.stack.len(),
{
    if y.stack.len() > 0 {
        let next = emit_top(y);
        if next.stack.contains(SpecToken::LParen) {
            let i = choose|i: int| 0 <= i < next.stack.len() && next.stack[i] == SpecToken::LParen;
            assert(y.stack[i] == SpecToken::LParen);
        }
        assert(y.stack.contains(y.stack.last()));
        lemma_close_everything(next);
        assert(next.output + next.stack.reverse() =~= y.output + y.stack.reverse());
    } else {
        assert(y.stack =~= Seq::<SpecToken>::empty());
    }
}

/// Where no opening parenthesis is left unclosed, one more pair of
/// parentheses around the whole sequence gives the same postfix order.
pub proof fn lemma_parenthesized_postfix(tokens: Seq<SpecToken>)
    requires
        unclosed(tokens) == 0,
    ensures
        postfix(parenthesized(tokens)) == postfix(tokens),
{
    let open = Yard { output: Seq::empty(), stack: seq![SpecToken::LParen] };
    let inner = shunt_all(empty_yard(), tokens);
    let outer = shunt_all(open, tokens);
    lemma_shunt_all_concat(empty_yard(), seq![SpecToken::LParen] + tokens, seq![SpecToken::RParen]);
    lemma_shunt_all_concat(empty_yard(), seq![SpecToken::LParen], tokens);
    lemma_shunt_all_one(empty_yard(), SpecToken::LParen);
    lemma_shunt_all_one(outer, SpecToken::RParen);
    lemma_shunt_all_enclosed(empty_yard(), open, tokens);
    lemma_unclosed_wait(tokens);
    lemma_none_open(inner.stack);
    if outer.stack == inner.stack {
        lemma_close_everything(outer);
    } else {
        lemma_close_waiting(outer.output, Seq::empty(), inner.stack);
    }
}

proof fn lemma_some_open(stack: Seq<SpecToken>)
    requires
        waiting_open(stack) > 0,
    ensures
        stack.contains(SpecToken::LParen),
    decreases stack.len(),
{
    if stack.last() == SpecToken::LParen {
        assert(stack[stack.len() - 1] == SpecToken::LParen);
    } else {
        lemma_some_open(stack.drop_last());
        let i = choose|i: int|
            0 <= i < stack.drop_last().len() && stack.drop_last()[i] == SpecToken::LParen;
        assert(stack[i] == SpecToken::LParen);
    }
}

/// A sequence whose postfix order spells an expression leaves no opening
/// parenthesis unclosed.
pub proof fn lemma_value_leaves_none_unclosed(tokens: Seq<SpecToken>)
    requires
        expression(postfix(tokens)) is Ok,
    ensures
        unclosed(tokens) == 0,
{
    if unclosed(tokens) > 0 {
        let end = shunt_all(empty_yard(), tokens);
        lemma_unclosed_wait(tokens);
        lemma_some_open(end.stack);
        let i = choose|i: int| 0 <= i < end.stack.len() && end.stack[i] == SpecToken::LParen;
        let j = end.output.len() + end.stack.len() - 1 - i;
        assert(postfix(tokens)[j] == end.stack.reverse()[end.stack.len() - 1 - i]);
        lemma_expression_counts(postfix(tokens));
    }
}

/// A closing parenthesis behind a text is one more token behind its tokens.
pub proof fn lemma_lex_closing(s: Seq<char>)
    ensures
        lex(s.push(')')) == match lex(s) {
            Ok(tokens) => Ok::<Seq<SpecToken>, CalcError>(tokens.push(SpecToken::RParen)),
            Err(e) => Err(e),
        },
    decreases s.len(),
{
    let longer = s.push(')');
    if s.len() == 0 {
        assert(lex(longer.skip(1)) == Ok::<Seq<SpecToken>, CalcError>(Seq::empty()));
    } else {
        let n: int = if is_numeric(s[0]) {
            numeric_run(s) as int
        } else {
            1
        };
        if is_numeric(s[0]) {
            lemma_numeric_run_ends(s);
            assert(longer.take(n) =~= s.take(n));
            lemma_numeric_run_is(longer, n);
        }
        assert(longer.skip(n) =~= s.skip(n).push(')'));
        lemma_lex_closing(s.skip(n));
        if let Ok(rest) = lex(s.skip(n)) {
            let closed = rest.push(SpecToken::RParen);
            if is_numeric(s[0]) {
                let first = seq![SpecToken::Number(s.take(n))];
                assert((first + rest).push(SpecToken::RParen) =~= first + closed);
            } else if let Some(token) = punctuation(s[0]) {
                assert((seq![token] + rest).push(SpecToken::RParen) =~= seq![token] + closed);
            }
        }
    }
}

/// The tokens of a text in parentheses are the tokens of the text, in
/// parentheses; what is wrong with the text stays wrong.
pub proof fn lemma_lex_parenthesized(s: Seq<char>)
    ensures
        lex(seq!['('] + s + seq![')']) == match lex(s) {
            Ok(tokens) => Ok::<Seq<SpecToken>, CalcError>(parenthesized(tokens)),
            Err(e) => Err(e),
        },
{
    let opened = seq!['('] + s;
    assert(seq!['('] + s + seq![')'] =~= opened.push(')'));
    lemma_lex_closing(opened);
    assert(opened[0] == '(');
    assert(opened.skip(1) =~= s);
    if let Ok(tokens) = lex(s) {
        assert((seq![SpecToken::LParen] + tokens).push(SpecToken::RParen) =~= parenthesized(
            tokens,
        ));
    }
}

/// One more pair of parentheses around a whole text gives the same result,
/// value or error, where the text leaves no opening parenthesis unclosed.
pub proof fn lemma_redundant_parentheses(text: Seq<char>)
    requires
        lex(text) matches Ok(tokens) ==> unclosed(tokens) == 0,
    ensures
        calculation(seq!['('] + text + seq![')']) == calculation(text),
{
    lemma_lex_parenthesized(text);
    if let Ok(tokens) = lex(text) {
        lemma_parenthesized_postfix(tokens);
    }
}

/// One more pair of parentheses around a text that has a value gives the same
/// value.
pub proof fn lemma_parenthesized_value(text: Seq<char>)
    requires
        calculation(text) is Ok,
    ensures
        calculation(seq!['('] + text + seq![')']) == calculation(text),
{
    lemma_value_leaves_none_unclosed(lex(text)->Ok_0);
    lemma_redundant_parentheses(text);
}

} // verus!
