//! The shunting-yard conversion of an infix token sequence to postfix order.

use crate::token::{token_views, SpecToken, Token};
use vstd::prelude::*;

verus! {

/// How strongly an operator symbol binds: `*` and `/` more than `+` and `-`.
/// Any other character binds with strength zero.
pub open spec fn binding(op: char) -> int {
    if op == '+' || op == '-' {
        1
    } else if op == '*' || op == '/' {
        2
    } else {
        0
    }
}

/// How strongly an operator symbol binds.
pub fn precedence(op: char) -> (level: i32)
    ensures
        level == binding(op),
{
    match op {
        '+' | '-' => 1,
        '*' | '/' => 2,
        _ => 0,
    }
}

/// The state of a conversion: what has been emitted, and the operators and
/// opening parentheses that wait, the most recent one last.
pub struct Yard {
    pub output: Seq<SpecToken>,
    pub stack: Seq<SpecToken>,
}

/// Whether the waiting token on top is an operator that binds at least as
/// strongly as `level`.
pub open spec fn top_yields(stack: Seq<SpecToken>, level: int) -> bool {
    stack.len() > 0 && match stack.last() {
        SpecToken::Op(top) => binding(top) >= level,
        _ => false,
    }
}

/// The state with the token on top of the stack moved to the output.
pub open spec fn emit_top(y: Yard) -> Yard
    recommends
        y.stack.len() > 0,
{
    Yard { output: y.output.push(y.stack.last()), stack: y.stack.drop_last() }
}

/// Emits waiting operators from the top for as long as they bind at least as
/// strongly as `level`.
pub open spec fn yield_operators(y: Yard, level: int) -> Yard
    decreases y.stack.len(),
{
    if top_yields(y.stack, level) {
        yield_operators(emit_top(y), level)
    } else {
        y
    }
}

/// Emits waiting tokens from the top down to the nearest opening parenthesis,
/// which is dropped; with no opening parenthesis waiting, everything is emitted.
pub open spec fn close_group(y: Yard) -> Yard
    decreases y.stack.len(),
{
    if y.stack.len() == 0 {
        y
    } else if y.stack.last() == SpecToken::LParen {
        Yard { output: y.output, stack: y.stack.drop_last() }
    } else {
        close_group(emit_top(y))
    }
}

/// The state after one more token of the infix sequence.
pub open spec fn shunt(y: Yard, token: SpecToken) -> Yard {
    match token {
        SpecToken::Number(_) => Yard { output: y.output.push(token), stack: y.stack },
        SpecToken::Op(op) => {
            let yielded = yield_operators(y, binding(op));
            Yard { output: yielded.output, stack: yielded.stack.push(token) }
        },
        SpecToken::LParen => Yard { output: y.output, stack: y.stack.push(token) },
        SpecToken::RParen => close_group(y),
    }
}

/// The state after a run of tokens, taken from the left.
pub open spec fn shunt_all(y: Yard, tokens: Seq<SpecToken>) -> Yard
    decreases tokens.len(),
{
    if tokens.len() == 0 {
        y
    } else {
        shunt(shunt_all(y, tokens.drop_last()), tokens.last())
    }
}

/// What a state comes to at the end of the input: the output followed by the
/// waiting tokens, the most recent one first.
pub open spec fn flush(y: Yard) -> Seq<SpecToken> {
    y.output + y.stack.reverse()
}

/// The state before any token.
pub open spec fn empty_yard() -> Yard {
    Yard { output: Seq::empty(), stack: Seq::empty() }
}

/// The postfix order of an infix token sequence, all operators associating to
/// the left.
pub open spec fn postfix(tokens: Seq<SpecToken>) -> Seq<SpecToken> {
    flush(shunt_all(empty_yard(), tokens))
}

/// The state that two vectors of tokens stand for.
pub open spec fn yard_of(output: Seq<Token>, stack: Seq<Token>) -> Yard {
    Yard { output: token_views(output), stack: token_views(stack) }
}

fn top_yields_to(stack: &Vec<Token>, level: i32) -> (r: bool)
    ensures
        r == top_yields(token_views(stack@), level as int),
{
    if stack.len() == 0 {
        return false;
    }
    match &stack[stack.len() - 1] {
        Token::Op(top) => precedence(*top) >= level,
        _ => false,
    }
}

fn move_top(stack: &mut Vec<Token>, output: &mut Vec<Token>)
    requires
        old(stack)@.len() > 0,
    ensures
        yard_of(final(output)@, final(stack)@) == emit_top(yard_of(old(output)@, old(stack)@)),
        final(stack)@.len() == old(stack)@.len() - 1,
{
    let top = stack.pop().unwrap();
    output.push(top);
    assert(token_views(output@) =~= token_views(old(output)@).push(
        token_views(old(stack)@).last(),
    ));
    assert(token_views(stack@) =~= token_views(old(stack)@).drop_last());
}

/// Reorders an infix token sequence into postfix order.
///
/// Numbers keep their order. An operator first lets every operator waiting on
/// top that binds at least as strongly go to the output, so that operators of
/// equal strength apply from left to right. A closing parenthesis lets
/// everything down to its opening parenthesis go; one without an opening
/// parenthesis lets every waiting token go and is otherwise ignored. At the
/// end the waiting tokens follow, the most recent one first, an unclosed
/// opening parenthesis among them.
pub fn to_rpn(tokens: Vec<Token>) -> (r: Vec<Token>)
    ensures
        token_views(r@) == postfix(token_views(tokens@)),
{
    let mut output: Vec<Token> = Vec::new();
    let mut stack: Vec<Token> = Vec::new();
    let ghost all = token_views(tokens@);
    assert(token_views(output@) =~= Seq::<SpecToken>::empty());
    for t in it: tokens
        invariant
            token_views(it.seq()) == all,
            yard_of(output@, stack@) == shunt_all(empty_yard(), all.take(it.index())),
    {
        let ghost i = it.index();
        let ghost before = yard_of(output@, stack@);
        assert(all.take(i + 1).drop_last() =~= all.take(i));
        match t {
            Token::Number(n) => {
                output.push(Token::Number(n));
                assert(token_views(output@) =~= before.output.push(t@));
            },
            Token::Op(op) => {
                let level = precedence(op);
                while top_yields_to(&stack, level)
                    invariant
                        yield_operators(yard_of(output@, stack@), level as int) == yield_operators(
                            before,
                            level as int,
                        ),
                    decreases stack@.len(),
                {
                    move_top(&mut stack, &mut output);
                }
                let ghost yielded = yard_of(output@, stack@);
                stack.push(Token::Op(op));
                assert(token_views(stack@) =~= yielded.stack.push(t@));
            },
            Token::LParen => {
                stack.push(Token::LParen);
                assert(token_views(stack@) =~= before.stack.push(t@));
            },
            Token::RParen => {
                let mut open = false;
                while !open && stack.len() > 0
                    invariant
                        !open ==> close_group(yard_of(output@, stack@)) == close_group(before),
                        open ==> yard_of(output@, stack@) == close_group(before),
                    decreases stack@.len() + if open { 0int } else { 1int },
                {
                    let ghost here = yard_of(output@, stack@);
                    let top = stack.pop().unwrap();
                    assert(token_views(stack@) =~= here.stack.drop_last());
                    match top {
                        Token::LParen => {
                            open = true;
                        },
                        other => {
                            output.push(other);
                            assert(token_views(output@) =~= here.output.push(top@));
                        },
                    }
                }
            },
        }
    }
    assert(all.take(all.len() as int) =~= all);
    let ghost end = yard_of(output@, stack@);
    while stack.len() > 0
        invariant
            flush(yard_of(output@, stack@)) == flush(end),
        decreases stack@.len(),
    {
        move_top(&mut stack, &mut output);
    }
    output
}

/// Every token of `waiting` is an operator that binds at least as strongly as
/// `level`.
pub open spec fn operators_from(waiting: Seq<SpecToken>, level: int) -> bool {
    forall|i: int|
        0 <= i < waiting.len() ==> match #[trigger] waiting[i] {
            SpecToken::Op(op) => binding(op) >= level,
            _ => false,
        }
}

/// A run of tokens may be taken in two parts.
pub proof fn lemma_shunt_all_concat(y: Yard, a: Seq<SpecToken>, b: Seq<SpecToken>)
    ensures
        shunt_all(y, a + b) == shunt_all(shunt_all(y, a), b),
    decreases b.len(),
{
    if b.len() > 0 {
        assert((a + b).drop_last() =~= a + b.drop_last());
        lemma_shunt_all_concat(y, a, b.drop_last());
    }
}

/// A run of one token is one step.
pub proof fn lemma_shunt_all_one(y: Yard, token: SpecToken)
    ensures
        shunt_all(y, seq![token]) == shunt(y, token),
{
    assert(shunt_all(y, seq![token].drop_last()) == y);
}

/// Operators that all bind at least as strongly as `level`, waiting on top of
/// a stack whose own top does not, are emitted, the most recent one first.
pub proof fn lemma_yield_waiting(
    output: Seq<SpecToken>,
    stack: Seq<SpecToken>,
    waiting: Seq<SpecToken>,
    level: int,
)
    requires
        operators_from(waiting, level),
        !top_yields(stack, level),
    ensures
        yield_operators(Yard { output, stack: stack + waiting }, level) == (Yard {
            output: output + waiting.reverse(),
            stack,
        }),
    decreases waiting.len(),
{
    if waiting.len() > 0 {
        let top = waiting.last();
        assert((stack + waiting).drop_last() =~= stack + waiting.drop_last());
        lemma_yield_waiting(output.push(top), stack, waiting.drop_last(), level);
        assert(output.push(top) + waiting.drop_last().reverse() =~= output + waiting.reverse());
    }
}

/// Tokens other than opening parentheses, waiting on top of an opening
/// parenthesis, are emitted by a closing one, the most recent one first, and
/// the opening parenthesis goes.
pub proof fn lemma_close_waiting(
    output: Seq<SpecToken>,
    stack: Seq<SpecToken>,
    waiting: Seq<SpecToken>,
)
    requires
        !waiting.contains(SpecToken::LParen),
    ensures
        close_group(Yard { output, stack: stack.push(SpecToken::LParen) + waiting }) == (Yard {
            output: output + waiting.reverse(),
            stack,
        }),
    decreases waiting.len(),
{
    let below = stack.push(SpecToken::LParen);
    if waiting.len() == 0 {
        assert(below.drop_last() =~= stack);
    } else {
        let top = waiting.last();
        assert((below + waiting).drop_last() =~= below + waiting.drop_last());
        lemma_close_waiting(output.push(top), stack, waiting.drop_last());
        assert(output.push(top) + waiting.drop_last().reverse() =~= output + waiting.reverse());
    }
}

/// The numbers among the tokens, in order.
pub open spec fn numbers_of(tokens: Seq<SpecToken>) -> Seq<SpecToken>
    decreases tokens.len(),
{
    if tokens.len() == 0 {
        Seq::empty()
    } else if tokens.last() is Number {
        numbers_of(tokens.drop_last()).push(tokens.last())
    } else {
        numbers_of(tokens.drop_last())
    }
}

/// None of the tokens is a number.
pub open spec fn no_numbers(tokens: Seq<SpecToken>) -> bool {
    forall|i: int| 0 <= i < tokens.len() ==> !(#[trigger] tokens[i] is Number)
}

/// None of the tokens is a closing parenthesis.
pub open spec fn no_closing(tokens: Seq<SpecToken>) -> bool {
    forall|i: int| 0 <= i < tokens.len() ==> #[trigger] tokens[i] != SpecToken::RParen
}

/// A state in which only operators and opening parentheses wait and no
/// closing parenthesis has been emitted; `numbers` are the numbers emitted.
pub open spec fn orderly(y: Yard, numbers: Seq<SpecToken>) -> bool {
    &&& numbers_of(y.output) == numbers
    &&& no_numbers(y.stack)
    &&& no_closing(y.output)
    &&& no_closing(y.stack)
}

proof fn lemma_emit_top_orderly(y: Yard, numbers: Seq<SpecToken>)
    requires
        orderly(y, numbers),
        y.stack.len() > 0,
    ensures
        orderly(emit_top(y), numbers),
{
    assert(emit_top(y).output.drop_last() =~= y.output);
}

proof fn lemma_yield_orderly(y: Yard, level: int, numbers: Seq<SpecToken>)
    requires
        orderly(y, numbers),
    ensures
        orderly(yield_operators(y, level), numbers),
    decreases y.stack.len(),
{
    if top_yields(y.stack, level) {
        lemma_emit_top_orderly(y, numbers);
        lemma_yield_orderly(emit_top(y), level, numbers);
    }
}

proof fn lemma_close_orderly(y: Yard, numbers: Seq<SpecToken>)
    requires
        orderly(y, numbers),
    ensures
        orderly(close_group(y), numbers),
    decreases y.stack.len(),
{
    if y.stack.len() > 0 && y.stack.last() != SpecToken::LParen {
        lemma_emit_top_orderly(y, numbers);
        lemma_close_orderly(emit_top(y), numbers);
    }
}

proof fn lemma_shunt_all_orderly(tokens: Seq<SpecToken>)
    ensures
        orderly(shunt_all(empty_yard(), tokens), numbers_of(tokens)),
    decreases tokens.len(),
{
    if tokens.len() > 0 {
        let token = tokens.last();
        let before = shunt_all(empty_yard(), tokens.drop_last());
        let numbers = numbers_of(tokens.drop_last());
        lemma_shunt_all_orderly(tokens.drop_last());
        match token {
            SpecToken::Number(_) => {
                assert(shunt(before, token).output.drop_last() =~= before.output);
            },
            SpecToken::Op(op) => {
                lemma_yield_orderly(before, binding(op), numbers);
            },
            SpecToken::LParen => {},
            SpecToken::RParen => {
                lemma_close_orderly(before, numbers);
            },
        }
    }
}

proof fn lemma_numbers_of_others(front: Seq<SpecToken>, others: Seq<SpecToken>)
    requires
        no_numbers(others),
    ensures
        numbers_of(front + others) == numbers_of(front),
    decreases others.len(),
{
    if others.len() > 0 {
        assert((front + others).drop_last() =~= front + others.drop_last());
        lemma_numbers_of_others(front, others.drop_last());
    }
}

/// The conversion keeps the numbers, in their order, and lets no closing
/// parenthesis through.
pub proof fn lemma_postfix_keeps_numbers(tokens: Seq<SpecToken>)
    ensures
        numbers_of(postfix(tokens)) == numbers_of(tokens),
        no_closing(postfix(tokens)),
{
    let end = shunt_all(empty_yard(), tokens);
    lemma_shunt_all_orderly(tokens);
    lemma_numbers_of_others(end.output, end.stack.reverse());
}

} // verus!
