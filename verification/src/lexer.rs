//! Lexical analysis: from the text of an expression to its tokens.

use crate::error::CalcError;
use crate::token::{
    all_numeric, is_decimal, is_numeric, is_numeric_char, is_operator, is_operator_char,
    token_views,
};
use crate::token::{Literal, SpecToken, Token};
use vstd::prelude::*;

verus! {

/// The length of the longest prefix of `s` made of digits and decimal points.
pub open spec fn numeric_run(s: Seq<char>) -> nat
    decreases s.len(),
{
    if s.len() > 0 && is_numeric(s[0]) {
        1 + numeric_run(s.skip(1))
    } else {
        0
    }
}

/// The token that a single character outside number literals stands for.
pub open spec fn punctuation(c: char) -> Option<SpecToken> {
    if is_operator(c) {
        Some(SpecToken::Op(c))
    } else if c == '(' {
        Some(SpecToken::LParen)
    } else if c == ')' {
        Some(SpecToken::RParen)
    } else {
        None
    }
}

/// Puts `first` in front of the tokens of `rest`; an error stays as it is.
pub open spec fn after(first: Seq<SpecToken>, rest: Result<Seq<SpecToken>, CalcError>) -> Result<
    Seq<SpecToken>,
    CalcError,
> {
    match rest {
        Ok(tokens) => Ok(first + tokens),
        Err(e) => Err(e),
    }
}

/// The tokens of a text, or the first thing wrong with it, reading from the left.
///
/// A number literal is a longest run of digits and decimal points and must
/// spell a decimal number; the four operator symbols and the two parentheses
/// are tokens of one character; spaces separate tokens and are dropped; any
/// other character is an error.
pub open spec fn lex(s: Seq<char>) -> Result<Seq<SpecToken>, CalcError>
    decreases s.len(),
    via lex_decreases
{
    if s.len() == 0 {
        Ok(Seq::empty())
    } else if is_numeric(s[0]) {
        let n = numeric_run(s);
        let run = s.take(n as int);
        if is_decimal(run) {
            after(seq![SpecToken::Number(run)], lex(s.skip(n as int)))
        } else {
            Err(CalcError::NumericParse)
        }
    } else if s[0] == ' ' {
        lex(s.skip(1))
    } else {
        match punctuation(s[0]) {
            Some(token) => after(seq![token], lex(s.skip(1))),
            None => Err(CalcError::Lexical(s[0])),
        }
    }
}

#[via_fn]
proof fn lex_decreases(s: Seq<char>) {
    if s.len() > 0 && is_numeric(s[0]) {
        lemma_numeric_run_bounds(s);
    }
}

/// The tokens of `expr`, or the first thing wrong with it, reading from the
/// left: a run of digits and decimal points that spells no decimal number is
/// a `NumericParse` error, a character that no token may contain a `Lexical`
/// one.
pub fn tokenize(expr: &str) -> (r: Result<Vec<Token>, CalcError>)
    ensures
        match lex(expr@) {
            Ok(tokens) => r is Ok && token_views(r.unwrap()@) == tokens,
            Err(e) => r == Err::<Vec<Token>, CalcError>(e),
        },
{
    let mut tokens: Vec<Token> = Vec::new();
    let mut pending: Vec<char> = Vec::new();
    let ghost s = expr@;
    assert(s.skip(0) =~= s);
    for c in it: expr.chars()
        invariant
            it.seq() == s,
            s == expr@,
            pending@.len() <= it.index(),
            pending@ == s.subrange(it.index() - pending@.len(), it.index()),
            all_numeric(pending@),
            lex(s) == after(token_views(tokens@), lex(s.skip(it.index() - pending@.len()))),
    {
        let ghost i = it.index();
        let ghost start = i - pending@.len();
        if is_numeric_char(c) {
            pending.push(c);
        } else {
            if pending.len() > 0 {
                proof {
                    let text = s.skip(start);
                    assert(text.take(i - start) =~= pending@);
                    lemma_numeric_run_is(text, i - start);
                    assert(text.skip(i - start) =~= s.skip(i));
                }
                let ghost before = token_views(tokens@);
                match Literal::from_chars(pending) {
                    Some(literal) => {
                        tokens.push(Token::Number(literal));
                        assert(token_views(tokens@) =~= before + seq![
                            SpecToken::Number(literal@),
                        ]);
                        proof {
                            lemma_after_after(
                                before,
                                seq![SpecToken::Number(literal@)],
                                lex(s.skip(i)),
                            );
                        }
                    },
                    None => {
                        return Err(CalcError::NumericParse);
                    },
                }
                pending = Vec::new();
            }
            let ghost before = token_views(tokens@);
            assert(s.skip(i).skip(1) =~= s.skip(i + 1));
            if is_operator_char(c) {
                tokens.push(Token::Op(c));
                assert(token_views(tokens@) =~= before + seq![SpecToken::Op(c)]);
                proof {
                    lemma_after_after(before, seq![SpecToken::Op(c)], lex(s.skip(i + 1)));
                }
            } else if c == '(' {
                tokens.push(Token::LParen);
                assert(token_views(tokens@) =~= before + seq![SpecToken::LParen]);
                proof {
                    lemma_after_after(before, seq![SpecToken::LParen], lex(s.skip(i + 1)));
                }
            } else if c == ')' {
                tokens.push(Token::RParen);
                assert(token_views(tokens@) =~= before + seq![SpecToken::RParen]);
                proof {
                    lemma_after_after(before, seq![SpecToken::RParen], lex(s.skip(i + 1)));
                }
            } else if c == ' ' {
            } else {
                return Err(CalcError::Lexical(c));
            }
        }
    }
    let ghost n = s.len() as int;
    if pending.len() > 0 {
        let ghost start = n - pending@.len();
        proof {
            let text = s.skip(start);
            assert(text.take(n - start) =~= pending@);
            lemma_numeric_run_is(text, n - start);
            assert(text.skip(n - start) =~= s.skip(n));
        }
        let ghost before = token_views(tokens@);
        match Literal::from_chars(pending) {
            Some(literal) => {
                tokens.push(Token::Number(literal));
                assert(token_views(tokens@) =~= before + seq![SpecToken::Number(literal@)]);
                proof {
                    lemma_after_after(before, seq![SpecToken::Number(literal@)], lex(s.skip(n)));
                }
            },
            None => {
                return Err(CalcError::NumericParse);
            },
        }
    }
    Ok(tokens)
}

/// The run is a prefix, and it is not empty where the text starts with a
/// digit or a decimal point.
pub proof fn lemma_numeric_run_bounds(s: Seq<char>)
    ensures
        numeric_run(s) <= s.len(),
        s.len() > 0 && is_numeric(s[0]) ==> numeric_run(s) >= 1,
    decreases s.len(),
{
    if s.len() > 0 && is_numeric(s[0]) {
        lemma_numeric_run_bounds(s.skip(1));
    }
}

/// A prefix of digits and decimal points that ends the text, or is followed by
/// another character, is the run.
pub proof fn lemma_numeric_run_is(s: Seq<char>, n: int)
    requires
        0 <= n <= s.len(),
        all_numeric(s.take(n)),
        n == s.len() || !is_numeric(s[n]),
    ensures
        numeric_run(s) == n,
    decreases n,
{
    if n > 0 {
        assert(s.take(n)[0] == s[0]);
        let tail = s.skip(1);
        assert forall|i: int| 0 <= i < tail.take(n - 1).len() implies is_numeric(
            #[trigger] tail.take(n - 1)[i],
        ) by {
            assert(tail.take(n - 1)[i] == s.take(n)[i + 1]);
        }
        lemma_numeric_run_is(tail, n - 1);
    }
}

/// The run is made of digits and decimal points and ends the text or is
/// followed by another character.
pub proof fn lemma_numeric_run_ends(s: Seq<char>)
    ensures
        numeric_run(s) <= s.len(),
        all_numeric(s.take(numeric_run(s) as int)),
        numeric_run(s) == s.len() || !is_numeric(s[numeric_run(s) as int]),
    decreases s.len(),
{
    if s.len() > 0 && is_numeric(s[0]) {
        let tail = s.skip(1);
        lemma_numeric_run_ends(tail);
        let n = numeric_run(s) as int;
        assert forall|i: int| 0 <= i < s.take(n).len() implies is_numeric(
            #[trigger] s.take(n)[i],
        ) by {
            if i > 0 {
                assert(s.take(n)[i] == tail.take(n - 1)[i - 1]);
            }
        }
    }
}

/// A character that an expression may be written with: a digit, the decimal
/// point, an operator symbol, a parenthesis or the space.
pub open spec fn is_expression_char(c: char) -> bool {
    is_numeric(c) || c == ' ' || punctuation(c) is Some
}

/// A lexical error names a character of the text that no expression is
/// written with. So a text of digits, decimal points, operator symbols,
/// parentheses and spaces alone has tokens, unless one of its numbers is
/// misspelt.
pub proof fn lemma_lexical_error(s: Seq<char>)
    ensures
        lex(s) matches Err(CalcError::Lexical(c)) ==> s.contains(c) && !is_expression_char(c),
        (forall|i: int| 0 <= i < s.len() ==> is_expression_char(#[trigger] s[i])) ==> lex(s) is Ok
            || lex(s) == Err::<Seq<SpecToken>, CalcError>(CalcError::NumericParse),
    decreases s.len(),
{
    if s.len() > 0 {
        let n: int = if is_numeric(s[0]) {
            numeric_run(s) as int
        } else {
            1
        };
        lemma_numeric_run_bounds(s);
        let rest = s.skip(n);
        lemma_lexical_error(rest);
        if let Err(CalcError::Lexical(c)) = lex(s) {
            if rest.contains(c) {
                let i = choose|i: int| 0 <= i < rest.len() && rest[i] == c;
                assert(s[i + n] == c);
            } else {
                assert(s[0] == c);
            }
        }
        if forall|i: int| 0 <= i < s.len() ==> is_expression_char(#[trigger] s[i]) {
            assert forall|i: int| 0 <= i < rest.len() implies is_expression_char(
                #[trigger] rest[i],
            ) by {
                assert(rest[i] == s[i + n]);
            }
        }
    }
}

/// Putting two prefixes in front, one after the other, is putting their
/// concatenation in front.
pub proof fn lemma_after_after(
    a: Seq<SpecToken>,
    b: Seq<SpecToken>,
    rest: Result<Seq<SpecToken>, CalcError>,
)
    ensures
        after(a, after(b, rest)) == after(a + b, rest),
{
    if let Ok(tokens) = rest {
        assert(a + (b + tokens) =~= (a + b) + tokens);
    }
}

} // verus!
