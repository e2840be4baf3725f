use calculi::token::is_operator_char;
use calculi::{calculate, eval_rpn, precedence, to_rpn, tokenize, CalcError, Literal, Token};

fn length(literal: &Literal) -> i64 {
    literal.chars().len() as i64
}

fn whole(op: char, a: i64, b: i64) -> i64 {
    match op {
        '+' => a.wrapping_add(b),
        '-' => a.wrapping_sub(b),
        '*' => a.wrapping_mul(b),
        _ => a.checked_div(b).unwrap_or(0),
    }
}

#[test]
fn the_crate_root_offers_the_pipeline() {
    let tokens = tokenize("111+22*3").unwrap();
    assert_eq!(tokens.len(), 5);
    let postfix = to_rpn(tokens);
    assert_eq!(postfix.last(), Some(&Token::Op('+')));
    assert_eq!(eval_rpn(postfix, length, whole), Ok(5));
    assert_eq!(calculate("111+22*3", length, whole), Ok(5));
    assert_eq!(calculate("1 ?", length, whole), Err(CalcError::Lexical('?')));
    assert_eq!(precedence('*'), 2);
}

#[test]
fn the_operator_symbols_are_four() {
    for c in ['+', '-', '*', '/'] {
        assert!(is_operator_char(c));
        assert!(precedence(c) > 0);
    }
    for c in ['(', ')', ' ', '.', '0', '^', '%', '=', 'x'] {
        assert!(!is_operator_char(c));
        assert_eq!(precedence(c), 0);
    }
}

#[test]
fn what_evaluates_holds_one_number_more_than_operators() {
    for text in ["1", "1+2", "(1+2)*3", "8-3-2", "1+2*3-4/5", "3)", "((1))*2"] {
        let postfix = to_rpn(tokenize(text).unwrap());
        let numbers = postfix.iter().filter(|t| matches!(t, Token::Number(_))).count();
        let operators = postfix.iter().filter(|t| matches!(t, Token::Op(_))).count();
        assert!(eval_rpn(postfix.clone(), length, whole).is_ok(), "{:?}", text);
        assert_eq!(numbers, operators + 1, "{:?}", text);
        assert_eq!(numbers + operators, postfix.len(), "{:?}", text);
    }
}

#[test]
fn the_conversion_keeps_the_numbers_in_order() {
    for text in ["1 22 333", "1+22*333", "(1+22)*333", ")1(22+(333", "1*22)+333"] {
        let tokens = tokenize(text).unwrap();
        let before: Vec<Token> =
            tokens.iter().filter(|t| matches!(t, Token::Number(_))).cloned().collect();
        let postfix = to_rpn(tokens);
        let after: Vec<Token> =
            postfix.iter().filter(|t| matches!(t, Token::Number(_))).cloned().collect();
        assert_eq!(before, after, "{:?}", text);
        assert!(!postfix.contains(&Token::RParen), "{:?}", text);
    }
}

#[test]
fn the_value_is_that_of_the_tree() {
    // (8 - 3) * 2 with each literal read as its length: (1 - 1) * 1
    assert_eq!(calculate("(8-3)*2", length, whole), Ok(0));
    // 100 - 20 - 3 read as lengths: (3 - 2) - 1
    assert_eq!(calculate("100-20-3", length, whole), Ok(0));
    // 100 - (20 - 3): 3 - (2 - 1)
    assert_eq!(calculate("100-(20-3)", length, whole), Ok(2));
    // 1 + 22 * 333: 1 + 2 * 3
    assert_eq!(calculate("1+22*333", length, whole), Ok(7));
}
