use calculi::error::CalcError;
use calculi::lexer::tokenize;
use calculi::token::{check_decimal, is_digit_char, is_numeric_char, Literal, Token};

fn num(text: &str) -> Token {
    Token::Number(Literal::new(text).unwrap())
}

#[test]
fn empty_text_has_no_tokens() {
    assert_eq!(tokenize(""), Ok(vec![]));
}

#[test]
fn spaces_alone_have_no_tokens() {
    assert_eq!(tokenize("   "), Ok(vec![]));
}

#[test]
fn tokens_of_a_sum_and_a_product() {
    assert_eq!(
        tokenize("3+4*2"),
        Ok(vec![num("3"), Token::Op('+'), num("4"), Token::Op('*'), num("2")])
    );
}

#[test]
fn every_operator_and_both_parentheses() {
    assert_eq!(
        tokenize("+-*/()"),
        Ok(vec![
            Token::Op('+'),
            Token::Op('-'),
            Token::Op('*'),
            Token::Op('/'),
            Token::LParen,
            Token::RParen,
        ])
    );
}

#[test]
fn spaces_are_dropped() {
    assert_eq!(
        tokenize(" 12.5 * ( 3 - 1 ) "),
        Ok(vec![
            num("12.5"),
            Token::Op('*'),
            Token::LParen,
            num("3"),
            Token::Op('-'),
            num("1"),
            Token::RParen,
        ])
    );
}

#[test]
fn a_space_ends_a_number() {
    assert_eq!(tokenize("3 4"), Ok(vec![num("3"), num("4")]));
}

#[test]
fn digits_and_points_run_together() {
    assert_eq!(tokenize("10.25"), Ok(vec![num("10.25")]));
    assert_eq!(tokenize("007"), Ok(vec![num("007")]));
}

#[test]
fn a_number_at_the_end_is_flushed() {
    assert_eq!(tokenize("(1+23"), Ok(vec![Token::LParen, num("1"), Token::Op('+'), num("23")]));
}

#[test]
fn a_point_may_lead_or_trail() {
    assert_eq!(tokenize(".5"), Ok(vec![num(".5")]));
    assert_eq!(tokenize("5."), Ok(vec![num("5.")]));
    assert_eq!(tokenize("5.+.5"), Ok(vec![num("5."), Token::Op('+'), num(".5")]));
}

#[test]
fn the_literal_keeps_its_text() {
    let tokens = tokenize("1.50").unwrap();
    match &tokens[0] {
        Token::Number(literal) => {
            let text: String = literal.chars().iter().collect();
            assert_eq!(text, "1.50");
        }
        other => panic!("not a number: {:?}", other),
    }
}

#[test]
fn an_unknown_character_is_a_lexical_error() {
    assert_eq!(tokenize("3+x"), Err(CalcError::Lexical('x')));
}

#[test]
fn the_first_unknown_character_is_named() {
    assert_eq!(tokenize("a+b"), Err(CalcError::Lexical('a')));
    assert_eq!(tokenize("1 + 2 = 3 ?"), Err(CalcError::Lexical('=')));
}

#[test]
fn only_the_space_separates() {
    assert_eq!(tokenize("3\t4"), Err(CalcError::Lexical('\t')));
    assert_eq!(tokenize("3\n"), Err(CalcError::Lexical('\n')));
}

#[test]
fn other_scripts_have_no_digits() {
    assert_eq!(tokenize("٣"), Err(CalcError::Lexical('٣')));
}

#[test]
fn a_sign_or_an_exponent_is_no_part_of_a_number() {
    assert_eq!(tokenize("-3"), Ok(vec![Token::Op('-'), num("3")]));
    assert_eq!(tokenize("1e5"), Err(CalcError::Lexical('e')));
    assert_eq!(tokenize("1,000"), Err(CalcError::Lexical(',')));
}

#[test]
fn two_points_are_a_numeric_error() {
    assert_eq!(tokenize("1.2.3"), Err(CalcError::NumericParse));
    assert_eq!(tokenize("1..2"), Err(CalcError::NumericParse));
}

#[test]
fn a_point_alone_is_a_numeric_error() {
    assert_eq!(tokenize("."), Err(CalcError::NumericParse));
    assert_eq!(tokenize("3 + ."), Err(CalcError::NumericParse));
}

#[test]
fn the_error_further_left_wins() {
    assert_eq!(tokenize("1..2x"), Err(CalcError::NumericParse));
    assert_eq!(tokenize("1..2 x"), Err(CalcError::NumericParse));
    assert_eq!(tokenize("x1..2"), Err(CalcError::Lexical('x')));
    assert_eq!(tokenize("1.5x..2"), Err(CalcError::Lexical('x')));
}

#[test]
fn texts_of_expression_characters_never_fail_lexically() {
    let texts = [
        "", "1", "1+", "+", "((", "))", ")(", "1 2", "1..2", ".", "..", "1.+.1", "*/", "( )",
        "0/0", "9.9.9", " . ", "1+2*3-4/5", "(((1)))", "1(2)", "+.+",
    ];
    for text in texts {
        match tokenize(text) {
            Ok(_) | Err(CalcError::NumericParse) => {}
            Err(other) => panic!("{:?} on {:?}", other, text),
        }
    }
}

#[test]
fn literals_are_the_decimal_numbers() {
    for text in ["0", "12", "1.5", ".5", "5.", "000.000", "123456789012345678901234567890"] {
        let literal = Literal::new(text).unwrap();
        let back: String = literal.chars().iter().collect();
        assert_eq!(back, text);
    }
    for text in ["", ".", "..", "1.2.3", "1..", "..1", "1e5", "-1", "+1", " 1", "1 ", "inf", "nan", "1_0"] {
        assert_eq!(Literal::new(text), None);
    }
}

#[test]
fn literals_are_what_the_standard_parser_takes() {
    let alphabet = ['0', '7', '.'];
    let mut texts = vec![String::new()];
    for _ in 0..5 {
        let mut longer = Vec::new();
        for text in &texts {
            for c in alphabet {
                let mut t = text.clone();
                t.push(c);
                longer.push(t);
            }
        }
        for text in &longer {
            assert_eq!(
                Literal::new(text).is_some(),
                text.parse::<f64>().is_ok(),
                "{:?}",
                text
            );
        }
        texts = longer;
    }
}

#[test]
fn literal_from_chars_agrees_with_check() {
    let good: Vec<char> = "3.14".chars().collect();
    let bad: Vec<char> = "3.1.4".chars().collect();
    assert!(check_decimal(&good));
    assert!(!check_decimal(&bad));
    assert!(!check_decimal(&Vec::new()));
    assert_eq!(Literal::from_chars(good.clone()).unwrap().chars(), &good);
    assert_eq!(Literal::from_chars(bad), None);
}

#[test]
fn character_classes() {
    for c in '0'..='9' {
        assert!(is_digit_char(c));
        assert!(is_numeric_char(c));
    }
    assert!(is_numeric_char('.'));
    assert!(!is_digit_char('.'));
    for c in ['/', ':', ' ', 'a', '+', '-', '(', ',', '٣'] {
        assert!(!is_digit_char(c));
        assert!(!is_numeric_char(c));
    }
}

#[test]
fn a_cloned_token_is_equal() {
    let token = num("2.5");
    assert_eq!(token.clone(), token);
    assert_eq!(Token::Op('*').clone(), Token::Op('*'));
    assert_eq!(Token::LParen.clone(), Token::LParen);
    assert_eq!(Token::RParen.clone(), Token::RParen);
}
