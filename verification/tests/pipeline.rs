use calculi::error::CalcError;
use calculi::pipeline::calculate;
use calculi::token::Literal;

fn number(literal: &Literal) -> f64 {
    let text: String = literal.chars().iter().collect();
    text.parse().unwrap()
}

fn apply(op: char, a: f64, b: f64) -> f64 {
    match op {
        '+' => a + b,
        '-' => a - b,
        '*' => a * b,
        '/' => a / b,
        _ => unreachable!(),
    }
}

fn calc(text: &str) -> Result<f64, CalcError> {
    calculate(text, number, apply)
}

#[test]
fn subtraction_associates_to_the_left() {
    assert_eq!(calc("8-3-2"), Ok(3.0));
}

#[test]
fn division_associates_to_the_left() {
    assert_eq!(calc("8/4/2"), Ok(1.0));
}

#[test]
fn multiplication_binds_tighter_than_addition() {
    assert_eq!(calc("3+4*2"), Ok(11.0));
}

#[test]
fn parentheses_group() {
    assert_eq!(calc("(3+4)*2"), Ok(14.0));
}

#[test]
fn division_by_zero_is_infinite() {
    assert_eq!(calc("5/0"), Ok(f64::INFINITY));
}

#[test]
fn zero_by_zero_is_not_a_number() {
    let value = calc("0/0").unwrap();
    assert!(value.is_nan());
    assert_ne!(value, value);
}

#[test]
fn a_missing_operand_underflows() {
    assert_eq!(calc("3+"), Err(CalcError::StackUnderflow));
}

#[test]
fn two_numbers_without_operator_are_malformed() {
    assert_eq!(calc("3 4"), Err(CalcError::MalformedResult));
}

#[test]
fn an_unknown_character_stops_the_calculation() {
    assert_eq!(calc("3+x"), Err(CalcError::Lexical('x')));
}

#[test]
fn decimal_numbers_add_up() {
    assert_eq!(calc("1.5+2.25"), Ok(3.75));
}

#[test]
fn a_misspelt_number_stops_the_calculation() {
    assert_eq!(calc("1.2.3+4"), Err(CalcError::NumericParse));
}

#[test]
fn an_empty_text_is_malformed() {
    assert_eq!(calc(""), Err(CalcError::MalformedResult));
    assert_eq!(calc("  "), Err(CalcError::MalformedResult));
    assert_eq!(calc("()"), Err(CalcError::MalformedResult));
}

#[test]
fn a_leading_minus_is_no_sign() {
    assert_eq!(calc("-3"), Err(CalcError::StackUnderflow));
    assert_eq!(calc("2*-3"), Err(CalcError::StackUnderflow));
}

#[test]
fn an_unclosed_parenthesis_reaches_the_evaluator() {
    assert_eq!(calc("(3+4"), Err(CalcError::UnexpectedToken));
    assert_eq!(calc("2*(3"), Err(CalcError::UnexpectedToken));
}

#[test]
fn a_stray_closing_parenthesis_is_ignored() {
    assert_eq!(calc("3)"), Ok(3.0));
    assert_eq!(calc("1+2)*3"), Ok(9.0));
}

#[test]
fn longer_expressions() {
    assert_eq!(calc("1+2*3-4/5"), Ok(1.0 + 2.0 * 3.0 - 4.0 / 5.0));
    assert_eq!(calc("((1+2)*(3-4))/5"), Ok(-0.6));
    assert_eq!(calc(" 10 / 4 * 2 "), Ok(5.0));
    assert_eq!(calc("2*(3+(4-1))*5"), Ok(60.0));
    assert_eq!(calc("100-1-1-1"), Ok(97.0));
    assert_eq!(calc("0.1+0.2"), Ok(0.1 + 0.2));
}

#[test]
fn numbers_are_read_as_the_standard_parser_reads_them() {
    assert_eq!(calc("007"), Ok(7.0));
    assert_eq!(calc(".5"), Ok(0.5));
    assert_eq!(calc("5."), Ok(5.0));
    assert_eq!(calc("123456789012345678901234567890"), Ok(123456789012345678901234567890.0));
}

#[test]
fn a_very_long_number_is_still_a_number() {
    let text = "9".repeat(400);
    assert_eq!(calc(&text), Ok(f64::INFINITY));
}

#[test]
fn redundant_parentheses_keep_the_result() {
    let texts = [
        "1", "8-3-2", "8/4/2", "3+4*2", "(3+4)*2", "1.5+2.25", "5/0", "3+", "3 4", "",
        "1.2.3", "3+x", "3)", "+", "2*(3+(4-1))*5",
    ];
    for text in texts {
        let wrapped = format!("({})", text);
        assert_eq!(calc(&wrapped), calc(text), "{:?}", text);
    }
}

#[test]
fn redundant_parentheses_keep_not_a_number() {
    assert!(calc("(0/0)").unwrap().is_nan());
}

#[test]
fn parentheses_around_an_unclosed_one_may_change_the_error() {
    assert_eq!(calc(")("), Err(CalcError::UnexpectedToken));
    assert_eq!(calc("()()"), Err(CalcError::MalformedResult));
    assert_eq!(calc("+("), Err(CalcError::UnexpectedToken));
    assert_eq!(calc("(+()"), Err(CalcError::StackUnderflow));
}

#[test]
fn well_formed_expressions_have_values() {
    let texts = [
        "1", "(1)", "1+2", "1-2", "1*2", "1/2", "1+2+3", "1*2*3", "1+2*3", "1*2+3",
        "(1+2)*3", "1*(2+3)", "((1))", "(1+2)*(3+4)", "1/(2/(3/4))", "1-(2-(3-4))",
        " 1 + 2 ", "( 1 )", "1.5*2.5", "0/0", "1/0",
    ];
    for text in texts {
        assert!(calc(text).is_ok(), "{:?}", text);
    }
}
