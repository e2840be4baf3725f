//! Tokens of an arithmetic expression and the number literals they carry.

use vstd::prelude::*;

verus! {

/// The ten ASCII digits.
pub open spec fn is_digit(c: char) -> bool {
    '0' <= c <= '9'
}

/// A character that may stand in a number literal: a digit or the decimal point.
pub open spec fn is_numeric(c: char) -> bool {
    is_digit(c) || c == '.'
}

/// Every position of `s` holds a digit or the decimal point.
pub open spec fn all_numeric(s: Seq<char>) -> bool {
    forall|i: int| 0 <= i < s.len() ==> is_numeric(#[trigger] s[i])
}

/// A decimal number: digits with at most one decimal point among them and at
/// least one digit, so `12`, `1.5`, `.5` and `7.` but neither `.` nor `1.2.3`.
pub open spec fn is_decimal(s: Seq<char>) -> bool {
    &&& all_numeric(s)
    &&& exists|i: int| 0 <= i < s.len() && is_digit(#[trigger] s[i])
    &&& forall|i: int, j: int|
        0 <= i < s.len() && 0 <= j < s.len() && #[trigger] s[i] == '.' && #[trigger] s[j] == '.'
            ==> i == j
}

/// The four operator symbols.
pub open spec fn is_operator(c: char) -> bool {
    c == '+' || c == '-' || c == '*' || c == '/'
}

/// Whether `c` is one of the ten ASCII digits.
pub fn is_digit_char(c: char) -> (r: bool)
    ensures
        r == is_digit(c),
{
    '0' <= c && c <= '9'
}

/// Whether `c` may stand in a number literal.
pub fn is_numeric_char(c: char) -> (r: bool)
    ensures
        r == is_numeric(c),
{
    is_digit_char(c) || c == '.'
}

/// Whether `c` is one of the four operator symbols.
pub fn is_operator_char(c: char) -> (r: bool)
    ensures
        r == is_operator(c),
{
    c == '+' || c == '-' || c == '*' || c == '/'
}

/// Decides whether `chars` spell a decimal number.
pub fn check_decimal(chars: &Vec<char>) -> (r: bool)
    ensures
        r == is_decimal(chars@),
{
    let mut numeric = true;
    let mut digit_seen = false;
    let mut point_seen = false;
    let mut point_twice = false;
    let ghost mut digit_at: int = 0;
    let ghost mut point_at: int = 0;
    let ghost mut second_at: int = 0;
    let mut i: usize = 0;
    while i < chars.len()
        invariant
            i <= chars.len(),
            numeric == (forall|k: int| 0 <= k < i ==> is_numeric(#[trigger] chars@[k])),
            digit_seen ==> 0 <= digit_at < i && is_digit(chars@[digit_at]),
            !digit_seen ==> forall|k: int| 0 <= k < i ==> !is_digit(#[trigger] chars@[k]),
            point_seen ==> 0 <= point_at < i && chars@[point_at] == '.',
            !point_seen ==> !point_twice && forall|k: int|
                0 <= k < i ==> #[trigger] chars@[k] != '.',
            point_twice ==> 0 <= second_at < i && chars@[second_at] == '.' && second_at
                != point_at,
            !point_twice ==> forall|k: int|
                0 <= k < i && #[trigger] chars@[k] == '.' ==> k == point_at,
        decreases chars.len() - i,
    {
        let c = chars[i];
        if is_digit_char(c) {
            digit_seen = true;
            proof {
                digit_at = i as int;
            }
        } else if c == '.' {
            if point_seen {
                point_twice = true;
                proof {
                    second_at = i as int;
                }
            } else {
                point_seen = true;
                proof {
                    point_at = i as int;
                }
            }
        } else {
            numeric = false;
        }
        i += 1;
    }
    numeric && digit_seen && !point_twice
}

/// The text of a decimal number, as it was written.
#[derive(Debug, PartialEq, Eq)]
pub struct Literal {
    chars: Vec<char>,
}

impl Clone for Literal {
    fn clone(&self) -> (r: Self)
        ensures
            r@ == self@,
    {
        proof {
            use_type_invariant(self);
        }
        let chars = self.chars.clone();
        Literal { chars }
    }
}

impl View for Literal {
    type V = Seq<char>;

    closed spec fn view(&self) -> Seq<char> {
        self.chars@
    }
}

impl Literal {
    /// Every literal spells a decimal number.
    #[verifier::type_invariant]
    pub open spec fn spells_decimal(self) -> bool {
        is_decimal(self@)
    }

    /// Accepts `chars` exactly when they spell a decimal number.
    pub fn from_chars(chars: Vec<char>) -> (r: Option<Literal>)
        ensures
            r is Some == is_decimal(chars@),
            r matches Some(literal) ==> literal@ == chars@,
    {
        if check_decimal(&chars) {
            Some(Literal { chars })
        } else {
            None
        }
    }

    /// Accepts `text` exactly when it spells a decimal number.
    pub fn new(text: &str) -> (r: Option<Literal>)
        ensures
            r is Some == is_decimal(text@),
            r matches Some(literal) ==> literal@ == text@,
    {
        let mut chars: Vec<char> = Vec::new();
        for c in it: text.chars()
            invariant
                it.seq() == text@,
                chars@ == text@.take(it.index()),
        {
            chars.push(c);
        }
        assert(text@.take(text@.len() as int) =~= text@);
        Literal::from_chars(chars)
    }

    /// The characters of the literal, which always spell a decimal number.
    pub fn chars(&self) -> (r: &Vec<char>)
        ensures
            r@ == self@,
            is_decimal(self@),
    {
        proof {
            use_type_invariant(self);
        }
        &self.chars
    }
}

/// One token of an expression.
#[derive(Debug, PartialEq, Eq)]
pub enum Token {
    /// A number, held as its literal.
    Number(Literal),
    /// An operator symbol.
    Op(char),
    /// An opening parenthesis.
    LParen,
    /// A closing parenthesis.
    RParen,
}

/// The mathematical value of a token: a number token is the text of its literal.
pub enum SpecToken {
    Number(Seq<char>),
    Op(char),
    LParen,
    RParen,
}

impl View for Token {
    type V = SpecToken;

    open spec fn view(&self) -> SpecToken {
        match self {
            Token::Number(literal) => SpecToken::Number(literal@),
            Token::Op(op) => SpecToken::Op(*op),
            Token::LParen => SpecToken::LParen,
            Token::RParen => SpecToken::RParen,
        }
    }
}

impl Clone for Token {
    fn clone(&self) -> (r: Self)
        ensures
            r@ == self@,
    {
        match self {
            Token::Number(literal) => Token::Number(literal.clone()),
            Token::Op(op) => Token::Op(*op),
            Token::LParen => Token::LParen,
            Token::RParen => Token::RParen,
        }
    }
}

/// The values of a sequence of tokens, in order.
pub open spec fn token_views(tokens: Seq<Token>) -> Seq<SpecToken> {
    tokens.map_values(|t: Token| t@)
}

} // verus!
