//! An arithmetic expression calculator: a lexer, a shunting-yard converter to
//! postfix order and a postfix evaluator, each with a verified contract.
//!
//! [`tokenize`] turns a text into tokens, [`to_rpn`] puts them into postfix
//! order and [`eval_rpn`] evaluates that order on a stack; [`calculate`] does
//! the three in a row. The numbers are the caller's: the evaluator is handed
//! a function that reads a literal and one that applies an operator, and is
//! verified for any such pair.
//!
//! The modules `grammar` and `parentheses` hold what is proved of the three
//! together: that an expression written in the usual way is read in the usual
//! way, and that parentheses around a whole expression change nothing.

pub mod converter;
pub mod error;
pub mod evaluator;
pub mod grammar;
pub mod lexer;
pub mod parentheses;
pub mod pipeline;
pub mod token;

pub use converter::{precedence, to_rpn};
pub use error::CalcError;
pub use evaluator::eval_rpn;
pub use lexer::tokenize;
pub use pipeline::calculate;
pub use token::{Literal, Token};
