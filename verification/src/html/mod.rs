//! Markup read in two steps: a lexer turns the text into tokens, and a
//! parser builds trees from the tokens.

pub mod dom;
pub mod lexer;
pub mod token;
