//! What the parsers report when an input cannot be parsed.

use vstd::prelude::*;

verus! {

/// What a parser was looking for at the place where it stopped.
#[derive(Debug, Clone, Copy, PartialEq, Eq)]
pub enum Expected {
    /// This very character.
    Char(char),
    /// The start of something that can be read at all.
    Token,
    /// A node of a document: a tag, a comment or a text run.
    Node,
    /// The end tag that closes the open element.
    EndTag,
    /// A selector: a tag, a class or an id.
    Selector,
    /// The selector on the left of a combinator.
    LeftOperand,
    /// A length: a number with its unit, or a keyword.
    Length,
    /// A decimal number with at most one point.
    Number,
    /// One to four lengths.
    OneToFourLengths,
    /// A property that takes a single value.
    Longhand,
    /// A property that stands for four others.
    Shorthand,
}

/// What stood at the place where a parser stopped.
#[derive(Debug, Clone, Copy, PartialEq, Eq)]
pub enum Found {
    /// This character.
    Char(char),
    /// The end of the input.
    EndOfInput,
    /// An end tag, where a token stream was read.
    EndTagToken,
    /// A token that marks unreadable input, where a token stream was read.
    IllegalToken,
    /// The token that ends a token stream.
    EofToken,
    /// Any other token, where a token stream was read.
    OtherToken,
}

/// The two families of errors.
#[derive(Debug, Clone, Copy, PartialEq, Eq)]
pub enum ErrorKind {
    /// Nothing that can be read starts at the offset.
    LexError,
    /// A delimiter, a tag or a selector that had to be there is not.
    StructuralParseError,
}

/// Why and where a parse stopped. A parse that returns one has produced
/// nothing else.
#[derive(Debug, Clone, Copy, PartialEq, Eq)]
pub struct ParseError {
    /// The family of the error.
    pub kind: ErrorKind,
    /// How many characters (or tokens, where tokens are read) precede the
    /// place of the error.
    pub offset: usize,
    /// What was looked for there.
    pub expected: Expected,
    /// What was there.
    pub found: Found,
}

/// What stands at `p` in `s`: a character, or the end.
pub open spec fn found_at(s: Seq<char>, p: int) -> Found {
    if 0 <= p < s.len() {
        Found::Char(s[p])
    } else {
        Found::EndOfInput
    }
}

/// The error for a missing delimiter, tag or selector at `p`.
pub open spec fn structural(s: Seq<char>, p: int, expected: Expected) -> ParseError {
    ParseError { kind: ErrorKind::StructuralParseError, offset: p as usize, expected, found: found_at(s, p) }
}

/// The error for input at `p` with which nothing readable starts.
pub open spec fn lexical(s: Seq<char>, p: int, expected: Expected) -> ParseError {
    ParseError { kind: ErrorKind::LexError, offset: p as usize, expected, found: found_at(s, p) }
}

} // verus!
