//! The data model of one scan pass: token kinds, literal payloads, tokens,
//! and recoverable lexical errors.

use vstd::prelude::*;

verus! {

/// The closed set of token kinds: single-character punctuation, one- and
/// two-character operators, the three literal-bearing kinds, each reserved
/// keyword, and the end-of-input sentinel.
#[derive(Debug, Clone, Copy, PartialEq, Eq, Structural)]
pub enum TokenType {
    LeftParen,
    RightParen,
    LeftBrace,
    RightBrace,
    Comma,
    Dot,
    Minus,
    Plus,
    Semicolon,
    Slash,
    Star,
    Bang,
    BangEqual,
    Equal,
    EqualEqual,
    Greater,
    GreaterEqual,
    Less,
    LessEqual,
    Identifier,
    Str,
    Number,
    And,
    Class,
    Else,
    False,
    Fun,
    For,
    If,
    Nil,
    Or,
    Print,
    Return,
    Super,
    This,
    True,
    Var,
    While,
    Eof,
}

/// A literal payload, present only on identifier, string and number tokens.
///
/// A number literal carries the exact spelling of the number (a digit run,
/// optionally one decimal point followed by at least one more digit); turning
/// that spelling into a machine float is left to the caller.
#[derive(Debug, Clone, PartialEq, Eq)]
pub enum Literal {
    Identifier(String),
    Str(String),
    Number(String),
}

/// One classified unit of lexical output.  `line` and `column` are the
/// 1-based position of the token's first character.
#[derive(Debug, Clone, PartialEq, Eq)]
pub struct Token {
    pub token_type: TokenType,
    pub literal: Option<Literal>,
    pub line: usize,
    pub column: usize,
}

impl Token {
    pub fn new(token_type: TokenType, literal: Option<Literal>, line: usize, column: usize) -> (t:
        Token)
        ensures
            t.token_type == token_type,
            t.literal == literal,
            t.line == line,
            t.column == column,
    {
        Token { token_type, literal, line, column }
    }
}

/// One recoverable lexical error: a message and the 1-based position of the
/// offending input.
#[derive(Debug, Clone, PartialEq, Eq)]
pub struct ParserError {
    pub file: String,
    pub error: String,
    pub line: usize,
    pub column: usize,
}

impl ParserError {
    pub fn new(file: String, error: String, line: usize, column: usize) -> (e: ParserError)
        ensures
            e.file == file,
            e.error == error,
            e.line == line,
            e.column == column,
    {
        ParserError { file, error, line, column }
    }
}

} // verus!
