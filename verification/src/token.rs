//! The lexical categories the scanner can produce.

use vstd::prelude::*;

verus! {

/// One lexical unit of source text.
///
/// Literal-bearing variants own their textual content, so a token
/// outlives the lexer that produced it. `Interpolation` carries the
/// literal prefix of a double-quoted string and the text of the
/// expression embedded after the `#{` marker.
#[derive(Debug, PartialEq, Eq)]
pub enum Token {
    Identifier(String),
    Number(i32),
    Text(String),
    Symbol(String),
    Interpolation(String, String),
    LeftBrace,
    RightBrace,
    LeftParenthesis,
    RightParenthesis,
    Comma,
    Colon,
    Arrow,
    Plus,
    Minus,
    Asterisk,
    Slash,
    Percent,
    Equal,
    EqualEqual,
    EqualEqualEqual,
    LessThan,
    LessThanOrEqual,
    GreaterThan,
    GreaterThanOrEqual,
    WhiteSpace,
    BreakLine,
    Eof,
    Illegal(String),
}

/// The mathematical shape of a [`Token`]: the same variants, with
/// character sequences in place of owned strings and an unbounded
/// integer in place of the machine integer.
pub enum TokenModel {
    Identifier(Seq<char>),
    Number(int),
    Text(Seq<char>),
    Symbol(Seq<char>),
    Interpolation(Seq<char>, Seq<char>),
    LeftBrace,
    RightBrace,
    LeftParenthesis,
    RightParenthesis,
    Comma,
    Colon,
    Arrow,
    Plus,
    Minus,
    Asterisk,
    Slash,
    Percent,
    Equal,
    EqualEqual,
    EqualEqualEqual,
    LessThan,
    LessThanOrEqual,
    GreaterThan,
    GreaterThanOrEqual,
    WhiteSpace,
    BreakLine,
    Eof,
    Illegal(Seq<char>),
}

impl View for Token {
    type V = TokenModel;

    open spec fn view(&self) -> TokenModel {
        match self {
            Token::Identifier(s) => TokenModel::Identifier(s@),
            Token::Number(n) => TokenModel::Number(*n as int),
            Token::Text(s) => TokenModel::Text(s@),
            Token::Symbol(s) => TokenModel::Symbol(s@),
            Token::Interpolation(p, e) => TokenModel::Interpolation(p@, e@),
            Token::LeftBrace => TokenModel::LeftBrace,
            Token::RightBrace => TokenModel::RightBrace,
            Token::LeftParenthesis => TokenModel::LeftParenthesis,
            Token::RightParenthesis => TokenModel::RightParenthesis,
            Token::Comma => TokenModel::Comma,
            Token::Colon => TokenModel::Colon,
            Token::Arrow => TokenModel::Arrow,
            Token::Plus => TokenModel::Plus,
            Token::Minus => TokenModel::Minus,
            Token::Asterisk => TokenModel::Asterisk,
            Token::Slash => TokenModel::Slash,
            Token::Percent => TokenModel::Percent,
            Token::Equal => TokenModel::Equal,
            Token::EqualEqual => TokenModel::EqualEqual,
            Token::EqualEqualEqual => TokenModel::EqualEqualEqual,
            Token::LessThan => TokenModel::LessThan,
            Token::LessThanOrEqual => TokenModel::LessThanOrEqual,
            Token::GreaterThan => TokenModel::GreaterThan,
            Token::GreaterThanOrEqual => TokenModel::GreaterThanOrEqual,
            Token::WhiteSpace => TokenModel::WhiteSpace,
            Token::BreakLine => TokenModel::BreakLine,
            Token::Eof => TokenModel::Eof,
            Token::Illegal(s) => TokenModel::Illegal(s@),
        }
    }
}

} // verus!
