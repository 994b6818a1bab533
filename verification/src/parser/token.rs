//! Tokens.

use vstd::prelude::*;
use crate::text::single_token;

verus! {

/// The kinds of token. `TokenNone` stands for the end of the input.
#[derive(Debug, PartialEq, Eq, Clone, Copy, Structural)]
pub enum TokenType {
    TokenNone,
    TokenID,
    TokenString,
    TokenEqual,
    TokenComma,
    TokenNewLine,
    TokenLBracket,
    TokenRBracket,
}

/// A token: its kind and its text.
#[derive(Debug, PartialEq, Eq)]
pub struct Token {
    pub token_type: TokenType,
    pub value: String,
}

/// What a token is, as a value of specifications.
pub struct Lexeme {
    pub kind: TokenType,
    pub text: Seq<char>,
}

impl View for Token {
    type V = Lexeme;

    open spec fn view(&self) -> Lexeme {
        Lexeme { kind: self.token_type, text: self.value@ }
    }
}

impl Token {
    pub fn new(t: TokenType, v: &str) -> (token: Self)
        ensures
            token@ == (Lexeme { kind: t, text: v@ }),
    {
        Token { token_type: t, value: String::from_str(v) }
    }

    /// Whether `s` is one of the characters that are tokens by themselves.
    pub fn is_single_token(s: char) -> (r: bool)
        ensures
            r == single_token(s),
    {
        s == '=' || s == '[' || s == ']' || s == ',' || s == '\n'
    }
}

} // verus!
