//! The grammar, as functions from a row of tokens to a tree.
//!
//! ```text
//! Document      := Statement ( '\n' Statement )*
//! Statement     := SectionHeader | Assignment | /* blank */
//! SectionHeader := '[' Atom ']'
//! Assignment    := Atom '=' Value
//! Value         := Atom | String | Array
//! Array         := '[' ( Value ( ',' Value )* )? ']'     -- line breaks are skipped inside
//! ```

use vstd::prelude::*;
use crate::decimal::parse_decimal;
use crate::parser::ast::Node;
use crate::parser::token::{Lexeme, TokenType};

verus! {

/// Why a row of tokens is no document.
pub enum SyntaxError {
    /// A token that the grammar does not allow where it stands, by kind and
    /// text. The end of the input counts as a token of kind `TokenNone`.
    UnexpectedToken(TokenType, Seq<char>),
    /// An atom that is neither `true` nor `false` nor a 32-bit decimal integer.
    InvalidInteger(Seq<char>),
}

/// Where and why reading failed: the tokens that were still unread, and the
/// error. What had been read before stays read.
pub struct Failed {
    pub error: SyntaxError,
    pub rest: Seq<Lexeme>,
}

/// A tree together with the tokens behind it, or a failure.
pub type Parsed<T> = Result<(T, Seq<Lexeme>), Failed>;

/// The token at the head of a row; behind the last one stands the end of the input.
pub open spec fn head(ts: Seq<Lexeme>) -> Lexeme {
    if ts.len() > 0 {
        ts[0]
    } else {
        Lexeme { kind: TokenType::TokenNone, text: "\0"@ }
    }
}

pub open spec fn unexpected(ts: Seq<Lexeme>) -> SyntaxError {
    SyntaxError::UnexpectedToken(head(ts).kind, head(ts).text)
}

/// The failure at a token that may not stand at the head of the row: the
/// token is named and stays unread.
pub open spec fn stuck(ts: Seq<Lexeme>) -> Failed {
    Failed { error: unexpected(ts), rest: ts }
}

/// Takes a token of the given kind off the head of the row.
pub open spec fn expect(ts: Seq<Lexeme>, kind: TokenType) -> Result<Seq<Lexeme>, Failed> {
    if ts.len() > 0 && ts[0].kind == kind {
        Ok(ts.skip(1))
    } else {
        Err(stuck(ts))
    }
}

/// The literal that an atom stands for.
pub open spec fn atom_value(text: Seq<char>) -> Result<Node, SyntaxError> {
    if text == "true"@ {
        Ok(Node::Bool(true))
    } else if text == "false"@ {
        Ok(Node::Bool(false))
    } else {
        match parse_decimal(text) {
            Some(i) => Ok(Node::Int(i)),
            None => Err(SyntaxError::InvalidInteger(text)),
        }
    }
}

pub open spec fn parse_atom(ts: Seq<Lexeme>) -> Parsed<Node> {
    match expect(ts, TokenType::TokenID) {
        Err(e) => Err(e),
        Ok(rest) => match atom_value(ts[0].text) {
            Err(e) => Err(Failed { error: e, rest }),
            Ok(node) => Ok((node, rest)),
        },
    }
}

pub open spec fn parse_text(ts: Seq<Lexeme>) -> Parsed<Node> {
    match expect(ts, TokenType::TokenString) {
        Err(e) => Err(e),
        Ok(rest) => Ok((Node::Text(ts[0].text), rest)),
    }
}

/// Where the reading of an array stands.
#[derive(Clone, Copy, PartialEq, Eq, Structural)]
pub enum Expecting {
    /// Behind the opening bracket: a value or the closing bracket may follow.
    ValueOrEnd,
    /// Behind a value: a comma or the closing bracket may follow.
    CommaOrEnd,
    /// Behind a comma: a value must follow.
    Value,
}

pub open spec fn parse_value(ts: Seq<Lexeme>) -> Parsed<Node>
    decreases ts.len(), 1nat,
{
    match head(ts).kind {
        TokenType::TokenID => parse_atom(ts),
        TokenType::TokenString => parse_text(ts),
        TokenType::TokenLBracket => parse_array(ts),
        _ => Err(stuck(ts)),
    }
}

pub open spec fn parse_array(ts: Seq<Lexeme>) -> Parsed<Node>
    decreases ts.len(), 0nat,
{
    match expect(ts, TokenType::TokenLBracket) {
        Err(e) => Err(e),
        Ok(rest) => match parse_items(rest, Expecting::ValueOrEnd, Seq::empty()) {
            Err(e) => Err(e),
            Ok((items, rest)) => Ok((Node::Array(items), rest)),
        },
    }
}

/// Reads what follows in an array of which `items` have been read, up to and
/// with the closing bracket. By `lemma_parse_value_consumes` a value always
/// takes at least one token, so the test on the lengths never fails.
pub open spec fn parse_items(ts: Seq<Lexeme>, state: Expecting, items: Seq<Node>) -> Parsed<
    Seq<Node>,
>
    decreases ts.len(), 2nat,
{
    if ts.len() == 0 {
        Err(stuck(ts))
    } else {
        match ts[0].kind {
            TokenType::TokenNewLine => parse_items(ts.skip(1), state, items),
            TokenType::TokenComma => if state == Expecting::CommaOrEnd {
                parse_items(ts.skip(1), Expecting::Value, items)
            } else {
                Err(stuck(ts))
            },
            TokenType::TokenRBracket => if state == Expecting::Value {
                Err(stuck(ts))
            } else {
                Ok((items, ts.skip(1)))
            },
            TokenType::TokenID | TokenType::TokenString | TokenType::TokenLBracket => if state
                == Expecting::CommaOrEnd {
                Err(stuck(ts))
            } else {
                match parse_value(ts) {
                    Err(e) => Err(e),
                    Ok((value, rest)) => if rest.len() < ts.len() {
                        parse_items(rest, Expecting::CommaOrEnd, items.push(value))
                    } else {
                        Err(stuck(ts))
                    },
                }
            },
            _ => Err(stuck(ts)),
        }
    }
}

pub open spec fn parse_tag(ts: Seq<Lexeme>) -> Parsed<Node> {
    match expect(ts, TokenType::TokenLBracket) {
        Err(e) => Err(e),
        Ok(named) => match expect(named, TokenType::TokenID) {
            Err(e) => Err(e),
            Ok(closing) => match expect(closing, TokenType::TokenRBracket) {
                Err(e) => Err(e),
                Ok(rest) => Ok((Node::Section(named[0].text), rest)),
            },
        },
    }
}

pub open spec fn parse_variable(ts: Seq<Lexeme>) -> Parsed<Node> {
    match expect(ts, TokenType::TokenID) {
        Err(e) => Err(e),
        Ok(equals) => match expect(equals, TokenType::TokenEqual) {
            Err(e) => Err(e),
            Ok(valued) => match parse_value(valued) {
                Err(e) => Err(e),
                Ok((value, rest)) => Ok((Node::Assignment(ts[0].text, Box::new(value)), rest)),
            },
        },
    }
}

/// One statement. Where a line break or the end of the input stands in place
/// of a statement, the statement is blank and takes no token.
pub open spec fn parse_statement(ts: Seq<Lexeme>) -> Parsed<Node> {
    if ts.len() == 0 {
        Ok((Node::Blank, ts))
    } else {
        match ts[0].kind {
            TokenType::TokenID => parse_variable(ts),
            TokenType::TokenNewLine => Ok((Node::Blank, ts)),
            TokenType::TokenLBracket => parse_tag(ts),
            _ => Err(stuck(ts)),
        }
    }
}

/// The statements of a document of which `done` have been read. Behind every
/// statement stands a line break or the end of the input.
pub open spec fn parse_statements(ts: Seq<Lexeme>, done: Seq<Node>) -> Result<
    Seq<Node>,
    Failed,
>
    decreases ts.len(),
    via parse_statements_decreases
{
    match parse_statement(ts) {
        Err(e) => Err(e),
        Ok((statement, rest)) => if rest.len() == 0 {
            Ok(done.push(statement))
        } else if rest[0].kind == TokenType::TokenNewLine {
            parse_statements(rest.skip(1), done.push(statement))
        } else {
            Err(stuck(rest))
        },
    }
}

#[via_fn]
proof fn parse_statements_decreases(ts: Seq<Lexeme>, done: Seq<Node>) {
    lemma_parse_statement_consumes(ts);
}

pub open spec fn parse_document(ts: Seq<Lexeme>) -> Result<Node, Failed> {
    match parse_statements(ts, Seq::empty()) {
        Err(e) => Err(e),
        Ok(statements) => Ok(Node::Document(statements)),
    }
}

/// A value takes at least one token.
pub proof fn lemma_parse_value_consumes(ts: Seq<Lexeme>)
    ensures
        parse_value(ts) matches Ok((_, rest)) ==> rest.len() < ts.len(),
    decreases ts.len(), 1nat,
{
    if ts.len() > 0 && ts[0].kind == TokenType::TokenLBracket {
        lemma_parse_items_consumes(ts.skip(1), Expecting::ValueOrEnd, Seq::empty());
    }
}

/// The rest of an array takes at least one token.
pub proof fn lemma_parse_items_consumes(ts: Seq<Lexeme>, state: Expecting, items: Seq<Node>)
    ensures
        parse_items(ts, state, items) matches Ok((_, rest)) ==> rest.len() < ts.len(),
    decreases ts.len(), 0nat,
{
    if ts.len() > 0 {
        match ts[0].kind {
            TokenType::TokenNewLine => {
                lemma_parse_items_consumes(ts.skip(1), state, items);
            },
            TokenType::TokenComma => {
                lemma_parse_items_consumes(ts.skip(1), Expecting::Value, items);
            },
            TokenType::TokenID | TokenType::TokenString | TokenType::TokenLBracket => {
                if state != Expecting::CommaOrEnd {
                    match parse_value(ts) {
                        Ok((value, rest)) => {
                            if rest.len() < ts.len() {
                                lemma_parse_items_consumes(
                                    rest,
                                    Expecting::CommaOrEnd,
                                    items.push(value),
                                );
                            }
                        },
                        Err(_) => {},
                    }
                }
            },
            _ => {},
        }
    }
}

/// A statement leaves no more tokens than it found.
pub proof fn lemma_parse_statement_consumes(ts: Seq<Lexeme>)
    ensures
        parse_statement(ts) matches Ok((_, rest)) ==> rest.len() <= ts.len(),
{
    if ts.len() > 0 && ts[0].kind == TokenType::TokenID {
        lemma_parse_value_consumes(ts.skip(1).skip(1));
    }
}

} // verus!
