//! The recursive-descent parser, with one token of lookahead.

use vstd::prelude::*;
use crate::decimal::parse_int_str;
use crate::parser::ast::{lemma_models_push, models, Node, AST};
use crate::parser::grammar::{
    expect, head, lemma_parse_statement_consumes, lemma_parse_value_consumes,
    parse_array, parse_atom, parse_document, parse_items, parse_statement, parse_statements,
    parse_tag, parse_text, parse_value, parse_variable, Expecting, Failed, Parsed,
    SyntaxError,
};
use crate::parser::lexer::{chars_of_bytes, lemma_next_lexeme_advances, lexemes_from, Lexer};
use crate::parser::token::{Lexeme, Token, TokenType};

verus! {

/// Why parsing failed.
#[derive(Debug, PartialEq, Eq)]
pub enum ParseError {
    /// A token that the grammar does not allow where it stands, by kind and
    /// text. The end of the input counts as a token of kind `TokenNone`.
    UnexpectedToken(TokenType, String),
    /// An atom that is neither `true` nor `false` nor a 32-bit decimal integer.
    InvalidInteger(String),
}

impl View for ParseError {
    type V = SyntaxError;

    open spec fn view(&self) -> SyntaxError {
        match self {
            ParseError::UnexpectedToken(kind, text) => SyntaxError::UnexpectedToken(*kind, text@),
            ParseError::InvalidInteger(text) => SyntaxError::InvalidInteger(text@),
        }
    }
}

/// Whether a parsing step that ended in `r`, with the tokens `after` still to
/// read, did what the grammar says: on success the tree and the tokens behind
/// it, on failure the error and the tokens that were unread when it showed.
pub open spec fn yields(
    r: Result<AST, ParseError>,
    after: Seq<Lexeme>,
    expected: Parsed<Node>,
) -> bool {
    match expected {
        Ok((node, rest)) => r matches Ok(tree) && tree@ == node && after == rest,
        Err(failed) => r matches Err(x) && x@ == failed.error && after == failed.rest,
    }
}

/// A tokenizer and the token that was read from it last.
pub struct Parser {
    lexer: Lexer,
    token: Option<Token>,
}

impl Parser {
    /// The tokens that the parser has still to read: the lookahead and what
    /// the tokenizer holds behind it. Without a lookahead there are none.
    pub closed spec fn stream(self) -> Seq<Lexeme> {
        match self.token {
            Some(t) => seq![t@] + self.lexer.remaining(),
            None => Seq::empty(),
        }
    }

    /// The tokens that the tokenizer has not handed out yet.
    pub closed spec fn pending(self) -> Seq<Lexeme> {
        self.lexer.remaining()
    }

    /// A parser for `content`, without a lookahead.
    pub fn new(content: Vec<u8>) -> (parser: Self)
        ensures
            parser.stream() == Seq::<Lexeme>::empty(),
            parser.pending() == lexemes_from(chars_of_bytes(content@), 0),
    {
        Parser { lexer: Lexer::new(content), token: None }
    }

    /// Reads the next token from the tokenizer into the lookahead.
    fn advance(&mut self)
        ensures
            final(self).stream() == old(self).pending(),
    {
        let ghost s = self.lexer.text();
        let ghost pos = self.lexer.position();
        self.token = self.lexer.get_next_token();
        proof {
            lemma_next_lexeme_advances(s, pos);
        }
    }

    /// A copy of the lookahead; at the end of the input, a token of kind
    /// `TokenNone`.
    pub fn get_token(&self) -> (token: Token)
        ensures
            token@ == head(self.stream()),
    {
        match &self.token {
            Some(t) => {
                assert(self.stream()[0] == t@);
                Token { token_type: t.token_type, value: t.value.clone() }
            },
            None => Token::new(TokenType::TokenNone, "\0"),
        }
    }

    /// Takes the lookahead if it is of the given kind, and fails otherwise.
    pub fn consume(&mut self, token_type: TokenType) -> (r: Result<(), ParseError>)
        ensures
            match expect(old(self).stream(), token_type) {
                Ok(rest) => r is Ok && final(self).stream() == rest,
                Err(failed) => r matches Err(x) && x@ == failed.error && final(self).stream()
                    == old(self).stream(),
            },
    {
        let t: Token = self.get_token();
        if self.token.is_some() && t.token_type == token_type {
            assert(self.stream().skip(1) =~= self.pending());
            self.advance();
            Ok(())
        } else {
            Err(ParseError::UnexpectedToken(t.token_type, t.value))
        }
    }

    /// Parses the whole input that the tokenizer has not handed out yet.
    pub fn parse(&mut self) -> (r: Result<AST, ParseError>)
        ensures
            match parse_document(old(self).pending()) {
                Ok(document) => r matches Ok(tree) && tree@ == document && final(self).stream()
                    == Seq::<Lexeme>::empty(),
                Err(failed) => r matches Err(x) && x@ == failed.error && final(self).stream()
                    == failed.rest,
            },
    {
        self.advance();
        self.parse_multiple_statement()
    }

    pub fn parse_statement(&mut self) -> (r: Result<AST, ParseError>)
        ensures
            yields(r, final(self).stream(), parse_statement(old(self).stream())),
    {
        let t: Token = self.get_token();
        if self.token.is_none() {
            return Ok(AST::ASTSeparator());
        }
        match t.token_type {
            TokenType::TokenID => self.parse_variable(),
            TokenType::TokenNewLine => Ok(AST::ASTSeparator()),
            TokenType::TokenLBracket => self.parse_tag(),
            _ => Err(ParseError::UnexpectedToken(t.token_type, t.value)),
        }
    }

    pub fn parse_multiple_statement(&mut self) -> (r: Result<AST, ParseError>)
        ensures
            match parse_document(old(self).stream()) {
                Ok(document) => r matches Ok(tree) && tree@ == document && final(self).stream()
                    == Seq::<Lexeme>::empty(),
                Err(failed) => r matches Err(x) && x@ == failed.error && final(self).stream()
                    == failed.rest,
            },
    {
        let mut statements: Vec<AST> = Vec::new();
        assert(models(statements@) =~= Seq::empty());
        loop
            invariant
                parse_statements(old(self).stream(), Seq::empty()) == parse_statements(
                    self.stream(),
                    models(statements@),
                ),
            decreases self.stream().len(),
        {
            let ghost before = self.stream();
            proof {
                lemma_parse_statement_consumes(before);
            }
            match self.parse_statement() {
                Err(e) => {
                    return Err(e);
                },
                Ok(statement) => {
                    proof {
                        lemma_models_push(statements@, statement);
                    }
                    statements.push(statement);
                },
            }
            if self.token.is_none() {
                return Ok(AST::ASTCompound(statements));
            }
            match self.consume(TokenType::TokenNewLine) {
                Err(e) => {
                    return Err(e);
                },
                Ok(_) => {},
            }
        }
    }

    pub fn parse_tag(&mut self) -> (r: Result<AST, ParseError>)
        ensures
            yields(r, final(self).stream(), parse_tag(old(self).stream())),
    {
        match self.consume(TokenType::TokenLBracket) {
            Err(e) => {
                return Err(e);
            },
            Ok(_) => {},
        }
        let tag: String = self.get_token().value;
        match self.consume(TokenType::TokenID) {
            Err(e) => {
                return Err(e);
            },
            Ok(_) => {},
        }
        match self.consume(TokenType::TokenRBracket) {
            Err(e) => {
                return Err(e);
            },
            Ok(_) => {},
        }
        Ok(AST::ASTTagDefinition(tag))
    }

    pub fn parse_variable(&mut self) -> (r: Result<AST, ParseError>)
        ensures
            yields(r, final(self).stream(), parse_variable(old(self).stream())),
    {
        let var_name: String = self.get_token().value;
        match self.consume(TokenType::TokenID) {
            Err(e) => {
                return Err(e);
            },
            Ok(_) => {},
        }
        match self.consume(TokenType::TokenEqual) {
            Err(e) => {
                return Err(e);
            },
            Ok(_) => {},
        }
        match self.parse_value() {
            Err(e) => Err(e),
            Ok(value) => Ok(AST::ASTVariableDefinition(var_name, Box::new(value))),
        }
    }

    pub fn parse_value(&mut self) -> (r: Result<AST, ParseError>)
        ensures
            yields(r, final(self).stream(), parse_value(old(self).stream())),
        decreases old(self).stream().len(), 1nat,
    {
        let token: Token = self.get_token();
        match token.token_type {
            TokenType::TokenID => self.parse_value_from_id(),
            TokenType::TokenString => self.parse_string(),
            TokenType::TokenLBracket => self.parse_array(),
            _ => Err(ParseError::UnexpectedToken(token.token_type, token.value)),
        }
    }

    pub fn parse_value_from_id(&mut self) -> (r: Result<AST, ParseError>)
        ensures
            yields(r, final(self).stream(), parse_atom(old(self).stream())),
    {
        let token: Token = self.get_token();
        match self.consume(TokenType::TokenID) {
            Err(e) => {
                return Err(e);
            },
            Ok(_) => {},
        }
        if token.value == String::from_str("true") {
            Ok(AST::ASTBool(true))
        } else if token.value == String::from_str("false") {
            Ok(AST::ASTBool(false))
        } else {
            match parse_int_str(token.value.as_str()) {
                Some(i) => Ok(AST::ASTInt(i)),
                None => Err(ParseError::InvalidInteger(token.value)),
            }
        }
    }

    pub fn parse_string(&mut self) -> (r: Result<AST, ParseError>)
        ensures
            yields(r, final(self).stream(), parse_text(old(self).stream())),
    {
        let token: Token = self.get_token();
        match self.consume(TokenType::TokenString) {
            Err(e) => Err(e),
            Ok(_) => Ok(AST::ASTString(token.value)),
        }
    }

    pub fn parse_array(&mut self) -> (r: Result<AST, ParseError>)
        ensures
            yields(r, final(self).stream(), parse_array(old(self).stream())),
        decreases old(self).stream().len(), 0nat,
    {
        match self.consume(TokenType::TokenLBracket) {
            Err(e) => {
                return Err(e);
            },
            Ok(_) => {},
        }
        let ghost inside = self.stream();
        let mut array: Vec<AST> = Vec::new();
        let mut state: Expecting = Expecting::ValueOrEnd;
        assert(models(array@) =~= Seq::empty());
        loop
            invariant
                self.stream().len() <= inside.len(),
                expect(old(self).stream(), TokenType::TokenLBracket) == Ok::<
                    Seq<Lexeme>,
                    Failed,
                >(inside),
                parse_items(inside, Expecting::ValueOrEnd, Seq::empty()) == parse_items(
                    self.stream(),
                    state,
                    models(array@),
                ),
            decreases self.stream().len(),
        {
            let token: Token = self.get_token();
            if self.token.is_none() {
                return Err(ParseError::UnexpectedToken(token.token_type, token.value));
            }
            match token.token_type {
                TokenType::TokenID | TokenType::TokenString | TokenType::TokenLBracket => {
                    if state == Expecting::CommaOrEnd {
                        return Err(ParseError::UnexpectedToken(token.token_type, token.value));
                    }
                    proof {
                        lemma_parse_value_consumes(self.stream());
                    }
                    match self.parse_value() {
                        Err(e) => {
                            return Err(e);
                        },
                        Ok(value) => {
                            proof {
                                lemma_models_push(array@, value);
                            }
                            array.push(value);
                            state = Expecting::CommaOrEnd;
                        },
                    }
                },
                TokenType::TokenComma => {
                    if state != Expecting::CommaOrEnd {
                        return Err(ParseError::UnexpectedToken(token.token_type, token.value));
                    }
                    state = Expecting::Value;
                    let _ = self.consume(TokenType::TokenComma);
                },
                TokenType::TokenRBracket => {
                    if state == Expecting::Value {
                        return Err(ParseError::UnexpectedToken(token.token_type, token.value));
                    }
                    let _ = self.consume(TokenType::TokenRBracket);
                    return Ok(AST::ASTArray(array));
                },
                TokenType::TokenNewLine => {
                    let _ = self.consume(TokenType::TokenNewLine);
                },
                _ => {
                    return Err(ParseError::UnexpectedToken(token.token_type, token.value));
                },
            }
        }
    }
}

} // verus!
