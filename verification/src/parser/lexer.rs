//! The tokenizer: a cursor over the input that hands out one token per call.

use vstd::prelude::*;
use crate::parser::token::{Lexeme, Token, TokenType};
use crate::text::{
    is_alphanumeric, lemma_scan, lemma_scan_is, push_char, scan, single_token, stops_at, Stop,
};

verus! {

/// The input as characters: every byte is read as the character with that code.
pub open spec fn chars_of_bytes(bytes: Seq<u8>) -> Seq<char> {
    Seq::new(bytes.len(), |i: int| bytes[i] as char)
}

/// The kind of a single-character token.
pub open spec fn single_kind(c: char) -> TokenType {
    if c == '=' {
        TokenType::TokenEqual
    } else if c == '[' {
        TokenType::TokenLBracket
    } else if c == ']' {
        TokenType::TokenRBracket
    } else if c == ',' {
        TokenType::TokenComma
    } else {
        TokenType::TokenNewLine
    }
}

/// The next token of `s` at or after `pos`, with the position behind it, or
/// `None` if only characters that begin no token are left.
///
/// Characters that begin no token are passed over. A quote opens a string that
/// runs to the next quote, or to the end of the input if there is none; its
/// text stands between the quotes. An atom runs to the next blank or
/// single-character token.
pub open spec fn next_lexeme(s: Seq<char>, pos: int) -> Option<(Lexeme, int)> {
    let p = scan(s, pos, Stop::TokenStart);
    if p >= s.len() {
        None
    } else if s[p] == '"' {
        let q = scan(s, p + 1, Stop::Char('"'));
        Some(
            (
                Lexeme { kind: TokenType::TokenString, text: s.subrange(p + 1, q) },
                if q < s.len() {
                    q + 1
                } else {
                    q
                },
            ),
        )
    } else if single_token(s[p]) {
        Some((Lexeme { kind: single_kind(s[p]), text: seq![s[p]] }, p + 1))
    } else {
        let q = scan(s, p, Stop::AtomEnd);
        Some((Lexeme { kind: TokenType::TokenID, text: s.subrange(p, q) }, q))
    }
}

/// All the tokens of `s` from `pos` on.
pub open spec fn lexemes_from(s: Seq<char>, pos: int) -> Seq<Lexeme>
    decreases s.len() - pos,
    via lexemes_from_decreases
{
    match next_lexeme(s, pos) {
        Some((lexeme, after)) => seq![lexeme] + lexemes_from(s, after),
        None => Seq::empty(),
    }
}

#[via_fn]
proof fn lexemes_from_decreases(s: Seq<char>, pos: int) {
    if 0 <= pos <= s.len() {
        lemma_next_lexeme_advances(s, pos);
    }
}

/// A token ends behind where it was looked for, and within the input.
pub proof fn lemma_next_lexeme_advances(s: Seq<char>, pos: int)
    requires
        0 <= pos <= s.len(),
    ensures
        next_lexeme(s, pos) matches Some((_, after)) ==> pos < after <= s.len(),
{
    let p = scan(s, pos, Stop::TokenStart);
    lemma_scan(s, pos, Stop::TokenStart);
    if p < s.len() {
        if s[p] == '"' {
            lemma_scan(s, p + 1, Stop::Char('"'));
        } else if !single_token(s[p]) {
            lemma_scan(s, p, Stop::AtomEnd);
        }
    }
}

/// At the end of the input no token is left, however often one asks.
pub proof fn lemma_end_is_final(s: Seq<char>)
    ensures
        next_lexeme(s, s.len() as int) is None,
        lexemes_from(s, s.len() as int) == Seq::<Lexeme>::empty(),
{
}

/// A cursor over the input.
pub struct Lexer {
    ptr: usize,
    content: Vec<u8>,
}

impl Lexer {
    #[verifier::type_invariant]
    spec fn in_bounds(self) -> bool {
        self.ptr <= self.content.len()
    }

    /// The whole input.
    pub closed spec fn text(self) -> Seq<char> {
        chars_of_bytes(self.content@)
    }

    /// How many characters lie behind the cursor.
    pub closed spec fn position(self) -> int {
        self.ptr as int
    }

    /// The tokens that are still to come.
    pub open spec fn remaining(self) -> Seq<Lexeme> {
        lexemes_from(self.text(), self.position())
    }

    /// A cursor at the beginning of `content`.
    pub fn new(content: Vec<u8>) -> (lexer: Self)
        ensures
            lexer.text() == chars_of_bytes(content@),
            lexer.position() == 0,
    {
        Lexer { ptr: 0, content }
    }

    fn at_end(&self) -> (r: bool)
        ensures
            r == (self.position() >= self.text().len()),
            0 <= self.position() <= self.text().len(),
    {
        proof {
            use_type_invariant(self);
        }
        self.ptr >= self.content.len()
    }

    fn current(&self) -> (c: char)
        requires
            self.position() < self.text().len(),
        ensures
            c == self.text()[self.position()],
    {
        proof {
            use_type_invariant(self);
        }
        self.content[self.ptr] as char
    }

    fn advance(&mut self)
        ensures
            final(self).text() == old(self).text(),
            final(self).position() == if old(self).position() < old(self).text().len() {
                old(self).position() + 1
            } else {
                old(self).position()
            },
    {
        proof {
            use_type_invariant(&*self);
        }
        if self.ptr < self.content.len() {
            self.ptr += 1;
        }
    }

    fn skip_whitespace(&mut self)
        ensures
            final(self).text() == old(self).text(),
            old(self).position() <= final(self).position() <= final(self).text().len(),
            forall|i: int|
                old(self).position() <= i < final(self).position() ==> {
                    let c = #[trigger] final(self).text()[i];
                    c == ' ' || c == '\t'
                },
            final(self).position() < final(self).text().len() ==> {
                let c = final(self).text()[final(self).position()];
                c != ' ' && c != '\t'
            },
    {
        proof {
            use_type_invariant(&*self);
        }
        while !self.at_end() && (self.current() == ' ' || self.current() == '\t')
            invariant
                self.text() == old(self).text(),
                old(self).position() <= self.position() <= self.text().len(),
                forall|i: int|
                    old(self).position() <= i < self.position() ==> {
                        let c = #[trigger] self.text()[i];
                        c == ' ' || c == '\t'
                    },
            decreases self.text().len() - self.position(),
        {
            self.advance();
        }
    }

    fn get_string(&mut self) -> (token: Token)
        requires
            old(self).position() < old(self).text().len(),
        ensures
            final(self).text() == old(self).text(),
            ({
                let s = old(self).text();
                let q = scan(s, old(self).position() + 1, Stop::Char('"'));
                &&& token@ == (Lexeme {
                    kind: TokenType::TokenString,
                    text: s.subrange(old(self).position() + 1, q),
                })
                &&& final(self).position() == if q < s.len() {
                    q + 1
                } else {
                    q
                }
            }),
    {
        self.advance();
        let ghost start = self.position();
        let mut string: String = String::new();
        while !self.at_end() && self.current() != '"'
            invariant
                self.text() == old(self).text(),
                start == old(self).position() + 1,
                start <= self.position() <= self.text().len(),
                string@ == self.text().subrange(start, self.position()),
                forall|i: int|
                    start <= i < self.position() ==> !stops_at(
                        Stop::Char('"'),
                        #[trigger] self.text()[i],
                    ),
            decreases self.text().len() - self.position(),
        {
            push_char(&mut string, self.current());
            self.advance();
        }
        proof {
            lemma_scan_is(self.text(), start, Stop::Char('"'), self.position());
        }
        self.advance();
        Token { token_type: TokenType::TokenString, value: string }
    }

    fn get_id(&mut self) -> (token: Token)
        requires
            old(self).position() <= old(self).text().len(),
        ensures
            final(self).text() == old(self).text(),
            ({
                let s = old(self).text();
                let q = scan(s, old(self).position(), Stop::AtomEnd);
                &&& token@ == (Lexeme {
                    kind: TokenType::TokenID,
                    text: s.subrange(old(self).position(), q),
                })
                &&& final(self).position() == q
            }),
    {
        let ghost start = self.position();
        let mut string: String = String::new();
        while !self.at_end() && !Self::ends_atom(self.current())
            invariant
                self.text() == old(self).text(),
                start == old(self).position(),
                start <= self.position() <= self.text().len(),
                string@ == self.text().subrange(start, self.position()),
                forall|i: int|
                    start <= i < self.position() ==> !stops_at(
                        Stop::AtomEnd,
                        #[trigger] self.text()[i],
                    ),
            decreases self.text().len() - self.position(),
        {
            push_char(&mut string, self.current());
            self.advance();
        }
        proof {
            lemma_scan_is(self.text(), start, Stop::AtomEnd, self.position());
        }
        Token { token_type: TokenType::TokenID, value: string }
    }

    fn ends_atom(c: char) -> (r: bool)
        ensures
            r == crate::text::ends_atom(c),
    {
        c == ' ' || c == '\t' || Token::is_single_token(c)
    }

    fn single(c: char) -> (token: Token)
        requires
            single_token(c),
        ensures
            token@ == (Lexeme { kind: single_kind(c), text: seq![c] }),
    {
        proof {
            reveal_strlit("=");
            reveal_strlit("[");
            reveal_strlit("]");
            reveal_strlit(",");
            reveal_strlit("\n");
        }
        let token = if c == '=' {
            Token::new(TokenType::TokenEqual, "=")
        } else if c == '[' {
            Token::new(TokenType::TokenLBracket, "[")
        } else if c == ']' {
            Token::new(TokenType::TokenRBracket, "]")
        } else if c == ',' {
            Token::new(TokenType::TokenComma, ",")
        } else {
            Token::new(TokenType::TokenNewLine, "\n")
        };
        assert(token@.text =~= seq![c]);
        token
    }

    /// Hands out the next token and moves the cursor behind it. Once no token
    /// is left the cursor rests at the end of the input and every call
    /// returns `None`.
    pub fn get_next_token(&mut self) -> (token: Option<Token>)
        ensures
            final(self).text() == old(self).text(),
            0 <= old(self).position() <= old(self).text().len(),
            match next_lexeme(old(self).text(), old(self).position()) {
                Some((lexeme, after)) => {
                    &&& token matches Some(t) && t@ == lexeme
                    &&& final(self).position() == after
                },
                None => token is None && final(self).position() == final(self).text().len(),
            },
    {
        let ghost s = self.text();
        let ghost from = self.position();
        proof {
            use_type_invariant(&*self);
        }
        while !self.at_end()
            invariant
                self.text() == s,
                from == old(self).position(),
                s == old(self).text(),
                0 <= from <= self.position() <= s.len(),
                forall|i: int|
                    from <= i < self.position() ==> !stops_at(
                        Stop::TokenStart,
                        #[trigger] s[i],
                    ),
            decreases s.len() - self.position(),
        {
            self.skip_whitespace();
            if self.at_end() {
                proof {
                    lemma_scan_is(s, from, Stop::TokenStart, s.len() as int);
                }
                return None;
            }
            let c: char = self.current();
            let ghost p = self.position();
            if c == '"' {
                proof {
                    lemma_scan_is(s, from, Stop::TokenStart, p);
                }
                return Some(self.get_string());
            }
            if Token::is_single_token(c) {
                proof {
                    lemma_scan_is(s, from, Stop::TokenStart, p);
                }
                self.advance();
                return Some(Self::single(c));
            }
            if is_alphanumeric(c) || c == '-' || c == '+' {
                proof {
                    lemma_scan_is(s, from, Stop::TokenStart, p);
                }
                return Some(self.get_id());
            }
            self.advance();
        }
        proof {
            lemma_scan_is(s, from, Stop::TokenStart, s.len() as int);
        }
        None
    }
}

} // verus!
