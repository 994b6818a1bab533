//! A reader for a small TOML-like configuration language.
//!
//! Text is cut into tokens, the tokens are parsed into a syntax tree, and the
//! tree is folded into a map from section name to variable name to an encoded
//! string, which may carry a type tag. The `lookup` module reads typed values
//! back out of such a map.

pub mod text;
pub mod decimal;
pub mod parser;
pub mod lookup;
pub mod round_trip;

use vstd::prelude::*;
use crate::parser::converter::{
    convert_ast_to_string, converted, ConvertError, ConvertFailure, Sections, TOMLStringMap,
};
use crate::parser::grammar::{parse_document, SyntaxError};
use crate::parser::lexer::{chars_of_bytes, lexemes_from};
use crate::parser::parser::{ParseError, Parser};

verus! {

/// Why a text could not be read into a map.
#[derive(Debug, PartialEq, Eq)]
pub enum Error {
    /// The text is no document.
    Parse(ParseError),
    /// The document stands for no map.
    Convert(ConvertError),
}

/// What an `Error` is, as a value of specifications.
pub enum Failure {
    Parse(SyntaxError),
    Convert(ConvertFailure),
}

impl View for Error {
    type V = Failure;

    open spec fn view(&self) -> Failure {
        match self {
            Error::Parse(e) => Failure::Parse(e@),
            Error::Convert(e) => Failure::Convert(e@),
        }
    }
}

/// The map that a text stands for: the text is cut into tokens, the tokens
/// are parsed, and the document is converted with type checking.
pub open spec fn parsed(content: Seq<u8>) -> Result<Sections, Failure> {
    match parse_document(lexemes_from(chars_of_bytes(content), 0)) {
        Err(failed) => Err(Failure::Parse(failed.error)),
        Ok(document) => match converted(document, true) {
            Err(e) => Err(Failure::Convert(e)),
            Ok(sections) => Ok(sections),
        },
    }
}

/// Reads a text into the map of its sections, with type checking.
pub fn toml_parser_parse(content: Vec<u8>) -> (r: Result<TOMLStringMap, Error>)
    ensures
        match parsed(content@) {
            Ok(sections) => r matches Ok(map) && map@ == sections,
            Err(e) => r matches Err(x) && x@ == e,
        },
{
    let mut parser: Parser = Parser::new(content);
    let ast = match parser.parse() {
        Err(e) => {
            return Err(Error::Parse(e));
        },
        Ok(ast) => ast,
    };
    match convert_ast_to_string(&ast, true) {
        Err(e) => Err(Error::Convert(e)),
        Ok(map) => Ok(map),
    }
}

} // verus!
