use toml_parser::parser::ast::AST;
use toml_parser::parser::parser::{ParseError, Parser};
use toml_parser::parser::token::TokenType;

fn parse(input: &str) -> Result<AST, ParseError> {
    Parser::new(input.as_bytes().to_vec()).parse()
}

fn statements(input: &str) -> Vec<AST> {
    match parse(input) {
        Ok(AST::ASTCompound(statements)) => statements,
        other => panic!("no document: {:?}", other),
    }
}

fn assign(name: &str, value: AST) -> AST {
    AST::ASTVariableDefinition(name.to_string(), Box::new(value))
}

fn value_of(input: &str) -> AST {
    let mut all = statements(input);
    assert_eq!(all.len(), 1);
    match all.remove(0) {
        AST::ASTVariableDefinition(_, value) => *value,
        other => panic!("no assignment: {:?}", other),
    }
}

fn unexpected(kind: TokenType, text: &str) -> ParseError {
    ParseError::UnexpectedToken(kind, text.to_string())
}

#[test]
fn integer_assignment() {
    assert_eq!(statements("a = 1"), vec![assign("a", AST::ASTInt(1))]);
}

#[test]
fn literals_of_every_kind() {
    assert_eq!(value_of("a = true"), AST::ASTBool(true));
    assert_eq!(value_of("a = false"), AST::ASTBool(false));
    assert_eq!(value_of("a = -17"), AST::ASTInt(-17));
    assert_eq!(value_of("a = +17"), AST::ASTInt(17));
    assert_eq!(value_of("a = 007"), AST::ASTInt(7));
    assert_eq!(value_of("a = 2147483647"), AST::ASTInt(i32::MAX));
    assert_eq!(value_of("a = -2147483648"), AST::ASTInt(i32::MIN));
    assert_eq!(value_of("a = \"true\""), AST::ASTString("true".to_string()));
    assert_eq!(value_of("a = \"\""), AST::ASTString(String::new()));
}

#[test]
fn atoms_that_are_no_integers_fail() {
    for text in ["x1", "True", "1.5", "0x10", "2147483648", "-2147483649", "1_000", "-", "+", "--1", "1-"] {
        assert_eq!(
            parse(&format!("a = {}", text)),
            Err(ParseError::InvalidInteger(text.to_string())),
            "{}",
            text
        );
    }
}

#[test]
fn section_header() {
    assert_eq!(statements("[server]"), vec![AST::ASTTagDefinition("server".to_string())]);
    assert_eq!(statements("[ a.b ]"), vec![AST::ASTTagDefinition("a.b".to_string())]);
}

#[test]
fn section_header_needs_an_atom_and_a_closing_bracket() {
    assert_eq!(parse("[]"), Err(unexpected(TokenType::TokenRBracket, "]")));
    assert_eq!(parse("[\"x\"]"), Err(unexpected(TokenType::TokenString, "x")));
    assert_eq!(parse("[x"), Err(unexpected(TokenType::TokenNone, "\0")));
    assert_eq!(parse("[x\n"), Err(unexpected(TokenType::TokenNewLine, "\n")));
    assert_eq!(parse("["), Err(unexpected(TokenType::TokenNone, "\0")));
    assert_eq!(parse("[.]"), Err(unexpected(TokenType::TokenRBracket, "]")));
}

#[test]
fn arrays() {
    assert_eq!(
        value_of("a = [1, 2, 3]"),
        AST::ASTArray(vec![AST::ASTInt(1), AST::ASTInt(2), AST::ASTInt(3)])
    );
    assert_eq!(value_of("a = []"), AST::ASTArray(vec![]));
    assert_eq!(
        value_of("a = [true, \"x\", 3]"),
        AST::ASTArray(vec![AST::ASTBool(true), AST::ASTString("x".to_string()), AST::ASTInt(3)])
    );
    assert_eq!(
        value_of("a = [[1, 2], [3], []]"),
        AST::ASTArray(vec![
            AST::ASTArray(vec![AST::ASTInt(1), AST::ASTInt(2)]),
            AST::ASTArray(vec![AST::ASTInt(3)]),
            AST::ASTArray(vec![]),
        ])
    );
}

#[test]
fn line_breaks_are_skipped_inside_arrays() {
    assert_eq!(
        value_of("a = [\n1\n,\n\n2\n]"),
        AST::ASTArray(vec![AST::ASTInt(1), AST::ASTInt(2)])
    );
    assert_eq!(value_of("a = [\n\n]"), AST::ASTArray(vec![]));
    assert_eq!(
        statements("a = [\n[\n1\n]\n]\nb = 2"),
        vec![
            assign("a", AST::ASTArray(vec![AST::ASTArray(vec![AST::ASTInt(1)])])),
            assign("b", AST::ASTInt(2)),
        ]
    );
}

#[test]
fn commas_stand_between_values_only() {
    assert_eq!(parse("a = [1,]"), Err(unexpected(TokenType::TokenRBracket, "]")));
    assert_eq!(parse("a = [,1]"), Err(unexpected(TokenType::TokenComma, ",")));
    assert_eq!(parse("a = [,]"), Err(unexpected(TokenType::TokenComma, ",")));
    assert_eq!(parse("a = [1,,2]"), Err(unexpected(TokenType::TokenComma, ",")));
    assert_eq!(parse("a = [1 2]"), Err(unexpected(TokenType::TokenID, "2")));
    assert_eq!(parse("a = [1 \"x\"]"), Err(unexpected(TokenType::TokenString, "x")));
    assert_eq!(parse("a = [1 [2]]"), Err(unexpected(TokenType::TokenLBracket, "[")));
    assert_eq!(parse("a = [1,\n]"), Err(unexpected(TokenType::TokenRBracket, "]")));
}

#[test]
fn arrays_must_be_closed() {
    assert_eq!(parse("a = [1"), Err(unexpected(TokenType::TokenNone, "\0")));
    assert_eq!(parse("a = ["), Err(unexpected(TokenType::TokenNone, "\0")));
    assert_eq!(parse("a = [1,"), Err(unexpected(TokenType::TokenNone, "\0")));
    assert_eq!(parse("a = [[1]"), Err(unexpected(TokenType::TokenNone, "\0")));
    assert_eq!(parse("a = [= 1]"), Err(unexpected(TokenType::TokenEqual, "=")));
    assert_eq!(parse("a = [1 = 1]"), Err(unexpected(TokenType::TokenEqual, "=")));
}

#[test]
fn a_bad_element_fails_the_array() {
    assert_eq!(parse("a = [1, x]"), Err(ParseError::InvalidInteger("x".to_string())));
    assert_eq!(parse("a = [[1, [x]]]"), Err(ParseError::InvalidInteger("x".to_string())));
}

#[test]
fn assignment_needs_name_equals_and_value() {
    assert_eq!(parse("a"), Err(unexpected(TokenType::TokenNone, "\0")));
    assert_eq!(parse("a ="), Err(unexpected(TokenType::TokenNone, "\0")));
    assert_eq!(parse("a =\n1"), Err(unexpected(TokenType::TokenNewLine, "\n")));
    assert_eq!(parse("a 1"), Err(unexpected(TokenType::TokenID, "1")));
    assert_eq!(parse("a = = 1"), Err(unexpected(TokenType::TokenEqual, "=")));
    assert_eq!(parse("a = ]"), Err(unexpected(TokenType::TokenRBracket, "]")));
    assert_eq!(parse("a = ,"), Err(unexpected(TokenType::TokenComma, ",")));
}

#[test]
fn statements_begin_with_an_atom_or_a_bracket() {
    assert_eq!(parse("= 1"), Err(unexpected(TokenType::TokenEqual, "=")));
    assert_eq!(parse("\"a\" = 1"), Err(unexpected(TokenType::TokenString, "a")));
    assert_eq!(parse(", "), Err(unexpected(TokenType::TokenComma, ",")));
    assert_eq!(parse("]"), Err(unexpected(TokenType::TokenRBracket, "]")));
    assert_eq!(parse("a = 1\n]"), Err(unexpected(TokenType::TokenRBracket, "]")));
}

#[test]
fn a_statement_ends_at_a_line_break_or_at_the_end() {
    assert_eq!(parse("a = 1 b = 2"), Err(unexpected(TokenType::TokenID, "b")));
    assert_eq!(parse("[x] a = 1"), Err(unexpected(TokenType::TokenID, "a")));
    assert_eq!(parse("a = 1\nb = 2 ]"), Err(unexpected(TokenType::TokenRBracket, "]")));
    assert_eq!(parse("a = [1] 2"), Err(unexpected(TokenType::TokenID, "2")));
}

#[test]
fn blank_lines_are_statements() {
    assert_eq!(
        statements("a = 1\n\nb = 2"),
        vec![assign("a", AST::ASTInt(1)), AST::ASTSeparator(), assign("b", AST::ASTInt(2))]
    );
    assert_eq!(
        statements("\n\n"),
        vec![AST::ASTSeparator(), AST::ASTSeparator(), AST::ASTSeparator()]
    );
    assert_eq!(statements("\na = 1"), vec![AST::ASTSeparator(), assign("a", AST::ASTInt(1))]);
}

#[test]
fn the_end_of_the_input_may_stand_for_a_blank_statement() {
    assert_eq!(statements(""), vec![AST::ASTSeparator()]);
    assert_eq!(statements("a = 1\n"), vec![assign("a", AST::ASTInt(1)), AST::ASTSeparator()]);
    assert_eq!(
        statements("[x]\n[x]\n"),
        vec![
            AST::ASTTagDefinition("x".to_string()),
            AST::ASTTagDefinition("x".to_string()),
            AST::ASTSeparator(),
        ]
    );
}

#[test]
fn whole_document() {
    assert_eq!(
        statements("[server]\nport = 8080\nname = \"local\"\nflags = [true, false]"),
        vec![
            AST::ASTTagDefinition("server".to_string()),
            assign("port", AST::ASTInt(8080)),
            assign("name", AST::ASTString("local".to_string())),
            assign("flags", AST::ASTArray(vec![AST::ASTBool(true), AST::ASTBool(false)])),
        ]
    );
}

#[test]
fn a_new_parser_has_no_lookahead() {
    let mut parser = Parser::new(b"a = 1".to_vec());
    let token = parser.get_token();
    assert_eq!(token.token_type, TokenType::TokenNone);
    assert_eq!(token.value, "\0");
    assert_eq!(parser.consume(TokenType::TokenID), Err(unexpected(TokenType::TokenNone, "\0")));
    assert_eq!(parser.parse_statement(), Ok(AST::ASTSeparator()));
    assert_eq!(parser.parse_value(), Err(unexpected(TokenType::TokenNone, "\0")));
    assert_eq!(parser.parse_value_from_id(), Err(unexpected(TokenType::TokenNone, "\0")));
    assert_eq!(parser.parse_string(), Err(unexpected(TokenType::TokenNone, "\0")));
    assert_eq!(parser.parse_array(), Err(unexpected(TokenType::TokenNone, "\0")));
    assert_eq!(parser.parse_tag(), Err(unexpected(TokenType::TokenNone, "\0")));
    assert_eq!(parser.parse_variable(), Err(unexpected(TokenType::TokenNone, "\0")));
    assert_eq!(parser.parse_multiple_statement(), Ok(AST::ASTCompound(vec![AST::ASTSeparator()])));
    assert_eq!(parser.parse(), Ok(AST::ASTCompound(vec![assign("a", AST::ASTInt(1))])));
}

#[test]
fn parsing_twice_finds_the_input_used_up() {
    let mut parser = Parser::new(b"a = 1".to_vec());
    assert!(parser.parse().is_ok());
    assert_eq!(parser.parse(), Ok(AST::ASTCompound(vec![AST::ASTSeparator()])));
}

fn lookahead(parser: &Parser) -> (TokenType, String) {
    let token = parser.get_token();
    (token.token_type, token.value)
}

#[test]
fn a_parsed_input_is_used_up() {
    for input in ["", "a = 1", "a = 1\n", "[x]\n\nb = [1, [2]]", "\n\n"] {
        let mut parser = Parser::new(input.as_bytes().to_vec());
        assert!(parser.parse().is_ok());
        assert_eq!(lookahead(&parser), (TokenType::TokenNone, "\0".to_string()));
    }
}

#[test]
fn the_token_that_fails_stays_unread() {
    let mut parser = Parser::new(b"a = ] b".to_vec());
    assert_eq!(parser.parse(), Err(unexpected(TokenType::TokenRBracket, "]")));
    assert_eq!(lookahead(&parser), (TokenType::TokenRBracket, "]".to_string()));
    assert_eq!(parser.parse_value(), Err(unexpected(TokenType::TokenRBracket, "]")));
    assert_eq!(lookahead(&parser), (TokenType::TokenRBracket, "]".to_string()));
    assert_eq!(parser.parse_statement(), Err(unexpected(TokenType::TokenRBracket, "]")));
    assert_eq!(parser.parse_string(), Err(unexpected(TokenType::TokenRBracket, "]")));
    assert_eq!(parser.parse_value_from_id(), Err(unexpected(TokenType::TokenRBracket, "]")));
    assert_eq!(parser.parse_array(), Err(unexpected(TokenType::TokenRBracket, "]")));
    assert_eq!(parser.parse_tag(), Err(unexpected(TokenType::TokenRBracket, "]")));
    assert_eq!(parser.parse_variable(), Err(unexpected(TokenType::TokenRBracket, "]")));
    assert_eq!(parser.consume(TokenType::TokenID), Err(unexpected(TokenType::TokenRBracket, "]")));
    assert_eq!(lookahead(&parser), (TokenType::TokenRBracket, "]".to_string()));
    assert_eq!(parser.consume(TokenType::TokenRBracket), Ok(()));
    assert_eq!(lookahead(&parser), (TokenType::TokenID, "b".to_string()));
}

#[test]
fn what_was_read_before_a_failure_stays_read() {
    let mut parser = Parser::new(b"a = [1, 2 3] c".to_vec());
    assert_eq!(parser.parse(), Err(unexpected(TokenType::TokenID, "3")));
    assert_eq!(lookahead(&parser), (TokenType::TokenID, "3".to_string()));

    let mut parser = Parser::new(b"[x y".to_vec());
    assert_eq!(parser.parse(), Err(unexpected(TokenType::TokenID, "y")));
    assert_eq!(lookahead(&parser), (TokenType::TokenID, "y".to_string()));

    let mut parser = Parser::new(b"a = 1 b".to_vec());
    assert_eq!(parser.parse(), Err(unexpected(TokenType::TokenID, "b")));
    assert_eq!(lookahead(&parser), (TokenType::TokenID, "b".to_string()));
}

#[test]
fn an_atom_that_is_no_integer_is_read_before_it_fails() {
    let mut parser = Parser::new(b"a = x1 , b".to_vec());
    assert_eq!(parser.parse(), Err(ParseError::InvalidInteger("x1".to_string())));
    assert_eq!(lookahead(&parser), (TokenType::TokenComma, ",".to_string()));
}
