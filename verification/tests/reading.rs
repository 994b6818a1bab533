use toml_parser::lookup::{
    convert_string_to_int_array, toml_parser_get_bool, toml_parser_get_int,
    toml_parser_get_int_array, toml_parser_get_int_array_array, toml_parser_get_string,
    toml_parser_get_value, LookupError,
};
use toml_parser::parser::converter::{convert_ast_to_string, TOMLStringMap};
use toml_parser::parser::parser::Parser;
use toml_parser::toml_parser_parse;

fn read(input: &str) -> TOMLStringMap {
    toml_parser_parse(input.as_bytes().to_vec()).unwrap()
}

fn raw(value: &str) -> TOMLStringMap {
    let mut map = TOMLStringMap::new();
    map.add_tag("s", true).unwrap();
    map.add_value("s", "v", value).unwrap();
    map
}

#[test]
fn every_literal_is_read_back() {
    let map = read(
        "[s]\nb = true\nc = false\ni = -42\nt = \"some text\"\nl = [1, -2, 3]\nn = [[1, 2], [], [3]]",
    );
    assert_eq!(toml_parser_get_bool(&map, "s", "b"), Ok(true));
    assert_eq!(toml_parser_get_bool(&map, "s", "c"), Ok(false));
    assert_eq!(toml_parser_get_int(&map, "s", "i"), Ok(-42));
    assert_eq!(toml_parser_get_string(&map, "s", "t"), Ok("some text".to_string()));
    assert_eq!(toml_parser_get_int_array(&map, "s", "l"), Ok(vec![1, -2, 3]));
    assert_eq!(
        toml_parser_get_int_array_array(&map, "s", "n"),
        Ok(vec![vec![1, 2], vec![], vec![3]])
    );
}

#[test]
fn the_value_assigned_last_is_read_back() {
    let map = read("a = 1\n[s]\na = 2\n\na = 3\na = 4\n[t]\na = 5");
    assert_eq!(toml_parser_get_int(&map, ".", "a"), Ok(4));
    assert_eq!(toml_parser_get_int(&map, "s", "a"), Ok(2));
    assert_eq!(toml_parser_get_int(&map, "t", "a"), Ok(5));
}

#[test]
fn integers_are_read_back_exactly() {
    for i in [0, 1, -1, 9, 10, 11, 99, 100, 101, -10, 4096, 8080, 123456789, i32::MAX, i32::MIN, i32::MAX - 1, i32::MIN + 1] {
        let map = read(&format!("v = {}", i));
        assert_eq!(toml_parser_get_value(&map, ".", "v"), Ok(format!("int#{}", i)));
        assert_eq!(toml_parser_get_int(&map, ".", "v"), Ok(i));
    }
}

#[test]
fn strings_are_read_back_whatever_they_hold() {
    for s in ["", "'", "''", "a#b", "#", ";|;", "string#'x'", "  blanks  ", "line\nbreak"] {
        let map = read(&format!("v = \"{}\"", s));
        assert_eq!(toml_parser_get_string(&map, ".", "v"), Ok(s.to_string()), "{:?}", s);
    }
}

#[test]
fn single_element_arrays_are_read_back() {
    let map = read("a = [7]\nb = [[7]]");
    assert_eq!(toml_parser_get_int_array(&map, ".", "a"), Ok(vec![7]));
    assert_eq!(toml_parser_get_int_array_array(&map, ".", "b"), Ok(vec![vec![7]]));
}

#[test]
fn missing_section_and_missing_name() {
    let map = read("[s]\na = 1");
    assert_eq!(toml_parser_get_value(&map, "t", "a"), Err(LookupError::MissingSection));
    assert_eq!(toml_parser_get_value(&map, "s", "b"), Err(LookupError::MissingName));
    assert_eq!(toml_parser_get_value(&map, ".", "a"), Err(LookupError::MissingName));
    assert_eq!(toml_parser_get_int(&map, "t", "a"), Err(LookupError::MissingSection));
    assert_eq!(toml_parser_get_int(&map, "s", "b"), Err(LookupError::MissingName));
    assert_eq!(toml_parser_get_string(&map, "t", "a"), Err(LookupError::MissingSection));
    assert_eq!(toml_parser_get_bool(&map, "s", "b"), Err(LookupError::MissingName));
    assert_eq!(toml_parser_get_int_array(&map, "t", "a"), Err(LookupError::MissingSection));
    assert_eq!(toml_parser_get_int_array_array(&map, "s", "b"), Err(LookupError::MissingName));
    assert_eq!(toml_parser_get_value(&map, "s", "a"), Ok("int#1".to_string()));
}

#[test]
fn values_of_another_type_are_refused() {
    let map = read("i = 1\nb = true\nt = \"x\"\nl = [1]\nn = [[1]]\nm = [true]");
    assert_eq!(toml_parser_get_int(&map, ".", "b"), Err(LookupError::WrongType));
    assert_eq!(toml_parser_get_int(&map, ".", "l"), Err(LookupError::WrongType));
    assert_eq!(toml_parser_get_bool(&map, ".", "i"), Err(LookupError::WrongType));
    assert_eq!(toml_parser_get_string(&map, ".", "i"), Err(LookupError::WrongType));
    assert_eq!(toml_parser_get_int_array(&map, ".", "i"), Err(LookupError::WrongType));
    assert_eq!(toml_parser_get_int_array(&map, ".", "n"), Err(LookupError::WrongType));
    assert_eq!(toml_parser_get_int_array(&map, ".", "m"), Err(LookupError::WrongType));
    assert_eq!(toml_parser_get_int_array_array(&map, ".", "l"), Err(LookupError::WrongType));
    assert_eq!(toml_parser_get_int_array_array(&map, ".", "t"), Err(LookupError::WrongType));
}

#[test]
fn values_written_without_type_checking_cannot_be_read() {
    let tree = Parser::new(b"i = 1\nb = true\nt = \"x\"\nl = [1]\nn = [[1]]".to_vec()).parse().unwrap();
    let map = convert_ast_to_string(&tree, false).unwrap();
    assert_eq!(toml_parser_get_value(&map, ".", "i"), Ok("1".to_string()));
    assert_eq!(toml_parser_get_int(&map, ".", "i"), Err(LookupError::Untyped));
    assert_eq!(toml_parser_get_bool(&map, ".", "b"), Err(LookupError::Untyped));
    assert_eq!(toml_parser_get_string(&map, ".", "t"), Err(LookupError::Untyped));
    assert_eq!(toml_parser_get_int_array(&map, ".", "l"), Err(LookupError::Untyped));
    assert_eq!(toml_parser_get_int_array_array(&map, ".", "n"), Err(LookupError::Untyped));
}

#[test]
fn empty_array_cannot_be_read_as_any_type() {
    let map = read("e = []");
    assert_eq!(toml_parser_get_value(&map, ".", "e"), Ok(String::new()));
    assert_eq!(toml_parser_get_int_array(&map, ".", "e"), Err(LookupError::Untyped));
    assert_eq!(toml_parser_get_int_array_array(&map, ".", "e"), Err(LookupError::Untyped));
    assert_eq!(toml_parser_get_int(&map, ".", "e"), Err(LookupError::Untyped));
    assert_eq!(toml_parser_get_bool(&map, ".", "e"), Err(LookupError::Untyped));
    assert_eq!(toml_parser_get_string(&map, ".", "e"), Err(LookupError::Untyped));
}

#[test]
fn array_of_arrays_that_begins_with_an_empty_one_cannot_be_read() {
    let map = read("n = [[], [1]]\ne = [[]]");
    assert_eq!(
        toml_parser_get_value(&map, ".", "n"),
        Ok("||array_array_int#|array_int#;1|".to_string())
    );
    assert_eq!(toml_parser_get_int_array_array(&map, ".", "n"), Err(LookupError::WrongType));
    assert_eq!(toml_parser_get_int_array_array(&map, ".", "e"), Err(LookupError::Untyped));
}

#[test]
fn values_that_are_not_of_their_type_are_malformed() {
    assert_eq!(toml_parser_get_int(&raw("int#abc"), "s", "v"), Err(LookupError::Malformed));
    assert_eq!(toml_parser_get_int(&raw("int#"), "s", "v"), Err(LookupError::Malformed));
    assert_eq!(toml_parser_get_int(&raw("int#1#2"), "s", "v"), Err(LookupError::Malformed));
    assert_eq!(toml_parser_get_int(&raw("int#99999999999"), "s", "v"), Err(LookupError::Malformed));
    assert_eq!(toml_parser_get_string(&raw("string#abc"), "s", "v"), Err(LookupError::Malformed));
    assert_eq!(toml_parser_get_string(&raw("string#'"), "s", "v"), Err(LookupError::Malformed));
    assert_eq!(toml_parser_get_string(&raw("string#"), "s", "v"), Err(LookupError::Malformed));
    assert_eq!(toml_parser_get_string(&raw("string#'a"), "s", "v"), Err(LookupError::Malformed));
    assert_eq!(toml_parser_get_int_array(&raw("array_int#;1;;2"), "s", "v"), Err(LookupError::Malformed));
    assert_eq!(toml_parser_get_int_array(&raw("array_int#;1;"), "s", "v"), Err(LookupError::Malformed));
    assert_eq!(toml_parser_get_int_array(&raw("array_int#;x"), "s", "v"), Err(LookupError::Malformed));
    assert_eq!(
        toml_parser_get_int_array_array(&raw("array_array_int#|array_int#;x|"), "s", "v"),
        Err(LookupError::Malformed)
    );
}

#[test]
fn well_formed_values_written_by_hand_are_read() {
    assert_eq!(toml_parser_get_int(&raw("int#+5"), "s", "v"), Ok(5));
    assert_eq!(toml_parser_get_string(&raw("string#''"), "s", "v"), Ok(String::new()));
    assert_eq!(toml_parser_get_string(&raw("string#'#'"), "s", "v"), Ok("#".to_string()));
    assert_eq!(toml_parser_get_int_array(&raw("array_int#"), "s", "v"), Ok(vec![]));
    assert_eq!(toml_parser_get_int_array(&raw("array_int#;7"), "s", "v"), Ok(vec![7]));
    assert_eq!(toml_parser_get_int_array_array(&raw("array_array_int#"), "s", "v"), Ok(vec![]));
}

#[test]
fn only_an_empty_piece_before_the_first_separator_is_passed_over() {
    assert_eq!(toml_parser_get_int_array(&raw("array_int#;1;2"), "s", "v"), Ok(vec![1, 2]));
    assert_eq!(toml_parser_get_int_array(&raw("array_int#7;1;2"), "s", "v"), Ok(vec![7, 1, 2]));
    assert_eq!(toml_parser_get_int_array(&raw("array_int#7"), "s", "v"), Ok(vec![7]));
    assert_eq!(toml_parser_get_int_array(&raw("array_int#-7;+1"), "s", "v"), Ok(vec![-7, 1]));
    assert_eq!(toml_parser_get_int_array(&raw("array_int#x;1"), "s", "v"), Err(LookupError::Malformed));
    assert_eq!(toml_parser_get_int_array(&raw("array_int# ;1"), "s", "v"), Err(LookupError::Malformed));
    assert_eq!(toml_parser_get_int_array(&raw("array_int#;"), "s", "v"), Err(LookupError::Malformed));
    assert_eq!(toml_parser_get_int_array(&raw("array_int#;;1"), "s", "v"), Err(LookupError::Malformed));
    assert_eq!(toml_parser_get_int_array(&raw("array_int#"), "s", "v"), Ok(vec![]));
}

#[test]
fn a_boolean_is_true_only_if_it_is_written_true() {
    assert_eq!(toml_parser_get_bool(&raw("bool#true"), "s", "v"), Ok(true));
    assert_eq!(toml_parser_get_bool(&raw("bool#false"), "s", "v"), Ok(false));
    assert_eq!(toml_parser_get_bool(&raw("bool#yes"), "s", "v"), Ok(false));
    assert_eq!(toml_parser_get_bool(&raw("bool#True"), "s", "v"), Ok(false));
    assert_eq!(toml_parser_get_bool(&raw("bool#"), "s", "v"), Ok(false));
    assert_eq!(toml_parser_get_bool(&raw("bool#true "), "s", "v"), Ok(false));
}

#[test]
fn the_type_is_what_stands_before_the_first_hash() {
    assert_eq!(toml_parser_get_int(&raw("#1"), "s", "v"), Err(LookupError::WrongType));
    assert_eq!(toml_parser_get_int(&raw("in#1"), "s", "v"), Err(LookupError::WrongType));
    assert_eq!(toml_parser_get_int(&raw("int #1"), "s", "v"), Err(LookupError::WrongType));
    assert_eq!(toml_parser_get_int(&raw("Int#1"), "s", "v"), Err(LookupError::WrongType));
    assert_eq!(toml_parser_get_int(&raw("int"), "s", "v"), Err(LookupError::Untyped));
    assert_eq!(toml_parser_get_int(&raw(""), "s", "v"), Err(LookupError::Untyped));
}

#[test]
fn integers_of_an_array_written_whole() {
    assert_eq!(convert_string_to_int_array(""), Ok(vec![]));
    assert_eq!(convert_string_to_int_array("array_int#;1;2"), Ok(vec![1, 2]));
    assert_eq!(convert_string_to_int_array("array_int#;1;-2;+3"), Ok(vec![1, -2, 3]));
    assert_eq!(convert_string_to_int_array("array_int#"), Ok(vec![]));
    assert_eq!(convert_string_to_int_array("array_int#7;1"), Ok(vec![7, 1]));
    assert_eq!(convert_string_to_int_array(";1;2"), Err(LookupError::Untyped));
    assert_eq!(convert_string_to_int_array("no separator"), Err(LookupError::Untyped));
    assert_eq!(convert_string_to_int_array("array_bool#;1"), Err(LookupError::WrongType));
    assert_eq!(convert_string_to_int_array("#;1"), Err(LookupError::WrongType));
    assert_eq!(convert_string_to_int_array("array_int#;"), Err(LookupError::Malformed));
    assert_eq!(convert_string_to_int_array("array_int#;1;"), Err(LookupError::Malformed));
    assert_eq!(convert_string_to_int_array("array_int#;;1"), Err(LookupError::Malformed));
    assert_eq!(convert_string_to_int_array("array_int#;1; 2"), Err(LookupError::Malformed));
    assert_eq!(convert_string_to_int_array("array_int#;2147483648"), Err(LookupError::Malformed));
}

#[test]
fn arrays_of_an_array_stand_between_bars_and_nothing_else_does() {
    let get = |value: &str| toml_parser_get_int_array_array(&raw(value), "s", "v");
    assert_eq!(get("array_array_int#"), Ok(vec![]));
    assert_eq!(get("array_array_int#||"), Ok(vec![vec![]]));
    assert_eq!(get("array_array_int#|array_int#;1|"), Ok(vec![vec![1]]));
    assert_eq!(get("array_array_int#|array_int#;1||array_int#;2;3|"), Ok(vec![vec![1], vec![2, 3]]));
    assert_eq!(get("array_array_int#|array_int#;1||||array_int#|"), Ok(vec![vec![1], vec![], vec![]]));
    assert_eq!(get("array_array_int#|array_int#;1|x|array_int#;2|"), Err(LookupError::Malformed));
    assert_eq!(get("array_array_int#x|array_int#;1|"), Err(LookupError::Malformed));
    assert_eq!(get("array_array_int#|array_int#;1|x"), Err(LookupError::Malformed));
    assert_eq!(get("array_array_int#|array_int#;1"), Err(LookupError::Malformed));
    assert_eq!(get("array_array_int#|"), Err(LookupError::Malformed));
    assert_eq!(get("array_array_int#|||"), Err(LookupError::Malformed));
    assert_eq!(get("array_array_int#no bars"), Err(LookupError::Malformed));
    assert_eq!(get("array_array_int#|;1|"), Err(LookupError::Malformed));
    assert_eq!(get("array_array_int#|7;1|"), Err(LookupError::Malformed));
    assert_eq!(get("array_array_int#|array_bool#;true|"), Err(LookupError::Malformed));
    assert_eq!(get("array_array_int#|array_int#;x|"), Err(LookupError::Malformed));
}
