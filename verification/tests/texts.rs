use toml_parser::decimal::{int_to_string, parse_int, parse_int_str};
use toml_parser::text::{chars_of, find_char, same_text, string_of};

#[test]
fn integers_are_written_in_decimal() {
    assert_eq!(int_to_string(0), "0");
    assert_eq!(int_to_string(7), "7");
    assert_eq!(int_to_string(10), "10");
    assert_eq!(int_to_string(-7), "-7");
    assert_eq!(int_to_string(1000), "1000");
    assert_eq!(int_to_string(-1090), "-1090");
    assert_eq!(int_to_string(i32::MAX), "2147483647");
    assert_eq!(int_to_string(i32::MIN), "-2147483648");
}

#[test]
fn integers_are_written_as_the_standard_library_writes_them() {
    let mut i: i64 = i32::MIN as i64;
    while i <= i32::MAX as i64 {
        assert_eq!(int_to_string(i as i32), (i as i32).to_string());
        i += 9_973_331;
    }
    for i in -1000..1000 {
        assert_eq!(int_to_string(i), i.to_string());
    }
}

#[test]
fn decimal_texts_are_read() {
    assert_eq!(parse_int_str("0"), Some(0));
    assert_eq!(parse_int_str("-0"), Some(0));
    assert_eq!(parse_int_str("+0"), Some(0));
    assert_eq!(parse_int_str("007"), Some(7));
    assert_eq!(parse_int_str("+5"), Some(5));
    assert_eq!(parse_int_str("-12"), Some(-12));
    assert_eq!(parse_int_str("2147483647"), Some(i32::MAX));
    assert_eq!(parse_int_str("-2147483648"), Some(i32::MIN));
    assert_eq!(parse_int_str("0000000000000000000000000000000000001"), Some(1));
    assert_eq!(parse_int_str("-00000000000000000000000002147483648"), Some(i32::MIN));
}

#[test]
fn texts_that_are_no_integers_are_refused() {
    for s in [
        "", "+", "-", "+-1", "-+1", "--1", "1a", "a1", " 1", "1 ", "1_000", "1.0", "0x1", "2147483648",
        "-2147483649", "99999999999999999999999999", "+2147483648", "\u{0661}", "1\u{0661}", "\u{2212}1",
    ] {
        assert_eq!(parse_int_str(s), None, "{:?}", s);
    }
}

#[test]
fn texts_are_read_as_the_standard_library_reads_them() {
    for s in [
        "", "+", "-", "0", "-0", "+0", "007", "+5", "-12", "1a", " 1", "1 ", "2147483647", "2147483648",
        "-2147483648", "-2147483649", "00000000000000000000001", "+-1", "1_0", "\u{0661}",
        "4294967296", "-4294967296", "21474836470",
    ] {
        assert_eq!(parse_int_str(s), s.parse::<i32>().ok(), "{:?}", s);
    }
    for i in [i32::MIN, -1, 0, 1, 42, i32::MAX] {
        assert_eq!(parse_int_str(&i.to_string()), Some(i));
        assert_eq!(parse_int_str(&int_to_string(i)), Some(i));
    }
}

#[test]
fn part_of_a_text_is_read() {
    let v: Vec<char> = "ab-12;7".chars().collect();
    assert_eq!(parse_int(&v, 2, 5), Some(-12));
    assert_eq!(parse_int(&v, 6, 7), Some(7));
    assert_eq!(parse_int(&v, 0, 2), None);
    assert_eq!(parse_int(&v, 2, 7), None);
    assert_eq!(parse_int(&v, 3, 3), None);
    assert_eq!(parse_int(&v, 2, 3), None);
}

#[test]
fn characters_of_a_string() {
    assert_eq!(chars_of(""), Vec::<char>::new());
    assert_eq!(chars_of("a\u{e9}\u{4e2d}b"), vec!['a', '\u{e9}', '\u{4e2d}', 'b']);
}

#[test]
fn string_of_some_characters() {
    let v = vec!['a', '\u{e9}', 'c', 'd'];
    assert_eq!(string_of(&v, 0, 4), "a\u{e9}cd");
    assert_eq!(string_of(&v, 1, 3), "\u{e9}c");
    assert_eq!(string_of(&v, 2, 2), "");
}

#[test]
fn first_place_of_a_character() {
    let v: Vec<char> = "a#b#c".chars().collect();
    assert_eq!(find_char(&v, 0, '#'), 1);
    assert_eq!(find_char(&v, 1, '#'), 1);
    assert_eq!(find_char(&v, 2, '#'), 3);
    assert_eq!(find_char(&v, 4, '#'), 5);
    assert_eq!(find_char(&v, 5, '#'), 5);
    assert_eq!(find_char(&v, 0, 'x'), 5);
}

#[test]
fn part_of_a_text_is_held_against_a_string() {
    let v: Vec<char> = "int#12".chars().collect();
    assert!(same_text(&v, 0, 3, "int"));
    assert!(!same_text(&v, 0, 3, "inT"));
    assert!(!same_text(&v, 0, 2, "int"));
    assert!(same_text(&v, 4, 6, "12"));
    assert!(same_text(&v, 3, 3, ""));
}
