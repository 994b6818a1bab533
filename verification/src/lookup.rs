//! Reading typed values back out of a section map.
//!
//! A value that was written with type checking begins with its type and a
//! `#`. Each reader looks a variable up, holds its type against the one asked
//! for, and decodes what stands behind the `#`.

use vstd::prelude::*;
use crate::decimal::{parse_decimal, parse_int};
use crate::parser::converter::{Sections, TOMLStringMap};
use crate::text::{
    chars_of, find_char, lemma_scan, lemma_scan_is, same_text, scan, string_of, Stop,
};

verus! {

/// Why a value could not be read.
#[derive(Debug, PartialEq, Eq, Clone, Copy, Structural)]
pub enum LookupError {
    /// The map has no section of that name.
    MissingSection,
    /// The section has no variable of that name.
    MissingName,
    /// The value holds no `#`: it was written without type checking, or it is
    /// an array without elements.
    Untyped,
    /// The value is of another type than the one asked for.
    WrongType,
    /// What stands behind the `#` is not a value of the type.
    Malformed,
}

/// The encoded value of a variable.
pub open spec fn lookup(sections: Sections, tag: Seq<char>, name: Seq<char>) -> Result<
    Seq<char>,
    LookupError,
> {
    if !sections.contains_key(tag) {
        Err(LookupError::MissingSection)
    } else if !sections[tag].contains_key(name) {
        Err(LookupError::MissingName)
    } else {
        Ok(sections[tag][name])
    }
}

/// What stands behind the first `#` of a value, if what stands before it is
/// the type asked for.
pub open spec fn payload(text: Seq<char>, expected: Seq<char>) -> Result<Seq<char>, LookupError> {
    let at = scan(text, 0, Stop::Char('#'));
    if at >= text.len() {
        Err(LookupError::Untyped)
    } else if text.take(at) != expected {
        Err(LookupError::WrongType)
    } else {
        Ok(text.skip(at + 1))
    }
}

pub open spec fn decode_int(text: Seq<char>) -> Result<i32, LookupError> {
    match payload(text, "int"@) {
        Err(e) => Err(e),
        Ok(p) => match parse_decimal(p) {
            Some(i) => Ok(i),
            None => Err(LookupError::Malformed),
        },
    }
}

/// A string stands between two single quotes, which are taken off.
pub open spec fn decode_string(text: Seq<char>) -> Result<Seq<char>, LookupError> {
    match payload(text, "string"@) {
        Err(e) => Err(e),
        Ok(p) => if p.len() >= 2 && p.first() == '\'' && p.last() == '\'' {
            Ok(p.subrange(1, p.len() - 1))
        } else {
            Err(LookupError::Malformed)
        },
    }
}

/// A boolean is true if it is written `true`, and false otherwise.
pub open spec fn decode_bool(text: Seq<char>) -> Result<bool, LookupError> {
    match payload(text, "bool"@) {
        Err(e) => Err(e),
        Ok(p) => Ok(p == "true"@),
    }
}

/// The pieces of `s` from `from` on that the separator parts: one more than
/// there are separators.
pub open spec fn split_from(s: Seq<char>, from: int, sep: char) -> Seq<Seq<char>>
    recommends
        0 <= from <= s.len(),
    decreases s.len() - from,
    via split_from_decreases
{
    let at = scan(s, from, Stop::Char(sep));
    if 0 <= from < s.len() && at < s.len() {
        seq![s.subrange(from, at)] + split_from(s, at + 1, sep)
    } else {
        seq![s.subrange(from, s.len() as int)]
    }
}

#[via_fn]
proof fn split_from_decreases(s: Seq<char>, from: int, sep: char) {
    if 0 <= from < s.len() {
        lemma_scan(s, from, Stop::Char(sep));
    }
}

/// `tail`, if there is one, behind `head`.
pub open spec fn behind<T>(head: Seq<T>, tail: Result<Seq<T>, LookupError>) -> Result<
    Seq<T>,
    LookupError,
> {
    match tail {
        Err(e) => Err(e),
        Ok(tail) => Ok(head + tail),
    }
}

/// The integers that the pieces denote, if each of them denotes one.
pub open spec fn parse_all(pieces: Seq<Seq<char>>) -> Result<Seq<i32>, LookupError>
    decreases pieces.len(),
{
    if pieces.len() == 0 {
        Ok(Seq::empty())
    } else {
        match parse_decimal(pieces[0]) {
            None => Err(LookupError::Malformed),
            Some(i) => behind(seq![i], parse_all(pieces.skip(1))),
        }
    }
}

/// The integers of what stands behind the type of an array: the pieces that
/// `;` parts are integers, but for an empty piece at the front, which is
/// passed over.
pub open spec fn decode_int_payload(p: Seq<char>) -> Result<Seq<i32>, LookupError> {
    let pieces = split_from(p, 0, ';');
    if pieces[0].len() == 0 {
        parse_all(pieces.skip(1))
    } else {
        parse_all(pieces)
    }
}

pub open spec fn decode_int_array(text: Seq<char>) -> Result<Seq<i32>, LookupError> {
    match payload(text, "array_int"@) {
        Err(e) => Err(e),
        Ok(p) => decode_int_payload(p),
    }
}

/// The integers of an array as it is written inside another: the empty text
/// is the array without elements, and every other text is an array with its
/// type.
pub open spec fn decode_int_list(text: Seq<char>) -> Result<Seq<i32>, LookupError> {
    if text.len() == 0 {
        Ok(Seq::empty())
    } else {
        decode_int_array(text)
    }
}

/// The arrays that the pieces denote which `|` parts. The pieces are by
/// turns outside and inside a pair of `|`, and `inside` says where the first
/// one is. A piece outside is empty; a piece inside is an array of integers
/// and is followed by another piece, since its array is closed by a `|`.
pub open spec fn every_other(pieces: Seq<Seq<char>>, inside: bool) -> Result<
    Seq<Seq<i32>>,
    LookupError,
>
    decreases pieces.len(),
{
    if pieces.len() == 0 {
        Ok(Seq::empty())
    } else if inside {
        if pieces.len() == 1 {
            Err(LookupError::Malformed)
        } else {
            match decode_int_list(pieces[0]) {
                Err(_) => Err(LookupError::Malformed),
                Ok(list) => behind(seq![list], every_other(pieces.skip(1), false)),
            }
        }
    } else if pieces[0].len() > 0 {
        Err(LookupError::Malformed)
    } else {
        every_other(pieces.skip(1), true)
    }
}

/// The arrays of an array of arrays as it is written: one behind the other,
/// each between two `|`, and nothing else.
pub open spec fn decode_int_lists(text: Seq<char>) -> Result<Seq<Seq<i32>>, LookupError> {
    every_other(split_from(text, 0, '|'), false)
}

pub open spec fn decode_int_array_array(text: Seq<char>) -> Result<Seq<Seq<i32>>, LookupError> {
    match payload(text, "array_array_int"@) {
        Err(e) => Err(e),
        Ok(p) => decode_int_lists(p),
    }
}

/// The views of a row of vectors.
pub open spec fn lists_of(v: Seq<Vec<i32>>) -> Seq<Seq<i32>> {
    Seq::new(v.len(), |i: int| v[i]@)
}

/// Where the value begins behind its type, if the type is the one asked for.
fn payload_start(text: &Vec<char>, expected: &str) -> (r: Result<usize, LookupError>)
    ensures
        match payload(text@, expected@) {
            Ok(p) => r matches Ok(start) && start <= text.len() && p == text@.skip(start as int),
            Err(e) => r == Err::<usize, LookupError>(e),
        },
{
    let at: usize = find_char(text, 0, '#');
    if at >= text.len() {
        Err(LookupError::Untyped)
    } else if !same_text(text, 0, at, expected) {
        Err(LookupError::WrongType)
    } else {
        Ok(at + 1)
    }
}

fn copy_range(v: &Vec<char>, from: usize, to: usize) -> (r: Vec<char>)
    requires
        from <= to <= v.len(),
    ensures
        r@ == v@.subrange(from as int, to as int),
{
    let mut r: Vec<char> = Vec::new();
    let mut i: usize = from;
    while i < to
        invariant
            from <= i <= to <= v.len(),
            r@ == v@.subrange(from as int, i as int),
        decreases to - i,
    {
        r.push(v[i]);
        i += 1;
    }
    r
}

/// The integers that the pieces of `text` from `start` on denote.
fn ints_from(text: &Vec<char>, start: usize) -> (r: Result<Vec<i32>, LookupError>)
    requires
        start <= text.len(),
    ensures
        match parse_all(split_from(text@, start as int, ';')) {
            Ok(list) => r matches Ok(v) && v@ == list,
            Err(e) => r matches Err(x) && x == e,
        },
{
    let ghost s = text@;
    let mut values: Vec<i32> = Vec::new();
    let mut from: usize = start;
    loop
        invariant
            s == text@,
            start <= from <= text.len(),
            parse_all(split_from(s, start as int, ';')) == behind(
                values@,
                parse_all(split_from(s, from as int, ';')),
            ),
        decreases text.len() - from,
    {
        let at: usize = find_char(text, from, ';');
        let ghost rest = if at >= text.len() {
            Seq::<Seq<char>>::empty()
        } else {
            split_from(s, at + 1, ';')
        };
        proof {
            assert(split_from(s, from as int, ';') =~= seq![s.subrange(from as int, at as int)]
                + rest);
            assert((seq![s.subrange(from as int, at as int)] + rest).skip(1) =~= rest);
        }
        match parse_int(text, from, at) {
            None => {
                return Err(LookupError::Malformed);
            },
            Some(i) => {
                proof {
                    match parse_all(rest) {
                        Ok(tail) => {
                            assert(values@ + (seq![i] + tail) =~= values@.push(i) + tail);
                        },
                        Err(_) => {},
                    }
                }
                values.push(i);
            },
        }
        if at >= text.len() {
            proof {
                assert(values@ + Seq::<i32>::empty() =~= values@);
            }
            return Ok(values);
        }
        from = at + 1;
    }
}

fn int_payload(text: &Vec<char>) -> (r: Result<Vec<i32>, LookupError>)
    ensures
        match decode_int_payload(text@) {
            Ok(list) => r matches Ok(v) && v@ == list,
            Err(e) => r matches Err(x) && x == e,
        },
{
    let ghost pieces = split_from(text@, 0, ';');
    if text.len() == 0 {
        proof {
            assert(pieces.skip(1) =~= Seq::<Seq<char>>::empty());
        }
        Ok(Vec::new())
    } else if text[0] == ';' {
        proof {
            lemma_scan_is(text@, 0, Stop::Char(';'), 0);
            assert(pieces.skip(1) =~= split_from(text@, 1, ';'));
        }
        ints_from(text, 1)
    } else {
        proof {
            lemma_scan(text@, 0, Stop::Char(';'));
        }
        ints_from(text, 0)
    }
}

fn int_array(text: &Vec<char>) -> (r: Result<Vec<i32>, LookupError>)
    ensures
        match decode_int_array(text@) {
            Ok(list) => r matches Ok(v) && v@ == list,
            Err(e) => r matches Err(x) && x == e,
        },
{
    let start: usize = match payload_start(text, "array_int") {
        Err(e) => {
            return Err(e);
        },
        Ok(start) => start,
    };
    assert(text@.skip(start as int) =~= text@.subrange(start as int, text.len() as int));
    let p: Vec<char> = copy_range(text, start, text.len());
    int_payload(&p)
}

fn int_list(text: &Vec<char>) -> (r: Result<Vec<i32>, LookupError>)
    ensures
        match decode_int_list(text@) {
            Ok(list) => r matches Ok(v) && v@ == list,
            Err(e) => r matches Err(x) && x == e,
        },
{
    if text.len() == 0 {
        Ok(Vec::new())
    } else {
        int_array(text)
    }
}

/// Reads the integers of an array as it is written inside another: nothing
/// for the empty text, and else what stands behind the type `array_int`.
pub fn convert_string_to_int_array(array: &str) -> (r: Result<Vec<i32>, LookupError>)
    ensures
        match decode_int_list(array@) {
            Ok(list) => r matches Ok(v) && v@ == list,
            Err(e) => r matches Err(x) && x == e,
        },
{
    let chars: Vec<char> = chars_of(array);
    int_list(&chars)
}

fn int_lists(text: &Vec<char>) -> (r: Result<Vec<Vec<i32>>, LookupError>)
    ensures
        match decode_int_lists(text@) {
            Ok(lists) => r matches Ok(v) && lists_of(v@) == lists,
            Err(e) => r matches Err(x) && x == e,
        },
{
    let ghost s = text@;
    let mut lists: Vec<Vec<i32>> = Vec::new();
    let mut inside: bool = false;
    let mut from: usize = 0;
    assert(lists_of(lists@) =~= Seq::empty());
    loop
        invariant
            s == text@,
            from <= text.len(),
            every_other(split_from(s, 0, '|'), false) == behind(
                lists_of(lists@),
                every_other(split_from(s, from as int, '|'), inside),
            ),
        decreases text.len() - from,
    {
        let at: usize = find_char(text, from, '|');
        let ghost rest = if at >= text.len() {
            Seq::<Seq<char>>::empty()
        } else {
            split_from(s, at + 1, '|')
        };
        proof {
            assert(split_from(s, from as int, '|') =~= seq![s.subrange(from as int, at as int)]
                + rest);
            assert((seq![s.subrange(from as int, at as int)] + rest).skip(1) =~= rest);
        }
        if inside {
            if at >= text.len() {
                return Err(LookupError::Malformed);
            }
            let piece: Vec<char> = copy_range(text, from, at);
            match int_list(&piece) {
                Err(_) => {
                    return Err(LookupError::Malformed);
                },
                Ok(list) => {
                    proof {
                        assert(lists_of(lists@.push(list)) =~= lists_of(lists@).push(list@));
                        match every_other(rest, false) {
                            Ok(tail) => {
                                assert(lists_of(lists@) + (seq![list@] + tail) =~= lists_of(
                                    lists@,
                                ).push(list@) + tail);
                            },
                            Err(_) => {},
                        }
                    }
                    lists.push(list);
                },
            }
        } else if at > from {
            return Err(LookupError::Malformed);
        }
        if at >= text.len() {
            proof {
                assert(lists_of(lists@) + Seq::<Seq<i32>>::empty() =~= lists_of(lists@));
            }
            return Ok(lists);
        }
        inside = !inside;
        from = at + 1;
    }
}

/// The encoded value of a variable, as it stands in the map.
pub fn toml_parser_get_value(map: &TOMLStringMap, tag: &str, name: &str) -> (r: Result<
    String,
    LookupError,
>)
    ensures
        match lookup(map@, tag@, name@) {
            Ok(text) => r matches Ok(s) && s@ == text,
            Err(e) => r matches Err(x) && x == e,
        },
{
    match map.get(tag) {
        None => Err(LookupError::MissingSection),
        Some(section) => match section.get(name) {
            None => Err(LookupError::MissingName),
            Some(text) => Ok(text.clone()),
        },
    }
}

/// What a reader returns: the error of the lookup, or else what decoding the
/// value gives.
pub open spec fn read<T>(
    sections: Sections,
    tag: Seq<char>,
    name: Seq<char>,
    decode: spec_fn(Seq<char>) -> Result<T, LookupError>,
) -> Result<T, LookupError> {
    match lookup(sections, tag, name) {
        Err(e) => Err(e),
        Ok(text) => decode(text),
    }
}

/// Reads a variable of type `int`.
pub fn toml_parser_get_int(map: &TOMLStringMap, tag: &str, name: &str) -> (r: Result<
    i32,
    LookupError,
>)
    ensures
        r == read(map@, tag@, name@, |text: Seq<char>| decode_int(text)),
{
    let val: String = match toml_parser_get_value(map, tag, name) {
        Err(e) => {
            return Err(e);
        },
        Ok(val) => val,
    };
    let chars: Vec<char> = chars_of(val.as_str());
    let start: usize = match payload_start(&chars, "int") {
        Err(e) => {
            return Err(e);
        },
        Ok(start) => start,
    };
    match parse_int(&chars, start, chars.len()) {
        Some(i) => Ok(i),
        None => Err(LookupError::Malformed),
    }
}

/// Reads a variable of type `string`.
pub fn toml_parser_get_string(map: &TOMLStringMap, tag: &str, name: &str) -> (r: Result<
    String,
    LookupError,
>)
    ensures
        match read(map@, tag@, name@, |text: Seq<char>| decode_string(text)) {
            Ok(text) => r matches Ok(s) && s@ == text,
            Err(e) => r matches Err(x) && x == e,
        },
{
    let val: String = match toml_parser_get_value(map, tag, name) {
        Err(e) => {
            return Err(e);
        },
        Ok(val) => val,
    };
    let chars: Vec<char> = chars_of(val.as_str());
    let start: usize = match payload_start(&chars, "string") {
        Err(e) => {
            return Err(e);
        },
        Ok(start) => start,
    };
    let end: usize = chars.len();
    if end - start >= 2 && chars[start] == '\'' && chars[end - 1] == '\'' {
        let s: String = string_of(&chars, start + 1, end - 1);
        proof {
            let p = chars@.skip(start as int);
            assert(p.subrange(1, p.len() - 1) =~= chars@.subrange(start + 1, end - 1));
        }
        Ok(s)
    } else {
        Err(LookupError::Malformed)
    }
}

/// Reads a variable of type `bool`.
pub fn toml_parser_get_bool(map: &TOMLStringMap, tag: &str, name: &str) -> (r: Result<
    bool,
    LookupError,
>)
    ensures
        r == read(map@, tag@, name@, |text: Seq<char>| decode_bool(text)),
{
    let val: String = match toml_parser_get_value(map, tag, name) {
        Err(e) => {
            return Err(e);
        },
        Ok(val) => val,
    };
    let chars: Vec<char> = chars_of(val.as_str());
    let start: usize = match payload_start(&chars, "bool") {
        Err(e) => {
            return Err(e);
        },
        Ok(start) => start,
    };
    assert(chars@.skip(start as int) =~= chars@.subrange(start as int, chars.len() as int));
    Ok(same_text(&chars, start, chars.len(), "true"))
}

/// Reads a variable of type `array_int`.
pub fn toml_parser_get_int_array(map: &TOMLStringMap, tag: &str, name: &str) -> (r: Result<
    Vec<i32>,
    LookupError,
>)
    ensures
        match read(map@, tag@, name@, |text: Seq<char>| decode_int_array(text)) {
            Ok(list) => r matches Ok(v) && v@ == list,
            Err(e) => r matches Err(x) && x == e,
        },
{
    let val: String = match toml_parser_get_value(map, tag, name) {
        Err(e) => {
            return Err(e);
        },
        Ok(val) => val,
    };
    let chars: Vec<char> = chars_of(val.as_str());
    int_array(&chars)
}

/// Reads a variable of type `array_array_int`.
pub fn toml_parser_get_int_array_array(map: &TOMLStringMap, tag: &str, name: &str) -> (r: Result<
    Vec<Vec<i32>>,
    LookupError,
>)
    ensures
        match read(map@, tag@, name@, |text: Seq<char>| decode_int_array_array(text)) {
            Ok(lists) => r matches Ok(v) && lists_of(v@) == lists,
            Err(e) => r matches Err(x) && x == e,
        },
{
    let val: String = match toml_parser_get_value(map, tag, name) {
        Err(e) => {
            return Err(e);
        },
        Ok(val) => val,
    };
    let chars: Vec<char> = chars_of(val.as_str());
    let start: usize = match payload_start(&chars, "array_array_int") {
        Err(e) => {
            return Err(e);
        },
        Ok(start) => start,
    };
    assert(chars@.skip(start as int) =~= chars@.subrange(start as int, chars.len() as int));
    let p: Vec<char> = copy_range(&chars, start, chars.len());
    int_lists(&p)
}

} // verus!
