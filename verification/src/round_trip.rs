//! What is written into the map can be read back.

use vstd::prelude::*;
use crate::decimal::{
    decimal_text, is_digit, lemma_decimal_text_chars, lemma_parse_decimal_text, parse_decimal,
};
use crate::lookup::{
    decode_bool, decode_int, decode_int_array, decode_int_array_array, decode_int_list,
    decode_string, every_other, parse_all, payload, read, split_from, LookupError,
};
use crate::parser::ast::Node;
use crate::parser::converter::{assigns, converted, lemma_lookup_after_convert, ConvertFailure};
use crate::parser::encoding::{
    bool_text, encode_array, encode_item, encode_prefix, encode_value, nested_tag, quoted, Joined,
};
use crate::text::{lemma_scan, lemma_scan_is, scan, stops_at, Stop};

verus! {

/// Whether `c` does not occur in `s`.
pub open spec fn lacks(s: Seq<char>, c: char) -> bool {
    forall|k: int| 0 <= k < s.len() ==> s[k] != c
}

/// Behind a type without `#` and a `#` stands the value.
proof fn lemma_payload(tag: Seq<char>, rest: Seq<char>)
    requires
        lacks(tag, '#'),
    ensures
        payload(tag + "#"@ + rest, tag) == Ok::<Seq<char>, LookupError>(rest),
        scan(tag + "#"@ + rest, 0, Stop::Char('#')) == tag.len(),
{
    reveal_strlit("#");
    let text = tag + "#"@ + rest;
    assert(text[tag.len() as int] == '#');
    assert forall|i: int| 0 <= i < tag.len() implies !stops_at(
        Stop::Char('#'),
        #[trigger] text[i],
    ) by {
        assert(text[i] == tag[i]);
    }
    lemma_scan_is(text, 0, Stop::Char('#'), tag.len() as int);
    assert(text.take(tag.len() as int) =~= tag);
    assert(text.skip(tag.len() as int + 1) =~= rest);
}

/// The names of the types hold no `#`.
proof fn lemma_type_names()
    ensures
        lacks("bool"@, '#'),
        lacks("int"@, '#'),
        lacks("string"@, '#'),
        lacks("array_int"@, '#'),
        lacks("array_array_int"@, '#'),
        "bool#"@ == "bool"@ + "#"@,
        "int#"@ == "int"@ + "#"@,
        "string#"@ == "string"@ + "#"@,
        "array_"@ + "array_int"@ == "array_array_int"@,
{
    reveal_strlit("#");
    reveal_strlit("bool");
    reveal_strlit("int");
    reveal_strlit("string");
    reveal_strlit("array_");
    reveal_strlit("array_int");
    reveal_strlit("array_array_int");
    reveal_strlit("bool#");
    reveal_strlit("int#");
    reveal_strlit("string#");
    assert("bool#"@ =~= "bool"@ + "#"@);
    assert("int#"@ =~= "int"@ + "#"@);
    assert("string#"@ =~= "string"@ + "#"@);
    assert("array_"@ + "array_int"@ =~= "array_array_int"@);
}

/// A boolean that was written with its type is read back as it was.
pub proof fn lemma_decode_bool(b: bool)
    ensures
        encode_value(Node::Bool(b), true) matches Ok(text) && decode_bool(text) == Ok::<
            bool,
            LookupError,
        >(b),
{
    lemma_type_names();
    lemma_payload("bool"@, bool_text(b));
    reveal_strlit("true");
    reveal_strlit("false");
    assert("false"@[0] != "true"@[0]);
}

/// An integer that was written with its type is read back as it was.
pub proof fn lemma_decode_int(i: i32)
    ensures
        encode_value(Node::Int(i), true) matches Ok(text) && decode_int(text) == Ok::<
            i32,
            LookupError,
        >(i),
{
    lemma_type_names();
    lemma_payload("int"@, decimal_text(i as int));
    lemma_parse_decimal_text(i);
}

/// A string that was written with its type is read back as it was, whatever
/// characters it holds.
pub proof fn lemma_decode_string(s: Seq<char>)
    ensures
        encode_value(Node::Text(s), true) matches Ok(text) && decode_string(text) == Ok::<
            Seq<char>,
            LookupError,
        >(s),
{
    lemma_type_names();
    lemma_payload("string"@, quoted(s));
    reveal_strlit("'");
    let q = quoted(s);
    assert(q.len() == s.len() + 2);
    assert(q.first() == '\'');
    assert(q.last() == '\'');
    assert(q.subrange(1, q.len() - 1) =~= s);
}

/// The array of the given integers.
pub open spec fn int_nodes(list: Seq<i32>) -> Seq<Node> {
    Seq::new(list.len(), |k: int| Node::Int(list[k]))
}

/// The array of the arrays of the given integers.
pub open spec fn array_nodes(lists: Seq<Seq<i32>>) -> Seq<Node> {
    Seq::new(lists.len(), |k: int| Node::Array(int_nodes(lists[k])))
}

/// The first `n` of the integers as they are written, a `;` before each.
pub open spec fn joined(list: Seq<i32>, n: nat) -> Seq<char>
    decreases n,
{
    if n == 0 || n > list.len() {
        Seq::empty()
    } else {
        joined(list, (n - 1) as nat) + (";"@ + decimal_text(list[n - 1] as int))
    }
}

/// An array of integers as it is written with its type; an array without
/// elements is the empty text.
pub open spec fn int_array_text(list: Seq<i32>) -> Seq<char> {
    if list.len() == 0 {
        Seq::empty()
    } else {
        "array_int"@ + "#"@ + joined(list, list.len())
    }
}

/// Integers are written with digits, `-` and `;` only.
proof fn lemma_joined_chars(list: Seq<i32>, n: nat)
    requires
        n <= list.len(),
    ensures
        forall|k: int|
            0 <= k < joined(list, n).len() ==> {
                let c = #[trigger] joined(list, n)[k];
                is_digit(c) || c == '-' || c == ';'
            },
    decreases n,
{
    if n > 0 {
        reveal_strlit(";");
        lemma_joined_chars(list, (n - 1) as nat);
        lemma_decimal_text_chars(list[n - 1] as int);
        let before = joined(list, (n - 1) as nat);
        let t = decimal_text(list[n - 1] as int);
        assert forall|k: int| 0 <= k < joined(list, n).len() implies {
            let c = #[trigger] joined(list, n)[k];
            is_digit(c) || c == '-' || c == ';'
        } by {
            if k < before.len() {
                assert(joined(list, n)[k] == before[k]);
            } else if k > before.len() {
                assert(joined(list, n)[k] == t[k - before.len() - 1]);
            }
        }
    }
}

/// How an array of integers is written under type checking.
proof fn lemma_encode_ints(list: Seq<i32>, n: nat)
    requires
        1 <= n <= list.len(),
    ensures
        encode_prefix(int_nodes(list), n, true) == Ok::<Joined, ConvertFailure>(
            Joined { text: "array_int"@ + "#"@ + joined(list, n), tag: Some("array_int"@) },
        ),
    decreases n,
{
    let items = int_nodes(list);
    let piece = ";"@ + decimal_text(list[n - 1] as int);
    assert(encode_item(items[n - 1], true)->Ok_0.piece == piece);
    if n == 1 {
        assert(joined(list, 0) =~= Seq::<char>::empty());
        assert(Seq::<char>::empty() + "array_int"@ + "#"@ + piece =~= "array_int"@ + "#"@
            + joined(list, 1));
    } else {
        lemma_encode_ints(list, (n - 1) as nat);
        assert(("array_int"@ + "#"@ + joined(list, (n - 1) as nat)) + piece =~= "array_int"@
            + "#"@ + joined(list, n));
    }
}

/// An array of integers is written as `int_array_text` says.
proof fn lemma_encode_int_array(list: Seq<i32>)
    ensures
        encode_array(int_nodes(list), true) == Ok::<Seq<char>, ConvertFailure>(
            int_array_text(list),
        ),
{
    if list.len() > 0 {
        lemma_encode_ints(list, list.len());
    }
}

/// Where no separator is left, one piece is left.
proof fn lemma_split_last(s: Seq<char>, from: int, sep: char)
    requires
        0 <= from <= s.len(),
        forall|k: int| from <= k < s.len() ==> s[k] != sep,
    ensures
        split_from(s, from, sep) == seq![s.subrange(from, s.len() as int)],
{
    lemma_scan_is(s, from, Stop::Char(sep), s.len() as int);
}

/// A separator and a piece at the end of a text are one more piece.
proof fn lemma_split_append(s: Seq<char>, from: int, sep: char, t: Seq<char>)
    requires
        0 <= from <= s.len(),
        lacks(t, sep),
    ensures
        split_from(s + seq![sep] + t, from, sep) == split_from(s, from, sep).push(t),
    decreases s.len() - from,
{
    let longer = s + seq![sep] + t;
    let at = scan(s, from, Stop::Char(sep));
    lemma_scan(s, from, Stop::Char(sep));
    assert forall|i: int| from <= i < at implies !stops_at(
        Stop::Char(sep),
        #[trigger] longer[i],
    ) by {
        assert(longer[i] == s[i]);
    }
    if at < s.len() {
        assert(longer[at] == s[at]);
        lemma_scan_is(longer, from, Stop::Char(sep), at);
        lemma_split_append(s, at + 1, sep, t);
        assert(longer.subrange(from, at) =~= s.subrange(from, at));
        assert(seq![s.subrange(from, at)] + split_from(s, at + 1, sep).push(t) =~= (seq![
            s.subrange(from, at),
        ] + split_from(s, at + 1, sep)).push(t));
    } else {
        assert(longer[s.len() as int] == sep);
        lemma_scan_is(longer, from, Stop::Char(sep), s.len() as int);
        assert forall|k: int| s.len() + 1 <= k < longer.len() implies longer[k] != sep by {
            assert(longer[k] == t[k - s.len() - 1]);
        }
        lemma_split_last(longer, s.len() as int + 1, sep);
        assert(longer.subrange(s.len() as int + 1, longer.len() as int) =~= t);
        assert(longer.subrange(from, s.len() as int) =~= s.subrange(from, s.len() as int));
        assert(seq![s.subrange(from, s.len() as int)] + seq![t] =~= seq![
            s.subrange(from, s.len() as int),
        ].push(t));
    }
}

/// One more piece that is an integer is one more integer.
proof fn lemma_parse_all_push(pieces: Seq<Seq<char>>, t: Seq<char>)
    requires
        parse_all(pieces) is Ok,
        parse_decimal(t) is Some,
    ensures
        parse_all(pieces.push(t)) == Ok::<Seq<i32>, LookupError>(
            parse_all(pieces)->Ok_0.push(parse_decimal(t)->Some_0),
        ),
    decreases pieces.len(),
{
    let longer = pieces.push(t);
    assert(longer[0] == if pieces.len() == 0 {
        t
    } else {
        pieces[0]
    });
    if pieces.len() == 0 {
        assert(longer.skip(1) =~= Seq::<Seq<char>>::empty());
        assert(parse_all(longer.skip(1)) == Ok::<Seq<i32>, LookupError>(Seq::empty()));
        assert(seq![parse_decimal(t)->Some_0] + Seq::<i32>::empty() =~= Seq::<i32>::empty().push(
            parse_decimal(t)->Some_0,
        ));
    } else {
        assert(longer.skip(1) =~= pieces.skip(1).push(t));
        lemma_parse_all_push(pieces.skip(1), t);
        let i = parse_decimal(pieces[0])->Some_0;
        let rest = parse_all(pieces.skip(1))->Ok_0;
        assert(seq![i] + rest.push(parse_decimal(t)->Some_0) =~= (seq![i] + rest).push(
            parse_decimal(t)->Some_0,
        ));
    }
}

/// The integers are read back from what stands behind their first `;`.
proof fn lemma_decode_joined(list: Seq<i32>, n: nat)
    requires
        1 <= n <= list.len(),
    ensures
        scan(joined(list, n), 0, Stop::Char(';')) == 0,
        parse_all(split_from(joined(list, n), 1, ';')) == Ok::<Seq<i32>, LookupError>(
            list.take(n as int),
        ),
    decreases n,
{
    reveal_strlit(";");
    let text = joined(list, n);
    let t = decimal_text(list[n - 1] as int);
    lemma_decimal_text_chars(list[n - 1] as int);
    lemma_parse_decimal_text(list[n - 1]);
    assert(lacks(t, ';'));
    let shorter = joined(list, (n - 1) as nat);
    assert(text =~= shorter + seq![';'] + t);
    if n == 1 {
        assert(shorter =~= Seq::<char>::empty());
        assert(text[0] == ';');
        lemma_scan_is(text, 0, Stop::Char(';'), 0);
        assert forall|k: int| 1 <= k < text.len() implies text[k] != ';' by {
            assert(text[k] == t[k - 1]);
        }
        lemma_split_last(text, 1, ';');
        assert(text.subrange(1, text.len() as int) =~= t);
        assert(seq![t].skip(1) =~= Seq::<Seq<char>>::empty());
        assert(parse_all(seq![t].skip(1)) == Ok::<Seq<i32>, LookupError>(Seq::empty()));
        assert(parse_all(seq![t]) == Ok::<Seq<i32>, LookupError>(
            seq![list[0]] + Seq::<i32>::empty(),
        ));
        assert(seq![list[0]] + Seq::<i32>::empty() =~= list.take(1));
    } else {
        lemma_decode_joined(list, (n - 1) as nat);
        lemma_scan(shorter, 0, Stop::Char(';'));
        assert(text[0] == shorter[0]);
        lemma_scan_is(text, 0, Stop::Char(';'), 0);
        lemma_split_append(shorter, 1, ';', t);
        lemma_parse_all_push(split_from(shorter, 1, ';'), t);
        assert(list.take(n - 1).push(list[n - 1]) =~= list.take(n as int));
    }
}

/// What `int_array_text` writes is read back by `decode_int_list`.
proof fn lemma_decode_int_array_text(list: Seq<i32>)
    ensures
        decode_int_list(int_array_text(list)) == Ok::<Seq<i32>, LookupError>(list),
{
    if list.len() == 0 {
        assert(list =~= Seq::<i32>::empty());
    } else {
        lemma_encode_int_array(list);
        lemma_decode_int_array(list);
    }
}

/// An array of integers with at least one element that was written with its
/// type is read back as it was.
pub proof fn lemma_decode_int_array(list: Seq<i32>)
    requires
        list.len() > 0,
    ensures
        encode_value(Node::Array(int_nodes(list)), true) matches Ok(text) && decode_int_array(text)
            == Ok::<Seq<i32>, LookupError>(list),
{
    lemma_type_names();
    lemma_encode_int_array(list);
    let p = joined(list, list.len());
    lemma_payload("array_int"@, p);
    lemma_decode_joined(list, list.len());
    assert(list.take(list.len() as int) =~= list);
    lemma_scan(p, 0, Stop::Char(';'));
    assert(split_from(p, 0, ';').skip(1) =~= split_from(p, 1, ';'));
}

/// The first `n` of the arrays as they are written, each between two `|`.
pub open spec fn segments(lists: Seq<Seq<i32>>, n: nat) -> Seq<char>
    decreases n,
{
    if n == 0 || n > lists.len() {
        Seq::empty()
    } else {
        segments(lists, (n - 1) as nat) + ("|"@ + int_array_text(lists[n - 1]) + "|"@)
    }
}

/// An array of integers is written without `|`.
proof fn lemma_int_array_text_chars(list: Seq<i32>)
    ensures
        lacks(int_array_text(list), '|'),
{
    if list.len() > 0 {
        reveal_strlit("array_int");
        reveal_strlit("#");
        lemma_joined_chars(list, list.len());
        let before = "array_int"@ + "#"@;
        let text = int_array_text(list);
        assert forall|k: int| 0 <= k < text.len() implies text[k] != '|' by {
            if k < before.len() {
                assert(text[k] == before[k]);
            } else {
                assert(text[k] == joined(list, list.len())[k - before.len()]);
            }
        }
    }
}

/// How an array of arrays of integers is written under type checking, if the
/// first of the arrays has an element.
proof fn lemma_encode_arrays(lists: Seq<Seq<i32>>, n: nat)
    requires
        1 <= n <= lists.len(),
        lists[0].len() > 0,
    ensures
        encode_prefix(array_nodes(lists), n, true) == Ok::<Joined, ConvertFailure>(
            Joined {
                text: "array_array_int"@ + "#"@ + segments(lists, n),
                tag: Some("array_array_int"@),
            },
        ),
    decreases n,
{
    lemma_type_names();
    let items = array_nodes(lists);
    let list = lists[n - 1];
    let inner = int_array_text(list);
    let piece = "|"@ + inner + "|"@;
    assert(items[n - 1] == Node::Array(int_nodes(list)));
    lemma_encode_int_array(list);
    assert(encode_item(items[n - 1], true) is Ok);
    assert(encode_item(items[n - 1], true)->Ok_0.piece == piece);
    if list.len() > 0 {
        lemma_payload("array_int"@, joined(list, list.len()));
        assert(inner.take("array_int"@.len() as int) =~= "array_int"@);
        assert(nested_tag(inner) == Some("array_array_int"@));
    } else {
        assert(nested_tag(inner) is None);
    }
    if n == 1 {
        assert(segments(lists, 0) =~= Seq::<char>::empty());
        assert(Seq::<char>::empty() + "array_array_int"@ + "#"@ + piece =~= "array_array_int"@
            + "#"@ + segments(lists, 1));
    } else {
        lemma_encode_arrays(lists, (n - 1) as nat);
        assert(("array_array_int"@ + "#"@ + segments(lists, (n - 1) as nat)) + piece
            =~= "array_array_int"@ + "#"@ + segments(lists, n));
    }
}

/// An array and the empty piece behind the `|` that closes it are one more
/// array.
proof fn lemma_every_other_push(pieces: Seq<Seq<char>>, inside: bool, array: Seq<char>)
    requires
        every_other(pieces, inside) is Ok,
        decode_int_list(array) is Ok,
        pieces.len() % 2 == if inside {
            0int
        } else {
            1int
        },
    ensures
        every_other(pieces.push(array).push(Seq::empty()), inside) == Ok::<
            Seq<Seq<i32>>,
            LookupError,
        >(every_other(pieces, inside)->Ok_0.push(decode_int_list(array)->Ok_0)),
    decreases pieces.len(),
{
    let gap = Seq::<char>::empty();
    let longer = pieces.push(array).push(gap);
    let list = decode_int_list(array)->Ok_0;
    if pieces.len() == 0 {
        assert(longer[0] == array);
        assert(longer.skip(1) =~= seq![gap]);
        assert(seq![gap].skip(1) =~= Seq::<Seq<char>>::empty());
        assert(every_other(seq![gap].skip(1), true) == Ok::<Seq<Seq<i32>>, LookupError>(
            Seq::empty(),
        ));
        assert(seq![gap][0].len() == 0);
        assert(every_other(seq![gap], false) == Ok::<Seq<Seq<i32>>, LookupError>(Seq::empty()));
        assert(seq![list] + Seq::<Seq<i32>>::empty() =~= Seq::<Seq<i32>>::empty().push(list));
    } else {
        assert(longer[0] == pieces[0]);
        assert(longer.skip(1) =~= pieces.skip(1).push(array).push(gap));
        lemma_every_other_push(pieces.skip(1), !inside, array);
        if inside {
            let first = decode_int_list(pieces[0])->Ok_0;
            let rest = every_other(pieces.skip(1), false)->Ok_0;
            assert(seq![first] + rest.push(list) =~= (seq![first] + rest).push(list));
        }
    }
}

/// The arrays are read back from their segments.
proof fn lemma_decode_segments(lists: Seq<Seq<i32>>, n: nat)
    requires
        n <= lists.len(),
    ensures
        split_from(segments(lists, n), 0, '|').len() == 2 * n + 1,
        every_other(split_from(segments(lists, n), 0, '|'), false) == Ok::<
            Seq<Seq<i32>>,
            LookupError,
        >(lists.take(n as int)),
    decreases n,
{
    reveal_strlit("|");
    if n == 0 {
        lemma_split_last(segments(lists, 0), 0, '|');
        let pieces = split_from(segments(lists, 0), 0, '|');
        assert(pieces.skip(1) =~= Seq::<Seq<char>>::empty());
        assert(every_other(pieces.skip(1), true) == Ok::<Seq<Seq<i32>>, LookupError>(
            Seq::empty(),
        ));
        assert(lists.take(0) =~= Seq::<Seq<i32>>::empty());
    } else {
        lemma_decode_segments(lists, (n - 1) as nat);
        let shorter = segments(lists, (n - 1) as nat);
        let list = lists[n - 1];
        let inner = int_array_text(list);
        lemma_int_array_text_chars(list);
        lemma_decode_int_array_text(list);
        let middle = shorter + seq!['|'] + inner;
        assert(segments(lists, n) =~= middle + seq!['|'] + Seq::<char>::empty());
        lemma_split_append(shorter, 0, '|', inner);
        lemma_split_append(middle, 0, '|', Seq::empty());
        lemma_every_other_push(split_from(shorter, 0, '|'), false, inner);
        assert(lists.take(n - 1).push(list) =~= lists.take(n as int));
    }
}

/// An array of arrays of integers that was written with its type is read
/// back as it was, if the first of the arrays has an element.
pub proof fn lemma_decode_int_array_array(lists: Seq<Seq<i32>>)
    requires
        lists.len() > 0,
        lists[0].len() > 0,
    ensures
        encode_value(Node::Array(array_nodes(lists)), true) matches Ok(text)
            && decode_int_array_array(text) == Ok::<Seq<Seq<i32>>, LookupError>(lists),
{
    lemma_type_names();
    lemma_encode_arrays(lists, lists.len());
    lemma_payload("array_array_int"@, segments(lists, lists.len()));
    lemma_decode_segments(lists, lists.len());
    assert(lists.take(lists.len() as int) =~= lists);
}

/// A value without `#` cannot be read as a value of any type: so it is with
/// everything that was written without type checking and holds no `#`.
pub proof fn lemma_untyped(text: Seq<char>)
    requires
        lacks(text, '#'),
    ensures
        decode_bool(text) == Err::<bool, LookupError>(LookupError::Untyped),
        decode_int(text) == Err::<i32, LookupError>(LookupError::Untyped),
        decode_string(text) == Err::<Seq<char>, LookupError>(LookupError::Untyped),
        decode_int_array(text) == Err::<Seq<i32>, LookupError>(LookupError::Untyped),
        decode_int_array_array(text) == Err::<Seq<Seq<i32>>, LookupError>(LookupError::Untyped),
{
    lemma_scan_is(text, 0, Stop::Char('#'), text.len() as int);
}

/// An array without elements is written without a type, also under type
/// checking, and cannot be read as a value of any type.
pub proof fn lemma_empty_array_untyped()
    ensures
        encode_value(Node::Array(Seq::empty()), true) matches Ok(text) && {
            &&& text.len() == 0
            &&& decode_bool(text) == Err::<bool, LookupError>(LookupError::Untyped)
            &&& decode_int(text) == Err::<i32, LookupError>(LookupError::Untyped)
            &&& decode_string(text) == Err::<Seq<char>, LookupError>(LookupError::Untyped)
            &&& decode_int_array(text) == Err::<Seq<i32>, LookupError>(LookupError::Untyped)
            &&& decode_int_array_array(text) == Err::<Seq<Seq<i32>>, LookupError>(
                LookupError::Untyped,
            )
        },
{
    lemma_untyped(Seq::empty());
}

/// Reading a variable from the map of a document that was converted with
/// type checking gives the literal that was assigned to it last in its
/// section: a boolean, an integer, a string, an array of integers with at
/// least one element, or an array of arrays of integers of which the first
/// has an element.
pub proof fn lemma_round_trip(
    statements: Seq<Node>,
    i: int,
    section: Seq<char>,
    name: Seq<char>,
)
    requires
        assigns(statements, i, section, name),
        forall|j: int|
            i < j < statements.len() ==> !#[trigger] assigns(statements, j, section, name),
        converted(Node::Document(statements), true) is Ok,
    ensures
        ({
            let sections = converted(Node::Document(statements), true)->Ok_0;
            match *statements[i]->Assignment_1 {
                Node::Bool(b) => read(sections, section, name, |t: Seq<char>| decode_bool(t))
                    == Ok::<bool, LookupError>(b),
                Node::Int(v) => read(sections, section, name, |t: Seq<char>| decode_int(t))
                    == Ok::<i32, LookupError>(v),
                Node::Text(s) => read(sections, section, name, |t: Seq<char>| decode_string(t))
                    == Ok::<Seq<char>, LookupError>(s),
                Node::Array(items) => {
                    &&& forall|list: Seq<i32>|
                        list.len() > 0 && items == #[trigger] int_nodes(list) ==> read(
                            sections,
                            section,
                            name,
                            |t: Seq<char>| decode_int_array(t),
                        ) == Ok::<Seq<i32>, LookupError>(list)
                    &&& forall|lists: Seq<Seq<i32>>|
                        lists.len() > 0 && lists[0].len() > 0 && items == #[trigger] array_nodes(
                            lists,
                        ) ==> read(
                            sections,
                            section,
                            name,
                            |t: Seq<char>| decode_int_array_array(t),
                        ) == Ok::<Seq<Seq<i32>>, LookupError>(lists)
                },
                _ => true,
            }
        }),
{
    lemma_lookup_after_convert(statements, i, section, name, true);
    match *statements[i]->Assignment_1 {
        Node::Bool(b) => {
            lemma_decode_bool(b);
        },
        Node::Int(v) => {
            lemma_decode_int(v);
        },
        Node::Text(s) => {
            lemma_decode_string(s);
        },
        Node::Array(items) => {
            assert forall|list: Seq<i32>|
                list.len() > 0 && items == #[trigger] int_nodes(list) implies read(
                converted(Node::Document(statements), true)->Ok_0,
                section,
                name,
                |t: Seq<char>| decode_int_array(t),
            ) == Ok::<Seq<i32>, LookupError>(list) by {
                lemma_decode_int_array(list);
            }
            assert forall|lists: Seq<Seq<i32>>|
                lists.len() > 0 && lists[0].len() > 0 && items == #[trigger] array_nodes(
                    lists,
                ) implies read(
                converted(Node::Document(statements), true)->Ok_0,
                section,
                name,
                |t: Seq<char>| decode_int_array_array(t),
            ) == Ok::<Seq<Seq<i32>>, LookupError>(lists) by {
                lemma_decode_int_array_array(lists);
            }
        },
        _ => {},
    }
}

} // verus!
