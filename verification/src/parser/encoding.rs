//! How values are written into the map: as text, with or without a type tag.
//!
//! Without type checking a boolean is `true` or `false`, an integer its
//! decimal text, a string its text between single quotes, and an array the
//! row of its elements, a `;` before each; an element that is an array stands
//! between two `|` instead. With type checking a `bool#`, `int#` or `string#`
//! stands before a value, and before the first element of an array that shows
//! a type stands the type of the array and a `#`.

use vstd::prelude::*;
use crate::decimal::decimal_text;
use crate::parser::ast::Node;
use crate::parser::converter::ConvertFailure;
use crate::text::{scan, Stop};

verus! {

pub open spec fn bool_text(b: bool) -> Seq<char> {
    if b {
        "true"@
    } else {
        "false"@
    }
}

/// A text between single quotes. Quotes inside the text stay as they are.
pub open spec fn quoted(s: Seq<char>) -> Seq<char> {
    "'"@ + s + "'"@
}

/// An element of an array as it is written, and the type of array that it
/// asks for, if it shows one.
pub struct Item {
    pub piece: Seq<char>,
    pub tag: Option<Seq<char>>,
}

/// The elements of an array written so far, and the type of the array, once
/// an element has shown one.
pub struct Joined {
    pub text: Seq<char>,
    pub tag: Option<Seq<char>>,
}

/// The type of array that an element asks for which is itself an array,
/// written as `text`: `array_` and what stands before the first `#` of the
/// text. A text without `#`, as that of an empty array, shows no type.
pub open spec fn nested_tag(text: Seq<char>) -> Option<Seq<char>> {
    let at = scan(text, 0, Stop::Char('#'));
    if at < text.len() {
        Some("array_"@ + text.take(at))
    } else {
        None
    }
}

pub open spec fn tag_if(typecheck: bool, tag: Seq<char>) -> Option<Seq<char>> {
    if typecheck {
        Some(tag)
    } else {
        None
    }
}

pub open spec fn encode_item(node: Node, typecheck: bool) -> Result<Item, ConvertFailure>
    decreases node, 0nat,
{
    match node {
        Node::Bool(b) => Ok(
            Item { piece: ";"@ + bool_text(b), tag: tag_if(typecheck, "array_bool"@) },
        ),
        Node::Int(i) => Ok(
            Item { piece: ";"@ + decimal_text(i as int), tag: tag_if(typecheck, "array_int"@) },
        ),
        Node::Text(s) => Ok(
            Item { piece: ";"@ + quoted(s), tag: tag_if(typecheck, "array_string"@) },
        ),
        Node::Array(items) => match encode_prefix(items, items.len(), typecheck) {
            Err(e) => Err(e),
            Ok(inner) => Ok(
                Item {
                    piece: "|"@ + inner.text + "|"@,
                    tag: if typecheck {
                        nested_tag(inner.text)
                    } else {
                        None
                    },
                },
            ),
        },
        _ => Err(ConvertFailure::InvalidNode),
    }
}

/// Sets the type of the array if it has none yet, and writes it down; else
/// holds the type of the element against it.
pub open spec fn stamp(before: Joined, tag: Seq<char>) -> Result<Joined, ConvertFailure> {
    match before.tag {
        None => Ok(Joined { text: before.text + tag + "#"@, tag: Some(tag) }),
        Some(current) => if current == tag {
            Ok(before)
        } else {
            Err(ConvertFailure::TypeMismatch(current, tag))
        },
    }
}

pub open spec fn join(before: Joined, item: Item) -> Result<Joined, ConvertFailure> {
    match item.tag {
        None => Ok(Joined { text: before.text + item.piece, tag: before.tag }),
        Some(tag) => match stamp(before, tag) {
            Err(e) => Err(e),
            Ok(stamped) => Ok(Joined { text: stamped.text + item.piece, tag: stamped.tag }),
        },
    }
}

/// The first `n` elements of an array, written one behind the other.
pub open spec fn encode_prefix(items: Seq<Node>, n: nat, typecheck: bool) -> Result<
    Joined,
    ConvertFailure,
>
    decreases items, n,
{
    if n == 0 || n > items.len() {
        Ok(Joined { text: Seq::empty(), tag: None })
    } else {
        match encode_prefix(items, (n - 1) as nat, typecheck) {
            Err(e) => Err(e),
            Ok(before) => match encode_item(items[n - 1], typecheck) {
                Err(e) => Err(e),
                Ok(item) => join(before, item),
            },
        }
    }
}

pub open spec fn encode_array(items: Seq<Node>, typecheck: bool) -> Result<
    Seq<char>,
    ConvertFailure,
> {
    match encode_prefix(items, items.len(), typecheck) {
        Err(e) => Err(e),
        Ok(joined) => Ok(joined.text),
    }
}

pub open spec fn prefix_if(typecheck: bool, prefix: Seq<char>) -> Seq<char> {
    if typecheck {
        prefix
    } else {
        Seq::empty()
    }
}

/// The text that stands in the map for a value.
pub open spec fn encode_value(node: Node, typecheck: bool) -> Result<Seq<char>, ConvertFailure> {
    match node {
        Node::Bool(b) => Ok(prefix_if(typecheck, "bool#"@) + bool_text(b)),
        Node::Int(i) => Ok(prefix_if(typecheck, "int#"@) + decimal_text(i as int)),
        Node::Text(s) => Ok(prefix_if(typecheck, "string#"@) + quoted(s)),
        Node::Array(items) => encode_array(items, typecheck),
        _ => Err(ConvertFailure::InvalidNode),
    }
}

/// Once an element has failed, the array fails with it, whatever follows.
pub proof fn lemma_encode_prefix_fails(items: Seq<Node>, n: nat, m: nat, typecheck: bool)
    requires
        n <= m <= items.len(),
        encode_prefix(items, n, typecheck) is Err,
    ensures
        encode_prefix(items, m, typecheck) == encode_prefix(items, n, typecheck),
    decreases m - n,
{
    if n < m {
        lemma_encode_prefix_fails(items, n, (m - 1) as nat, typecheck);
    }
}

/// Whether a tree is a value: a boolean, an integer, a string, or an array
/// of values.
pub open spec fn is_value(node: Node) -> bool
    decreases node,
{
    match node {
        Node::Bool(_) => true,
        Node::Int(_) => true,
        Node::Text(_) => true,
        Node::Array(items) => forall|i: int| 0 <= i < items.len() ==> is_value(#[trigger] items[i]),
        _ => false,
    }
}

/// An array without elements is written as the empty text, with type checking
/// as without: it carries no type.
pub proof fn lemma_empty_array(typecheck: bool)
    ensures
        encode_value(Node::Array(Seq::empty()), typecheck) == Ok::<Seq<char>, ConvertFailure>(
            Seq::empty(),
        ),
{
}

/// Every element that shows a type shows the type of the array.
pub proof fn lemma_prefix_tag(items: Seq<Node>, n: nat, k: int, typecheck: bool)
    requires
        0 <= k < n <= items.len(),
        encode_prefix(items, n, typecheck) is Ok,
        encode_item(items[k], typecheck) matches Ok(item) && item.tag is Some,
    ensures
        encode_prefix(items, n, typecheck)->Ok_0.tag == encode_item(
            items[k],
            typecheck,
        )->Ok_0.tag,
    decreases n,
{
    if k < n - 1 {
        lemma_prefix_tag(items, (n - 1) as nat, k, typecheck);
    }
}

/// Under type checking an array fails if two of its elements show different
/// types.
pub proof fn lemma_mixed_types_fail(items: Seq<Node>, i: int, j: int)
    requires
        0 <= i < j < items.len(),
        encode_item(items[i], true) matches Ok(item) && item.tag is Some,
        encode_item(items[j], true) matches Ok(item) && item.tag is Some,
        encode_item(items[i], true)->Ok_0.tag != encode_item(items[j], true)->Ok_0.tag,
    ensures
        encode_array(items, true) is Err,
        encode_value(Node::Array(items), true) is Err,
{
    if encode_prefix(items, items.len(), true) is Ok {
        lemma_prefix_tag(items, items.len(), i, true);
        lemma_prefix_tag(items, items.len(), j, true);
    }
}

/// Without type checking no element shows a type, and every array of values
/// can be written, whatever the types of its elements.
pub proof fn lemma_unchecked_array(items: Seq<Node>, n: nat)
    requires
        n <= items.len(),
        forall|i: int| 0 <= i < items.len() ==> is_value(#[trigger] items[i]),
    ensures
        encode_prefix(items, n, false) is Ok,
        encode_prefix(items, n, false)->Ok_0.tag is None,
        n == items.len() ==> encode_value(Node::Array(items), false) is Ok,
    decreases items, n,
{
    if n > 0 {
        lemma_unchecked_array(items, (n - 1) as nat);
        assert(is_value(items[n - 1]));
        match items[n - 1] {
            Node::Array(inner) => {
                assert forall|i: int| 0 <= i < inner.len() implies is_value(
                    #[trigger] inner[i],
                ) by {}
                lemma_unchecked_array(inner, inner.len());
                assert(encode_item(items[n - 1], false) is Ok);
                assert(encode_item(items[n - 1], false)->Ok_0.tag is None);
            },
            _ => {
                assert(encode_item(items[n - 1], false) is Ok);
                assert(encode_item(items[n - 1], false)->Ok_0.tag is None);
            },
        }
        assert(encode_prefix(items, (n - 1) as nat, false) is Ok);
    }
}

} // verus!
