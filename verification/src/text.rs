//! Character-level helpers shared by the tokenizer, the encoder and the lookups.

use vstd::prelude::*;

verus! {

/// Whether `c` is alphabetic or numeric in the sense of Unicode.
///
/// The answer is read off the tables of the standard library by
/// [`is_alphanumeric`]. Of the characters of ASCII that function says what
/// [`ascii_alphanumeric`] says; of the others nothing is assumed.
pub uninterp spec fn alphanumeric(c: char) -> bool;

/// Whether `c` is a character of ASCII.
pub open spec fn ascii(c: char) -> bool {
    c as u32 <= 0x7f
}

/// The digits and the letters of ASCII.
pub open spec fn ascii_alphanumeric(c: char) -> bool {
    ('0' <= c && c <= '9') || ('a' <= c && c <= 'z') || ('A' <= c && c <= 'Z')
}

/// Whether `c` is a letter or a digit: of ASCII, or else in the sense of
/// Unicode.
pub open spec fn letter_or_digit(c: char) -> bool {
    if ascii(c) {
        ascii_alphanumeric(c)
    } else {
        alphanumeric(c)
    }
}

/// Asks the standard library whether a character is alphanumeric.
///
/// Wraps `char::is_alphanumeric`, which is true of the characters that have
/// the Unicode property Alphabetic or a numeric general category. The result
/// depends on the character alone, so the contract gives it the name
/// [`alphanumeric`]. Within ASCII the characters with those properties are
/// the letters `a` to `z` and `A` to `Z` and the digits `0` to `9`, which the
/// second clause states.
#[verifier::external_body]
pub(crate) fn is_alphanumeric(c: char) -> (r: bool)
    ensures
        r == alphanumeric(c),
        ascii(c) ==> r == ascii_alphanumeric(c),
{
    c.is_alphanumeric()
}

/// Appends one character to a string.
///
/// Wraps `String::push`, which adds the character at the end and leaves what
/// was there before untouched.
#[verifier::external_body]
pub(crate) fn push_char(s: &mut String, c: char)
    ensures
        final(s)@ == old(s)@.push(c),
{
    s.push(c);
}

/// What a scan over a text stops at.
pub enum Stop {
    /// The given character.
    Char(char),
    /// A character that begins a token.
    TokenStart,
    /// A character that ends an atom.
    AtomEnd,
}

/// The five characters that are tokens by themselves.
pub open spec fn single_token(c: char) -> bool {
    c == '=' || c == '[' || c == ']' || c == ',' || c == '\n'
}

/// Blanks and single-character tokens end an atom.
pub open spec fn ends_atom(c: char) -> bool {
    c == ' ' || c == '\t' || single_token(c)
}

/// An atom begins at a letter, a digit, `-` or `+`.
pub open spec fn starts_atom(c: char) -> bool {
    letter_or_digit(c) || c == '-' || c == '+'
}

/// A token begins at a quote, at a single-character token or where an atom begins.
pub open spec fn starts_token(c: char) -> bool {
    c == '"' || single_token(c) || starts_atom(c)
}

pub open spec fn stops_at(stop: Stop, c: char) -> bool {
    match stop {
        Stop::Char(x) => c == x,
        Stop::TokenStart => starts_token(c),
        Stop::AtomEnd => ends_atom(c),
    }
}

/// The first position at or after `from` where the scan stops, or the length
/// of `s` if there is none.
pub open spec fn scan(s: Seq<char>, from: int, stop: Stop) -> int
    decreases s.len() - from,
{
    if from < 0 || from >= s.len() {
        s.len() as int
    } else if stops_at(stop, s[from]) {
        from
    } else {
        scan(s, from + 1, stop)
    }
}

/// `scan` returns the least stopping position: nothing before it stops the
/// scan, and it is either the end or a stopping character.
pub proof fn lemma_scan(s: Seq<char>, from: int, stop: Stop)
    requires
        0 <= from <= s.len(),
    ensures
        from <= scan(s, from, stop) <= s.len(),
        forall|i: int| from <= i < scan(s, from, stop) ==> !stops_at(stop, #[trigger] s[i]),
        scan(s, from, stop) < s.len() ==> stops_at(stop, s[scan(s, from, stop)]),
    decreases s.len() - from,
{
    if from < s.len() && !stops_at(stop, s[from]) {
        lemma_scan(s, from + 1, stop);
    }
}

/// A position that nothing before it stops, and that is the end or a stopping
/// character, is the one `scan` returns.
pub proof fn lemma_scan_is(s: Seq<char>, from: int, stop: Stop, at: int)
    requires
        0 <= from <= at <= s.len(),
        forall|i: int| from <= i < at ==> !stops_at(stop, #[trigger] s[i]),
        at < s.len() ==> stops_at(stop, s[at]),
    ensures
        scan(s, from, stop) == at,
    decreases at - from,
{
    if from < at {
        lemma_scan_is(s, from + 1, stop, at);
    }
}

/// The characters of a string, as a vector.
pub fn chars_of(s: &str) -> (v: Vec<char>)
    ensures
        v@ == s@,
{
    let mut v: Vec<char> = Vec::new();
    for c in it: s.chars()
        invariant
            v@ == it.seq().take(it.index() as int),
            it.seq() == s@,
    {
        v.push(c);
    }
    v
}

/// The string made of `v[from..to]`.
pub fn string_of(v: &Vec<char>, from: usize, to: usize) -> (s: String)
    requires
        from <= to <= v.len(),
    ensures
        s@ == v@.subrange(from as int, to as int),
{
    let mut s: String = String::new();
    let mut i: usize = from;
    while i < to
        invariant
            from <= i <= to <= v.len(),
            s@ == v@.subrange(from as int, i as int),
        decreases to - i,
    {
        push_char(&mut s, v[i]);
        i += 1;
    }
    s
}

/// The first position at or after `from` where `v` holds `c`, or the length of `v`.
pub fn find_char(v: &Vec<char>, from: usize, c: char) -> (at: usize)
    requires
        from <= v.len(),
    ensures
        at == scan(v@, from as int, Stop::Char(c)),
        from <= at <= v.len(),
{
    let mut i: usize = from;
    while i < v.len() && v[i] != c
        invariant
            from <= i <= v.len(),
            forall|k: int| from <= k < i ==> !stops_at(Stop::Char(c), #[trigger] v@[k]),
        decreases v.len() - i,
    {
        i += 1;
    }
    proof {
        lemma_scan_is(v@, from as int, Stop::Char(c), i as int);
    }
    i
}

/// Whether two texts hold the same characters.
pub fn same_text(a: &Vec<char>, from: usize, to: usize, b: &str) -> (r: bool)
    requires
        from <= to <= a.len(),
    ensures
        r == (a@.subrange(from as int, to as int) == b@),
{
    let t: String = string_of(a, from, to);
    let u: String = String::from_str(b);
    t == u
}

} // verus!
