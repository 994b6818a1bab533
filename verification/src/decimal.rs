//! Signed 32-bit integers as decimal text, and back.

use vstd::prelude::*;
use crate::text::{chars_of, push_char};

verus! {

pub open spec fn is_digit(c: char) -> bool {
    '0' <= c && c <= '9'
}

/// The character for a digit from 0 to 9.
pub open spec fn digit_char(d: int) -> char {
    (d + 48) as char
}

/// The digit that a character from `0` to `9` stands for.
pub open spec fn digit_value(c: char) -> int {
    c as int - 48
}

/// The decimal digits of `n`, most significant first, without leading zeros.
pub open spec fn decimal_digits(n: nat) -> Seq<char>
    decreases n,
{
    if n < 10 {
        seq![digit_char(n as int)]
    } else {
        decimal_digits(n / 10).push(digit_char((n % 10) as int))
    }
}

/// The decimal text of an integer: its digits, behind a `-` if it is negative.
pub open spec fn decimal_text(i: int) -> Seq<char> {
    if i < 0 {
        seq!['-'] + decimal_digits((-i) as nat)
    } else {
        decimal_digits(i as nat)
    }
}

pub open spec fn all_digits(s: Seq<char>) -> bool {
    forall|i: int| 0 <= i < s.len() ==> is_digit(#[trigger] s[i])
}

/// The number that a row of digits denotes; leading zeros are allowed.
pub open spec fn digits_value(s: Seq<char>) -> int
    decreases s.len(),
{
    if s.len() == 0 {
        0
    } else {
        digits_value(s.drop_last()) * 10 + digit_value(s.last())
    }
}

/// Whether a text begins with a sign.
pub open spec fn signed(s: Seq<char>) -> bool {
    s.len() > 0 && (s[0] == '-' || s[0] == '+')
}

/// The number that a text denotes, if it is an optional `+` or `-`, then at
/// least one digit and nothing else, and the number fits in 32 bits.
pub open spec fn parse_decimal(s: Seq<char>) -> Option<i32> {
    let digits = if signed(s) { s.skip(1) } else { s };
    let magnitude = digits_value(digits);
    let value = if signed(s) && s[0] == '-' { -magnitude } else { magnitude };
    if digits.len() > 0 && all_digits(digits) && i32::MIN <= value <= i32::MAX {
        Some(value as i32)
    } else {
        None
    }
}

/// The digits of a number are digits, and denote that number.
pub proof fn lemma_decimal_digits(n: nat)
    ensures
        decimal_digits(n).len() > 0,
        all_digits(decimal_digits(n)),
        digits_value(decimal_digits(n)) == n,
    decreases n,
{
    reveal_with_fuel(digits_value, 2);
    if n < 10 {
        assert(decimal_digits(n).drop_last() =~= Seq::<char>::empty());
    } else {
        lemma_decimal_digits(n / 10);
        assert(decimal_digits(n).drop_last() =~= decimal_digits(n / 10));
    }
}

/// A row of digits denotes no negative number, and no less than any of its
/// beginnings.
pub proof fn lemma_digits_value_grows(s: Seq<char>, k: int)
    requires
        all_digits(s),
        0 <= k <= s.len(),
    ensures
        0 <= digits_value(s.take(k)) <= digits_value(s),
    decreases s.len(),
{
    if s.len() == 0 {
        assert(s.take(k) =~= s);
    } else if k == s.len() {
        assert(s.take(k) =~= s);
        lemma_digits_value_grows(s.drop_last(), k - 1);
    } else {
        lemma_digits_value_grows(s.drop_last(), k);
        assert(s.drop_last().take(k) =~= s.take(k));
    }
}

/// Reading the decimal text of a 32-bit integer gives the integer back.
pub proof fn lemma_parse_decimal_text(i: i32)
    ensures
        parse_decimal(decimal_text(i as int)) == Some(i),
{
    let t = decimal_text(i as int);
    if i < 0 {
        let d = decimal_digits((-i) as nat);
        lemma_decimal_digits((-i) as nat);
        assert(t.skip(1) =~= d);
    } else {
        lemma_decimal_digits(i as nat);
        assert(is_digit(t[0]));
    }
}

/// The decimal text of an integer holds digits and `-` only.
pub proof fn lemma_decimal_text_chars(i: int)
    ensures
        decimal_text(i).len() > 0,
        forall|k: int|
            0 <= k < decimal_text(i).len() ==> is_digit(#[trigger] decimal_text(i)[k])
                || decimal_text(i)[k] == '-',
{
    if i < 0 {
        lemma_decimal_digits((-i) as nat);
    } else {
        lemma_decimal_digits(i as nat);
    }
}

fn push_digits(s: &mut String, n: u32)
    ensures
        final(s)@ == old(s)@ + decimal_digits(n as nat),
    decreases n,
{
    if n >= 10 {
        push_digits(s, n / 10);
    }
    let d: u8 = (n % 10) as u8;
    push_char(s, (48u8 + d) as char);
}

/// Writes an integer in decimal.
pub fn int_to_string(v: i32) -> (s: String)
    ensures
        s@ == decimal_text(v as int),
{
    let mut s: String = String::new();
    if v < 0 {
        push_char(&mut s, '-');
        let m: u32 = (-(v as i64)) as u32;
        push_digits(&mut s, m);
    } else {
        push_digits(&mut s, v as u32);
    }
    s
}

/// Reads the integer written in `v[from..to]`.
pub fn parse_int(v: &Vec<char>, from: usize, to: usize) -> (r: Option<i32>)
    requires
        from <= to <= v.len(),
    ensures
        r == parse_decimal(v@.subrange(from as int, to as int)),
{
    let ghost s = v@.subrange(from as int, to as int);
    let has_sign: bool = from < to && (v[from] == '-' || v[from] == '+');
    let negative: bool = has_sign && v[from] == '-';
    let start: usize = if has_sign { from + 1 } else { from };
    let ghost digits = if signed(s) { s.skip(1) } else { s };
    assert(digits =~= v@.subrange(start as int, to as int));
    if start == to {
        return None;
    }
    let mut acc: i64 = 0;
    let mut i: usize = start;
    while i < to
        invariant
            from <= start <= i <= to <= v.len(),
            start < to,
            s == v@.subrange(from as int, to as int),
            digits == (if signed(s) { s.skip(1) } else { s }),
            digits == v@.subrange(start as int, to as int),
            all_digits(digits.take(i - start)),
            acc == digits_value(digits.take(i - start)),
            0 <= acc <= 2147483648,
        decreases to - i,
    {
        let c: char = v[i];
        if !(c >= '0' && c <= '9') {
            assert(!is_digit(digits[i - start]));
            return None;
        }
        let d: i64 = (c as u32 - 48) as i64;
        acc = acc * 10 + d;
        proof {
            let next = digits.take(i - start + 1);
            assert(next.drop_last() =~= digits.take(i - start));
            assert(next.last() == c);
            assert forall|k: int| 0 <= k < next.len() implies is_digit(#[trigger] next[k]) by {
                if k < i - start {
                    assert(next[k] == digits.take(i - start)[k]);
                }
            }
        }
        if acc > 2147483648 {
            proof {
                if all_digits(digits) {
                    lemma_digits_value_grows(digits, i - start + 1);
                }
            }
            return None;
        }
        i += 1;
    }
    assert(digits.take(to - start) =~= digits);
    if negative {
        Some((-acc) as i32)
    } else if acc <= 2147483647 {
        Some(acc as i32)
    } else {
        None
    }
}

/// Reads the integer written in `s`.
pub fn parse_int_str(s: &str) -> (r: Option<i32>)
    ensures
        r == parse_decimal(s@),
{
    let v: Vec<char> = chars_of(s);
    assert(v@.subrange(0, v.len() as int) =~= v@);
    parse_int(&v, 0, v.len())
}

} // verus!
