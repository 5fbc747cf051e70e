//! Operations of std on characters and strings that the library relies on.

use vstd::prelude::*;
use vstd::std_specs::iter::IteratorSpec;

verus! {

/// Whether a character has the Unicode `White_Space` property.
pub uninterp spec fn unicode_white_space(c: char) -> bool;

/// Whether `c` is whitespace: the Unicode `White_Space` property, which in the
/// ASCII range holds exactly for the space and the control characters 9 to 13.
pub open spec fn is_white_space(c: char) -> bool {
    if (c as u32) < 128 {
        c == ' ' || (9 <= (c as u32) && (c as u32) <= 13)
    } else {
        unicode_white_space(c)
    }
}

/// Calls `char::is_whitespace`, which std documents as the Unicode
/// `White_Space` property; in the ASCII range these are the space and the
/// characters U+0009 to U+000D. Outside ASCII the contract only names the
/// property.
#[verifier::external_body]
pub fn char_is_whitespace(c: char) -> (r: bool)
    ensures
        (c as u32) < 128 ==> (r <==> (c == ' ' || (9 <= (c as u32) && (c as u32) <= 13))),
        (c as u32) >= 128 ==> (r <==> unicode_white_space(c)),
{
    c.is_whitespace()
}

/// Calls `String::push`, which appends one character.
#[verifier::external_body]
pub fn string_push(s: &mut String, c: char)
    ensures
        final(s)@ == old(s)@.push(c),
{
    s.push(c)
}

/// Calls `String::push_str`, which appends a string.
#[verifier::external_body]
pub fn string_push_str(s: &mut String, other: &str)
    ensures
        final(s)@ == old(s)@ + other@,
{
    s.push_str(other)
}

/// A copy of a string slice.
pub fn str_to_string(s: &str) -> (r: String)
    ensures
        r@ == s@,
{
    s.to_owned()
}

/// Calls `std::str::from_utf8`, which std documents to succeed exactly when the
/// bytes are valid UTF-8; the characters are then those the bytes encode.
#[verifier::external_body]
pub fn utf8_decode(bytes: &[u8]) -> (r: Option<String>)
    ensures
        r.is_some() <==> vstd::utf8::valid_utf8(bytes@),
        r matches Some(s) ==> s@ == vstd::utf8::decode_utf8(bytes@),
{
    match std::str::from_utf8(bytes) {
        Ok(s) => Some(s.to_string()),
        Err(_) => None,
    }
}

/// The decimal digit characters of a natural number, most significant first.
pub open spec fn decimal(n: nat) -> Seq<char>
    decreases n,
{
    if n < 10 {
        seq![digit_char(n)]
    } else {
        decimal(n / 10).push(digit_char(n % 10))
    }
}

/// The character of a decimal digit.
pub open spec fn digit_char(d: nat) -> char {
    if d == 0 { '0' }
    else if d == 1 { '1' }
    else if d == 2 { '2' }
    else if d == 3 { '3' }
    else if d == 4 { '4' }
    else if d == 5 { '5' }
    else if d == 6 { '6' }
    else if d == 7 { '7' }
    else if d == 8 { '8' }
    else { '9' }
}

/// The characters `0` to `9`.
pub open spec fn is_digit(c: char) -> bool {
    '0' <= c && c <= '9'
}

/// The value of a digit character.
pub open spec fn digit_value(c: char) -> nat {
    ((c as u32) - ('0' as u32)) as nat
}

/// The number that a sequence of digit characters denotes.
pub open spec fn digits_value(s: Seq<char>) -> nat
    decreases s.len(),
{
    if s.len() == 0 {
        0
    } else {
        digits_value(s.drop_last()) * 10 + digit_value(s.last())
    }
}

/// The characters after an optional leading `+`.
pub open spec fn u32_digits(s: Seq<char>) -> Seq<char> {
    if s.len() > 0 && s[0] == '+' { s.drop_first() } else { s }
}

/// What `u32::from_str` accepts: an optional `+` and then at least one ASCII
/// digit, denoting a number that fits in a `u32`.
pub open spec fn parse_u32_spec(s: Seq<char>) -> Option<u32> {
    let digits = u32_digits(s);
    if digits.len() > 0 && (forall|i: int| 0 <= i < digits.len() ==> is_digit(#[trigger] digits[i]))
        && digits_value(digits) <= u32::MAX {
        Some(digits_value(digits) as u32)
    } else {
        None
    }
}

/// What `bool::from_str` accepts: exactly `true` or `false`.
pub open spec fn parse_bool_spec(s: Seq<char>) -> Option<bool> {
    if s == seq!['t', 'r', 'u', 'e'] {
        Some(true)
    } else if s == seq!['f', 'a', 'l', 's', 'e'] {
        Some(false)
    } else {
        None
    }
}

/// Appends the decimal form of `n`, as `u32`'s `Display` writes it.
pub fn push_decimal(out: &mut String, n: u32)
    ensures
        final(out)@ == old(out)@ + decimal(n as nat),
    decreases n,
{
    if n >= 10 {
        push_decimal(out, n / 10);
    }
    let d = n % 10;
    let c = if d == 0 { '0' }
    else if d == 1 { '1' }
    else if d == 2 { '2' }
    else if d == 3 { '3' }
    else if d == 4 { '4' }
    else if d == 5 { '5' }
    else if d == 6 { '6' }
    else if d == 7 { '7' }
    else if d == 8 { '8' }
    else { '9' };
    string_push(out, c);
}

/// The characters of a string, in order.
pub fn chars_of(s: &str) -> (r: Vec<char>)
    ensures
        r@ == s@,
{
    broadcast use vstd::string::axiom_spec_iter, vstd::string::next_postcondition;

    let mut chars = s.chars();
    let mut out: Vec<char> = Vec::new();
    let ghost total = s@;
    loop
        invariant
            chars.obeys_prophetic_iter_laws(),
            total == s@,
            out@ + chars.remaining() == total,
        decreases total.len() - out@.len(),
    {
        match chars.next() {
            Some(c) => {
                proof {
                    assert(out@.push(c) + chars.remaining() =~= total);
                }
                out.push(c);
            },
            None => {
                proof {
                    assert(out@ =~= total);
                }
                return out;
            },
        }
    }
}

/// The number that the digits `ds[..i]` denote.
proof fn lemma_digits_value_push(ds: Seq<char>, i: int)
    requires
        0 <= i < ds.len(),
    ensures
        digits_value(ds.take(i + 1)) == digits_value(ds.take(i)) * 10 + digit_value(ds[i]),
{
    assert(ds.take(i + 1).drop_last() =~= ds.take(i));
}

/// Parses a number as `u32::from_str` does.
pub fn parse_u32(word: &str) -> (r: Option<u32>)
    ensures
        r == parse_u32_spec(word@),
{
    let cs = chars_of(word);
    let n = cs.len();
    let mut i: usize = 0;
    if n > 0 && cs[0] == '+' {
        i = 1;
    }
    let start = i;
    let ghost digits = u32_digits(word@);
    proof {
        assert(digits =~= cs@.subrange(start as int, n as int));
    }
    if start == n {
        return None;
    }
    let mut value: u64 = 0;
    while i < n
        invariant
            start <= i <= n,
            n == cs@.len(),
            cs@ == word@,
            digits == u32_digits(word@),
            digits =~= cs@.subrange(start as int, n as int),
            forall|j: int| start <= j < i ==> is_digit(#[trigger] cs@[j]),
            value == digits_value(digits.take(i - start)),
            value <= u32::MAX,
        decreases n - i,
    {
        let c = cs[i];
        if !('0' <= c && c <= '9') {
            proof {
                assert(digits.len() == n - start);
                assert(digits[i - start] == cs@[i as int]);
                assert(!is_digit(digits[i - start]));
                assert(u32_digits(word@) == digits);
                assert(parse_u32_spec(word@) is None);
            }
            return None;
        }
        let d: u64 = (c as u32 - '0' as u32) as u64;
        proof {
            assert(d <= 9);
            lemma_digits_value_push(digits, i - start);
            assert(digits[i - start] == c);
        }
        if value > (4294967295u64 - d) / 10 {
            proof {
                lemma_digits_prefix_grows(digits, i - start + 1);
                assert(value * 10 + d > u32::MAX) by (nonlinear_arith)
                    requires
                        value > (4294967295u64 - d) / 10,
                        d <= 9;
            }
            return None;
        }
        value = value * 10 + d;
        i = i + 1;
    }
    proof {
        assert(digits.take(i - start) =~= digits);
    }
    Some(value as u32)
}

/// A longer prefix of digits denotes at least as large a number.
proof fn lemma_digits_prefix_grows(ds: Seq<char>, i: int)
    requires
        0 <= i <= ds.len(),
    ensures
        digits_value(ds.take(i)) <= digits_value(ds),
    decreases ds.len() - i,
{
    if i < ds.len() {
        lemma_digits_prefix_grows(ds, i + 1);
        lemma_digits_value_push(ds, i);
    } else {
        assert(ds.take(i) =~= ds);
    }
}

/// Parses a boolean as `bool::from_str` does.
pub fn parse_bool(word: &str) -> (r: Option<bool>)
    ensures
        r == parse_bool_spec(word@),
{
    let cs = chars_of(word);
    if cs.len() == 4 && cs[0] == 't' && cs[1] == 'r' && cs[2] == 'u' && cs[3] == 'e' {
        proof {
            assert(cs@ =~= seq!['t', 'r', 'u', 'e']);
        }
        Some(true)
    } else if cs.len() == 5 && cs[0] == 'f' && cs[1] == 'a' && cs[2] == 'l' && cs[3] == 's'
        && cs[4] == 'e' {
        proof {
            assert(cs@ =~= seq!['f', 'a', 'l', 's', 'e']);
        }
        Some(false)
    } else {
        proof {
            if cs@ == seq!['t', 'r', 'u', 'e'] {
                assert(cs@[0] == 't');
            }
            if cs@ == seq!['f', 'a', 'l', 's', 'e'] {
                assert(cs@[0] == 'f');
            }
        }
        None
    }
}

} // verus!
