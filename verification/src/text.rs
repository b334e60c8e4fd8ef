//! Character classes and small text-building helpers shared by the tokenizer,
//! the renderer and the error messages.
use vstd::prelude::*;

verus! {

/// `String::push` appends the given character at the end of the string.
pub assume_specification[ std::string::String::push ](s: &mut std::string::String, ch: char)
    ensures
        final(s)@ == old(s)@.push(ch),
;

/// `String::push_str` appends the characters of the given slice at the end of
/// the string.
pub assume_specification[ std::string::String::push_str ](
    s: &mut std::string::String,
    string: &str,
)
    ensures
        final(s)@ == old(s)@ + string@,
;

/// Whether a character has the Unicode `Alphabetic` property, as
/// `char::is_alphabetic` reports it.
pub uninterp spec fn unicode_alphabetic(c: char) -> bool;

/// Whether a character has the Unicode `White_Space` property, as
/// `char::is_whitespace` reports it.
pub uninterp spec fn unicode_whitespace(c: char) -> bool;

/// What `format!("{:?}", s)` produces for a string slice: the quoted,
/// escaped form that std's `Debug` gives a `str`.
pub uninterp spec fn debug_text(s: Seq<char>) -> Seq<char>;

/// `char::is_alphabetic` reports the Unicode `Alphabetic` property (named
/// `unicode_alphabetic`). Among the ASCII characters that property holds of
/// the Latin letters `A`-`Z` and `a`-`z` only, and it holds of no character
/// with the `White_Space` property (the Unicode data give `White_Space` to
/// U+0009..U+000D, U+0020, U+0085, U+00A0, U+1680, U+2000..U+200A, U+2028,
/// U+2029, U+202F, U+205F and U+3000, none of them `Alphabetic`).
pub assume_specification[ char::is_alphabetic ](c: char) -> (b: bool)
    ensures
        b == unicode_alphabetic(c),
        (c as u32) < 128 ==> (b <==> (('a' <= c && c <= 'z') || ('A' <= c && c <= 'Z'))),
        unicode_whitespace(c) ==> !b,
;

/// `char::is_whitespace` reports the Unicode `White_Space` property (named
/// `unicode_whitespace`). Among the ASCII characters that property holds of
/// the space and of the controls U+0009 through U+000D only.
pub assume_specification[ char::is_whitespace ](c: char) -> (b: bool)
    ensures
        b == unicode_whitespace(c),
        (c as u32) < 128 ==> (b <==> (c == ' ' || ('\t' <= c && c <= '\r'))),
;

/// `char::from_u32` gives the character with the given code point when the
/// code point is a Unicode scalar value (outside the surrogate range
/// U+D800..=U+DFFF and at most U+10FFFF), and `None` otherwise.
pub assume_specification[ char::from_u32 ](i: u32) -> (c: Option<char>)
    ensures
        c is Some <==> (i < 0xD800 || (0xE000 <= i && i <= 0x10FFFF)),
        c matches Some(ch) ==> ch == i as char,
;

/// The std `Debug` rendering of a string slice (`format!("{:?}", s)`): the
/// result is named `debug_text` of the slice's characters; nothing more is
/// stated of it here.
#[verifier::external_body]
pub(crate) fn debug_quoted(s: &str) -> (r: String)
    ensures
        r@ == debug_text(s@),
{
    format!("{:?}", s)
}

/// Whether `char::is_alphabetic` holds of a character: among the ASCII
/// characters exactly the Latin letters, elsewhere the Unicode `Alphabetic`
/// property, which no `White_Space` character has.
pub open spec fn alphabetic(c: char) -> bool {
    if (c as u32) < 128 {
        ('a' <= c && c <= 'z') || ('A' <= c && c <= 'Z')
    } else {
        unicode_alphabetic(c) && !unicode_whitespace(c)
    }
}

/// Whether `char::is_whitespace` holds of a character: among the ASCII
/// characters exactly the space and U+0009 through U+000D, elsewhere the
/// Unicode `White_Space` property.
pub open spec fn whitespace(c: char) -> bool {
    if (c as u32) < 128 {
        c == ' ' || ('\t' <= c && c <= '\r')
    } else {
        unicode_whitespace(c)
    }
}

/// A decimal digit character.
pub open spec fn is_digit(c: char) -> bool {
    '0' <= c && c <= '9'
}

/// A hexadecimal digit character, in either case.
pub open spec fn is_hex_digit(c: char) -> bool {
    is_digit(c) || ('a' <= c && c <= 'f') || ('A' <= c && c <= 'F')
}

/// The value of a hexadecimal digit character.
pub open spec fn hex_digit_value(c: char) -> nat {
    if is_digit(c) {
        (c as nat - '0' as nat) as nat
    } else if 'a' <= c && c <= 'f' {
        (c as nat - 'a' as nat + 10) as nat
    } else {
        (c as nat - 'A' as nat + 10) as nat
    }
}

/// The character of a decimal digit value `d < 10`.
pub open spec fn digit_char(d: nat) -> char {
    (d + 48) as char
}

/// The decimal representation of a natural number, without leading zeros.
pub open spec fn decimal(n: nat) -> Seq<char>
    decreases n,
{
    if n < 10 {
        seq![digit_char(n)]
    } else {
        decimal(n / 10).push(digit_char(n % 10))
    }
}

/// Whether a character is a decimal digit.
pub fn is_digit_char(c: char) -> (b: bool)
    ensures
        b == is_digit(c),
{
    '0' <= c && c <= '9'
}

/// Whether a character is a hexadecimal digit, in either case.
pub fn is_hex_digit_char(c: char) -> (b: bool)
    ensures
        b == is_hex_digit(c),
{
    ('0' <= c && c <= '9') || ('a' <= c && c <= 'f') || ('A' <= c && c <= 'F')
}

/// The value of a hexadecimal digit.
pub fn hex_value(c: char) -> (v: u32)
    requires
        is_hex_digit(c),
    ensures
        v == hex_digit_value(c),
        v < 16,
{
    if '0' <= c && c <= '9' {
        (c as u32) - ('0' as u32)
    } else if 'a' <= c && c <= 'f' {
        (c as u32) - ('a' as u32) + 10
    } else {
        (c as u32) - ('A' as u32) + 10
    }
}

/// Appends the decimal representation of `n` to `out`.
pub fn push_decimal(out: &mut String, n: usize)
    ensures
        final(out)@ == old(out)@ + decimal(n as nat),
    decreases n,
{
    if n >= 10 {
        push_decimal(out, n / 10);
    }
    let d: u8 = (n % 10) as u8;
    let c: char = (48u8 + d) as char;
    assert(c == digit_char((n % 10) as nat));
    out.push(c);
}

} // verus!
