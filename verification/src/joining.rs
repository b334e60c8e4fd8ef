//! Tokenizing texts joined by a space: the tokens of the whole are the
//! tokens of the parts.
use vstd::prelude::*;
use crate::number::is_number_char;
use crate::text::{alphabetic, whitespace};
use crate::tokenizer::{
    lemma_lex_string_bounds, lemma_number_end, lemma_word_end, lex_escape, lex_from, lex_string,
    number_end, scan_hex, tokenize_text, word_end, TokenModel,
};

verus! {

/// Reading a number in `y` from a position inside it gives the same end in
/// `y + z` when `y` ends with a character that stands in no number.
proof fn lemma_number_end_prefix(y: Seq<char>, z: Seq<char>, p: int)
    requires
        0 <= p < y.len(),
        !is_number_char(y.last()),
    ensures
        number_end(y + z, p) == number_end(y, p),
    decreases y.len() - p,
{
    assert((y + z)[p] == y[p]);
    if is_number_char(y[p]) {
        lemma_number_end_prefix(y, z, p + 1);
    }
}

/// Reading a word in `y` from a position inside it gives the same end in
/// `y + z` when `y` ends with a character that is not alphabetic.
proof fn lemma_word_end_prefix(y: Seq<char>, z: Seq<char>, p: int)
    requires
        0 <= p < y.len(),
        !alphabetic(y.last()),
    ensures
        word_end(y + z, p) == word_end(y, p),
    decreases y.len() - p,
{
    assert((y + z)[p] == y[p]);
    if alphabetic(y[p]) {
        lemma_word_end_prefix(y, z, p + 1);
    }
}

/// Hex digits that are all found inside `y` are found alike in `y + z`.
proof fn lemma_scan_hex_prefix(y: Seq<char>, z: Seq<char>, r: int, hex: Seq<char>)
    requires
        0 <= r,
        hex.len() <= 4,
        scan_hex(y, r, hex).0.len() == 4,
    ensures
        scan_hex(y + z, r, hex) == scan_hex(y, r, hex),
    decreases y.len() - r,
{
    if hex.len() <= 3 && r < y.len() {
        assert((y + z)[r] == y[r]);
        let next = if crate::text::is_hex_digit(y[r]) {
            hex.push(y[r])
        } else {
            hex
        };
        lemma_scan_hex_prefix(y, z, r + 1, next);
    }
}

/// An escape that decodes inside `y` decodes alike in `y + z`.
proof fn lemma_lex_escape_prefix(y: Seq<char>, z: Seq<char>, p: int)
    requires
        0 <= p,
        lex_escape(y, p).0 is Ok,
    ensures
        lex_escape(y + z, p) == lex_escape(y, p),
{
    assert((y + z)[p + 1] == y[p + 1]);
    if y[p + 1] == 'u' {
        crate::tokenizer::lemma_scan_hex_bounds(y, p + 2, seq![]);
        lemma_scan_hex_prefix(y, z, p + 2, seq![]);
    }
}

/// A string that closes inside `y` reads alike in `y + z`.
proof fn lemma_lex_string_prefix(y: Seq<char>, z: Seq<char>, p: int, acc: Seq<char>)
    requires
        0 <= p < y.len(),
        lex_string(y, p, acc).0 is Ok,
    ensures
        lex_string(y + z, p, acc) == lex_string(y, p, acc),
    decreases y.len() - p,
{
    let x = y + z;
    assert(x[p] == y[p]);
    if y[p] == '"' {
    } else if y[p] == '\\' {
        lemma_lex_escape_prefix(y, z, p);
        let (r, q) = lex_escape(y, p);
        crate::tokenizer::lemma_lex_escape_advances(y, p);
        lemma_lex_string_prefix(y, z, q, acc + r->Ok_0);
    } else {
        lemma_lex_string_prefix(y, z, p + 1, acc.push(y[p]));
    }
}

/// Where `y` ends with a space and reads from `p` to its end without error,
/// `y + z` reads alike up to the end of `y` and goes on from there with the
/// tokens of `y`.
proof fn lemma_lex_from_prefix(y: Seq<char>, z: Seq<char>, p: int, acc: Seq<TokenModel>)
    requires
        0 <= p <= y.len(),
        y.len() > 0,
        y.last() == ' ',
        lex_from(y, p, acc).0 is Ok,
    ensures
        lex_from(y + z, p, acc) == lex_from(y + z, y.len() as int, lex_from(y, p, acc).0->Ok_0),
    decreases y.len() - p,
{
    let x = y + z;
    if p < y.len() {
        let c = y[p];
        assert(x[p] == c);
        if c == '{' {
            lemma_lex_from_prefix(y, z, p + 1, acc.push(TokenModel::LeftBrace));
        } else if c == '}' {
            lemma_lex_from_prefix(y, z, p + 1, acc.push(TokenModel::RightBrace));
        } else if c == '[' {
            lemma_lex_from_prefix(y, z, p + 1, acc.push(TokenModel::LeftBracket));
        } else if c == ']' {
            lemma_lex_from_prefix(y, z, p + 1, acc.push(TokenModel::RightBracket));
        } else if c == ',' {
            lemma_lex_from_prefix(y, z, p + 1, acc.push(TokenModel::Comma));
        } else if c == ':' {
            lemma_lex_from_prefix(y, z, p + 1, acc.push(TokenModel::Colon));
        } else if c == '"' {
            lemma_lex_string_prefix(y, z, p + 1, seq![]);
            lemma_lex_string_bounds(y, p + 1, seq![]);
            let (r, q) = lex_string(y, p + 1, seq![]);
            lemma_lex_from_prefix(y, z, q, acc.push(TokenModel::String(r->Ok_0)));
        } else if crate::text::is_digit(c) || c == '-' {
            lemma_number_end_prefix(y, z, p);
            lemma_number_end(y, p);
            let q = number_end(y, p);
            assert(x.subrange(p, q) =~= y.subrange(p, q));
            let text = y.subrange(p, q);
            lemma_lex_from_prefix(
                y,
                z,
                q,
                acc.push(TokenModel::Number(crate::number::canonical_number(text))),
            );
        } else if alphabetic(c) {
            lemma_word_end_prefix(y, z, p);
            lemma_word_end(y, p);
            let q = word_end(y, p);
            assert(x.subrange(p, q) =~= y.subrange(p, q));
            lemma_lex_from_prefix(
                y,
                z,
                q,
                acc.push(crate::tokenizer::keyword_token(y.subrange(p, q))->Some_0),
            );
        } else if whitespace(c) {
            lemma_lex_from_prefix(y, z, p + 1, acc);
        }
    }
}

proof fn lemma_number_end_shift(w: Seq<char>, b: Seq<char>, p: int)
    requires
        0 <= p,
    ensures
        number_end(w + b, w.len() + p) == w.len() + number_end(b, p),
    decreases b.len() - p,
{
    if p < b.len() {
        assert((w + b)[w.len() + p] == b[p]);
        if is_number_char(b[p]) {
            lemma_number_end_shift(w, b, p + 1);
        }
    }
}

proof fn lemma_word_end_shift(w: Seq<char>, b: Seq<char>, p: int)
    requires
        0 <= p,
    ensures
        word_end(w + b, w.len() + p) == w.len() + word_end(b, p),
    decreases b.len() - p,
{
    if p < b.len() {
        assert((w + b)[w.len() + p] == b[p]);
        if alphabetic(b[p]) {
            lemma_word_end_shift(w, b, p + 1);
        }
    }
}

proof fn lemma_scan_hex_shift(w: Seq<char>, b: Seq<char>, r: int, hex: Seq<char>)
    requires
        0 <= r,
    ensures
        scan_hex(w + b, w.len() + r, hex) == (scan_hex(b, r, hex).0, w.len() + scan_hex(
            b,
            r,
            hex,
        ).1),
    decreases b.len() - r,
{
    if r < b.len() && hex.len() <= 3 {
        assert((w + b)[w.len() + r] == b[r]);
        let next = if crate::text::is_hex_digit(b[r]) {
            hex.push(b[r])
        } else {
            hex
        };
        lemma_scan_hex_shift(w, b, r + 1, next);
    }
}

proof fn lemma_lex_escape_shift(w: Seq<char>, b: Seq<char>, p: int)
    requires
        0 <= p,
        lex_escape(b, p).0 is Ok,
    ensures
        lex_escape(w + b, w.len() + p) == (lex_escape(b, p).0, w.len() + lex_escape(b, p).1),
{
    assert((w + b)[w.len() + p + 1] == b[p + 1]);
    lemma_scan_hex_shift(w, b, p + 2, seq![]);
}

proof fn lemma_lex_string_shift(w: Seq<char>, b: Seq<char>, p: int, acc: Seq<char>)
    requires
        0 <= p,
        lex_string(b, p, acc).0 is Ok,
    ensures
        lex_string(w + b, w.len() + p, acc) == (lex_string(b, p, acc).0, w.len() + lex_string(
            b,
            p,
            acc,
        ).1),
    decreases b.len() - p,
{
    if p < b.len() {
        assert((w + b)[w.len() + p] == b[p]);
        if b[p] == '"' {
        } else if b[p] == '\\' {
            lemma_lex_escape_shift(w, b, p);
            crate::tokenizer::lemma_lex_escape_advances(b, p);
            let (r, q) = lex_escape(b, p);
            lemma_lex_string_shift(w, b, q, acc + r->Ok_0);
        } else {
            lemma_lex_string_shift(w, b, p + 1, acc.push(b[p]));
        }
    }
}

proof fn lemma_lex_from_shift(w: Seq<char>, b: Seq<char>, p: int, acc: Seq<TokenModel>)
    requires
        0 <= p,
        lex_from(b, p, acc).0 is Ok,
    ensures
        lex_from(w + b, w.len() + p, acc) == (lex_from(b, p, acc).0, w.len() + lex_from(
            b,
            p,
            acc,
        ).1),
    decreases b.len() - p,
{
    let x = w + b;
    let o = w.len() as int;
    if p < b.len() {
        let c = b[p];
        assert(x[o + p] == c);
        if c == '{' {
            lemma_lex_from_shift(w, b, p + 1, acc.push(TokenModel::LeftBrace));
        } else if c == '}' {
            lemma_lex_from_shift(w, b, p + 1, acc.push(TokenModel::RightBrace));
        } else if c == '[' {
            lemma_lex_from_shift(w, b, p + 1, acc.push(TokenModel::LeftBracket));
        } else if c == ']' {
            lemma_lex_from_shift(w, b, p + 1, acc.push(TokenModel::RightBracket));
        } else if c == ',' {
            lemma_lex_from_shift(w, b, p + 1, acc.push(TokenModel::Comma));
        } else if c == ':' {
            lemma_lex_from_shift(w, b, p + 1, acc.push(TokenModel::Colon));
        } else if c == '"' {
            lemma_lex_string_shift(w, b, p + 1, seq![]);
            lemma_lex_string_bounds(b, p + 1, seq![]);
            let (r, q) = lex_string(b, p + 1, seq![]);
            lemma_lex_from_shift(w, b, q, acc.push(TokenModel::String(r->Ok_0)));
        } else if crate::text::is_digit(c) || c == '-' {
            lemma_number_end_shift(w, b, p);
            lemma_number_end(b, p);
            let q = number_end(b, p);
            assert(x.subrange(o + p, o + q) =~= b.subrange(p, q));
            lemma_lex_from_shift(
                w,
                b,
                q,
                acc.push(TokenModel::Number(crate::number::canonical_number(b.subrange(p, q)))),
            );
        } else if alphabetic(c) {
            lemma_word_end_shift(w, b, p);
            lemma_word_end(b, p);
            let q = word_end(b, p);
            assert(x.subrange(o + p, o + q) =~= b.subrange(p, q));
            lemma_lex_from_shift(
                w,
                b,
                q,
                acc.push(crate::tokenizer::keyword_token(b.subrange(p, q))->Some_0),
            );
        } else if whitespace(c) {
            lemma_lex_from_shift(w, b, p + 1, acc);
        }
    }
}

/// Tokens collected before a reading come first in its result.
proof fn lemma_lex_from_acc(b: Seq<char>, p: int, pre: Seq<TokenModel>, acc: Seq<TokenModel>)
    requires
        0 <= p,
        lex_from(b, p, acc).0 is Ok,
    ensures
        lex_from(b, p, pre + acc).0 == Ok::<Seq<TokenModel>, crate::error::ErrorModel>(
            pre + lex_from(b, p, acc).0->Ok_0,
        ),
    decreases b.len() - p,
{
    if p < b.len() {
        let c = b[p];
        let t = if c == '{' {
            Some(TokenModel::LeftBrace)
        } else if c == '}' {
            Some(TokenModel::RightBrace)
        } else if c == '[' {
            Some(TokenModel::LeftBracket)
        } else if c == ']' {
            Some(TokenModel::RightBracket)
        } else if c == ',' {
            Some(TokenModel::Comma)
        } else if c == ':' {
            Some(TokenModel::Colon)
        } else {
            None
        };
        if t is Some {
            assert((pre + acc).push(t->Some_0) =~= pre + acc.push(t->Some_0));
            lemma_lex_from_acc(b, p + 1, pre, acc.push(t->Some_0));
        } else if c == '"' {
            lemma_lex_string_bounds(b, p + 1, seq![]);
            let (r, q) = lex_string(b, p + 1, seq![]);
            let tok = TokenModel::String(r->Ok_0);
            assert((pre + acc).push(tok) =~= pre + acc.push(tok));
            lemma_lex_from_acc(b, q, pre, acc.push(tok));
        } else if crate::text::is_digit(c) || c == '-' {
            lemma_number_end(b, p);
            let q = number_end(b, p);
            let tok = TokenModel::Number(crate::number::canonical_number(b.subrange(p, q)));
            assert((pre + acc).push(tok) =~= pre + acc.push(tok));
            lemma_lex_from_acc(b, q, pre, acc.push(tok));
        } else if alphabetic(c) {
            lemma_word_end(b, p);
            let q = word_end(b, p);
            let tok = crate::tokenizer::keyword_token(b.subrange(p, q))->Some_0;
            assert((pre + acc).push(tok) =~= pre + acc.push(tok));
            lemma_lex_from_acc(b, q, pre, acc.push(tok));
        } else if whitespace(c) {
            lemma_lex_from_acc(b, p + 1, pre, acc);
        }
    }
}

/// Texts joined by a space read as the tokens of the first followed by the
/// tokens of the second, where the first still reads with a space after it:
/// by [`law_trailing_space`] that leaves out exactly the texts that end with
/// the opening quote of a string.
pub proof fn law_tokenize_joined(a: Seq<char>, b: Seq<char>)
    requires
        tokenize_text(a) is Ok,
        tokenize_text(b) is Ok,
        tokenize_text(a + seq![' ']) is Ok,
    ensures
        tokenize_text(a + seq![' '] + b) == Ok::<Seq<TokenModel>, crate::error::ErrorModel>(
            tokenize_text(a)->Ok_0 + tokenize_text(b)->Ok_0,
        ),
{
    let y = a + seq![' '];
    lemma_lex_from_space(a, 0, seq![]);
    let ta = tokenize_text(y)->Ok_0;
    assert(y.last() == ' ');
    lemma_lex_from_prefix(y, b, 0, seq![]);
    lemma_lex_from_acc(b, 0, ta, seq![]);
    assert(ta + Seq::<TokenModel>::empty() =~= ta);
    lemma_lex_from_shift(y, b, 0, ta);
}

proof fn lemma_number_end_space(a: Seq<char>, p: int)
    requires
        0 <= p <= a.len(),
    ensures
        number_end(a + seq![' '], p) == number_end(a, p),
    decreases a.len() - p,
{
    let y = a + seq![' '];
    if p < a.len() {
        assert(y[p] == a[p]);
        if is_number_char(a[p]) {
            lemma_number_end_space(a, p + 1);
        }
    } else {
        assert(y[p] == ' ');
    }
}

proof fn lemma_word_end_space(a: Seq<char>, p: int)
    requires
        0 <= p <= a.len(),
    ensures
        word_end(a + seq![' '], p) == word_end(a, p),
    decreases a.len() - p,
{
    let y = a + seq![' '];
    if p < a.len() {
        assert(y[p] == a[p]);
        if alphabetic(a[p]) {
            lemma_word_end_space(a, p + 1);
        }
    } else {
        assert(y[p] == ' ');
    }
}

/// Reading `a` with a space after it gives what reading `a` gives, unless
/// `a` ends with a string's opening quote, where the space makes it fail.
proof fn lemma_lex_from_space(a: Seq<char>, p: int, acc: Seq<TokenModel>)
    requires
        0 <= p <= a.len(),
        lex_from(a, p, acc).0 is Ok,
    ensures
        lex_from(a + seq![' '], p, acc).0 == lex_from(a, p, acc).0 || (lex_from(
            a + seq![' '],
            p,
            acc,
        ).0 is Err && a.len() > 0 && a.last() == '"'),
    decreases a.len() - p,
{
    let y = a + seq![' '];
    if p == a.len() {
        assert(y[p] == ' ');
        assert(lex_from(y, p + 1, acc).0 == lex_from(a, p, acc).0);
        assert(!alphabetic(' ') && whitespace(' '));
    } else {
        let c = a[p];
        assert(y[p] == c);
        if c == '{' {
            lemma_lex_from_space(a, p + 1, acc.push(TokenModel::LeftBrace));
        } else if c == '}' {
            lemma_lex_from_space(a, p + 1, acc.push(TokenModel::RightBrace));
        } else if c == '[' {
            lemma_lex_from_space(a, p + 1, acc.push(TokenModel::LeftBracket));
        } else if c == ']' {
            lemma_lex_from_space(a, p + 1, acc.push(TokenModel::RightBracket));
        } else if c == ',' {
            lemma_lex_from_space(a, p + 1, acc.push(TokenModel::Comma));
        } else if c == ':' {
            lemma_lex_from_space(a, p + 1, acc.push(TokenModel::Colon));
        } else if c == '"' {
            if p + 1 == a.len() {
                assert(y[p + 1] == ' ');
                assert(lex_string(y, p + 1, seq![]).0 is Err);
            } else {
                lemma_lex_string_prefix(a, seq![' '], p + 1, seq![]);
                lemma_lex_string_bounds(a, p + 1, seq![]);
                let (r, q) = lex_string(a, p + 1, seq![]);
                lemma_lex_from_space(a, q, acc.push(TokenModel::String(r->Ok_0)));
            }
        } else if crate::text::is_digit(c) || c == '-' {
            lemma_number_end_space(a, p);
            lemma_number_end(a, p);
            let q = number_end(a, p);
            assert(y.subrange(p, q) =~= a.subrange(p, q));
            lemma_lex_from_space(
                a,
                q,
                acc.push(TokenModel::Number(crate::number::canonical_number(a.subrange(p, q)))),
            );
        } else if alphabetic(c) {
            lemma_word_end_space(a, p);
            lemma_word_end(a, p);
            let q = word_end(a, p);
            assert(y.subrange(p, q) =~= a.subrange(p, q));
            lemma_lex_from_space(
                a,
                q,
                acc.push(crate::tokenizer::keyword_token(a.subrange(p, q))->Some_0),
            );
        } else if whitespace(c) {
            lemma_lex_from_space(a, p + 1, acc);
        }
    }
}

/// A space after a text that reads leaves its tokens as they are, except
/// after a text that ends with the opening quote of a string (a lone `"`
/// reads as an empty string, `"` and a space do not read).
pub proof fn law_trailing_space(a: Seq<char>)
    requires
        tokenize_text(a) is Ok,
    ensures
        tokenize_text(a + seq![' ']) == tokenize_text(a) || (tokenize_text(a + seq![' ']) is Err
            && a.last() == '"'),
{
    lemma_lex_from_space(a, 0, seq![]);
}

} // verus!
