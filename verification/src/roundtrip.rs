//! What reading gives back of writing: the compact text of a value tokenizes
//! into the value's tokens, and those tokens parse back into the value.
use vstd::prelude::*;
use crate::number::{is_number_char, number_text};
use crate::text::{alphabetic, whitespace};
use crate::tokenizer::{
    keyword_token, lex_escape, lex_from, lex_string, number_end, simple_escape, tokenize_text,
    word_end, TokenModel,
};
use crate::value::{
    bool_text, distinct_keys, entries_insert, entry_keys, escape_char, escape_text,
    lemma_first_index, null_text, pretty, pretty_entries, pretty_entry, pretty_items, quoted,
    render, render_entries, render_entry, render_items, spaces, value_equiv, law_array_equality,
    law_object_equality, ValueModel,
};
use crate::parser::{
    missing_comma, parse_array_at, parse_member_value, parse_object_at,
    parse_value_at, trailing_comma_ok,
};

verus! {

/// The tokens of the compact text of a value.
pub open spec fn value_tokens(v: ValueModel) -> Seq<TokenModel>
    decreases v, 0int,
{
    match v {
        ValueModel::Null => seq![TokenModel::Null],
        ValueModel::Boolean(b) => seq![TokenModel::Boolean(b)],
        ValueModel::Number(n) => seq![TokenModel::Number(n)],
        ValueModel::String(s) => seq![TokenModel::String(s)],
        ValueModel::Array(items) => seq![TokenModel::LeftBracket] + items_tokens(
            items,
            items.len() as int,
        ) + seq![TokenModel::RightBracket],
        ValueModel::Object(entries) => seq![TokenModel::LeftBrace] + entries_tokens(
            entries,
            entries.len() as int,
        ) + seq![TokenModel::RightBrace],
    }
}

/// The tokens of the first `k` items of an array, separated by commas.
pub open spec fn items_tokens(items: Seq<ValueModel>, k: int) -> Seq<TokenModel>
    decreases items, k,
{
    if k <= 0 || k > items.len() {
        seq![]
    } else {
        items_tokens(items, k - 1) + (if k > 1 {
            seq![TokenModel::Comma]
        } else {
            seq![]
        }) + value_tokens(items[k - 1])
    }
}

/// The tokens of one object entry: the key, a colon, the value.
pub open spec fn entry_tokens(e: (Seq<char>, ValueModel)) -> Seq<TokenModel>
    decreases e, 0int,
{
    seq![TokenModel::String(e.0), TokenModel::Colon] + value_tokens(e.1)
}

/// The tokens of the first `k` entries of an object, separated by commas.
pub open spec fn entries_tokens(entries: Seq<(Seq<char>, ValueModel)>, k: int) -> Seq<TokenModel>
    decreases entries, k,
{
    if k <= 0 || k > entries.len() {
        seq![]
    } else {
        entries_tokens(entries, k - 1) + (if k > 1 {
            seq![TokenModel::Comma]
        } else {
            seq![]
        }) + entry_tokens(entries[k - 1])
    }
}

/// A value that a JSON value can have: its numbers are number texts and the
/// keys of each object are distinct.
pub open spec fn model_wf(v: ValueModel) -> bool
    decreases v, 0int,
{
    match v {
        ValueModel::Number(n) => number_text(n),
        ValueModel::Array(items) => items_wf(items, items.len() as int),
        ValueModel::Object(entries) => distinct_keys(entry_keys(entries)) && entries_wf(
            entries,
            entries.len() as int,
        ),
        _ => true,
    }
}

pub open spec fn items_wf(items: Seq<ValueModel>, k: int) -> bool
    decreases items, k,
{
    if k <= 0 || k > items.len() {
        true
    } else {
        items_wf(items, k - 1) && model_wf(items[k - 1])
    }
}

pub open spec fn entry_wf(e: (Seq<char>, ValueModel)) -> bool
    decreases e, 0int,
{
    model_wf(e.1)
}

pub open spec fn entries_wf(entries: Seq<(Seq<char>, ValueModel)>, k: int) -> bool
    decreases entries, k,
{
    if k <= 0 || k > entries.len() {
        true
    } else {
        entries_wf(entries, k - 1) && entry_wf(entries[k - 1])
    }
}

/// `r` stands in `s` from position `p` on.
pub open spec fn occurs_at<T>(s: Seq<T>, p: int, r: Seq<T>) -> bool {
    0 <= p && p + r.len() <= s.len() && s.subrange(p, p + r.len()) == r
}

pub proof fn lemma_occurs_split<T>(s: Seq<T>, p: int, a: Seq<T>, b: Seq<T>)
    requires
        occurs_at(s, p, a + b),
    ensures
        occurs_at(s, p, a),
        occurs_at(s, p + a.len(), b),
{
    let w = s.subrange(p, p + (a + b).len());
    assert(w == a + b);
    assert forall|i: int| 0 <= i < a.len() implies #[trigger] s.subrange(p, p + a.len())[i] == a[i] by {
        assert(w[i] == s[p + i]);
        assert((a + b)[i] == a[i]);
    }
    assert(s.subrange(p, p + a.len()) =~= a);
    assert forall|i: int| 0 <= i < b.len() implies #[trigger] s.subrange(p + a.len(), p + a.len() + b.len())[i] == b[i] by {
        assert(w[a.len() + i] == s[p + a.len() + i]);
        assert((a + b)[a.len() + i] == b[i]);
    }
    assert(s.subrange(p + a.len(), p + a.len() + b.len()) =~= b);
}

pub proof fn lemma_occurs_index<T>(s: Seq<T>, p: int, r: Seq<T>, i: int)
    requires
        occurs_at(s, p, r),
        0 <= i < r.len(),
    ensures
        s[p + i] == r[i],
{
    assert(s.subrange(p, p + r.len())[i] == s[p + i]);
}

/// Where a token of the compact text may end: at the end of the input or
/// before a character that neither continues a number nor a keyword.
pub open spec fn lex_boundary(s: Seq<char>, q: int) -> bool {
    q >= s.len() || (0 <= q && !is_number_char(s[q]) && !alphabetic(s[q]))
}

proof fn lemma_number_end_exact(s: Seq<char>, p: int, q: int)
    requires
        0 <= p <= q <= s.len(),
        forall|k: int| p <= k < q ==> is_number_char(#[trigger] s[k]),
        q == s.len() || !is_number_char(s[q]),
    ensures
        number_end(s, p) == q,
    decreases q - p,
{
    if p < q {
        lemma_number_end_exact(s, p + 1, q);
    }
}

proof fn lemma_word_end_exact(s: Seq<char>, p: int, q: int)
    requires
        0 <= p <= q <= s.len(),
        forall|k: int| p <= k < q ==> alphabetic(#[trigger] s[k]),
        q == s.len() || !alphabetic(s[q]),
    ensures
        word_end(s, p) == q,
    decreases q - p,
{
    if p < q {
        lemma_word_end_exact(s, p + 1, q);
    }
}

/// Escaping distributes over concatenation.
pub proof fn lemma_escape_concat(a: Seq<char>, b: Seq<char>)
    ensures
        escape_text(a + b) == escape_text(a) + escape_text(b),
    decreases b.len(),
{
    if b.len() == 0 {
        assert(a + b =~= a);
    } else {
        lemma_escape_concat(a, b.drop_last());
        assert((a + b).drop_last() =~= a + b.drop_last());
    }
}

proof fn lemma_escape_front(x: Seq<char>)
    requires
        x.len() > 0,
    ensures
        escape_text(x) == escape_char(x[0]) + escape_text(x.drop_first()),
{
    lemma_escape_concat(seq![x[0]], x.drop_first());
    assert(seq![x[0]] + x.drop_first() =~= x);
    assert(seq![x[0]].drop_last() =~= Seq::<char>::empty());
    assert(escape_text(Seq::<char>::empty()) == Seq::<char>::empty());
    assert(escape_text(seq![x[0]]) =~= escape_char(x[0]));
}

/// Reading an escaped text followed by a quote gives back the text.
proof fn lemma_lex_string_escaped(s: Seq<char>, p: int, acc: Seq<char>, x: Seq<char>)
    requires
        occurs_at(s, p, escape_text(x) + seq!['"']),
    ensures
        lex_string(s, p, acc) == (
            Ok::<Seq<char>, crate::error::ErrorModel>(acc + x),
            p + escape_text(x).len() + 1,
        ),
    decreases x.len(),
{
    let e = escape_text(x);
    lemma_occurs_index(s, p, e + seq!['"'], e.len() as int);
    if x.len() == 0 {
        assert(acc + x =~= acc);
    } else {
        let c = x[0];
        let rest = x.drop_first();
        lemma_escape_front(x);
        let ec = escape_char(c);
        assert(e + seq!['"'] =~= ec + (escape_text(rest) + seq!['"']));
        lemma_occurs_split(s, p, ec, escape_text(rest) + seq!['"']);
        lemma_occurs_index(s, p, e + seq!['"'], 0);
        lemma_occurs_index(s, p, ec, 0);
        if ec.len() == 2 {
            lemma_occurs_index(s, p, ec, 1);
            assert(s[p] == '\\');
            assert(simple_escape(s[p + 1]) == Some(c));
            assert(lex_escape(s, p) == (Ok::<Seq<char>, crate::error::ErrorModel>(seq![c]), p + 2));
            lemma_lex_string_escaped(s, p + 2, acc + seq![c], rest);
            assert(acc + seq![c] + rest =~= acc + x);
        } else {
            assert(ec == seq![c]);
            assert(s[p] == c);
            assert(c != '"' && c != '\\');
            lemma_lex_string_escaped(s, p + 1, acc.push(c), rest);
            assert(acc.push(c) + rest =~= acc + x);
        }
    }
}

proof fn lemma_number_text_chars(n: Seq<char>)
    requires
        number_text(n),
    ensures
        n.len() > 0,
        forall|i: int| 0 <= i < n.len() ==> is_number_char(#[trigger] n[i]),
{
    assert forall|i: int| 0 <= i < n.len() implies is_number_char(#[trigger] n[i]) by {
        if n[0] == '-' {
            if i > 0 {
                assert(n.drop_first()[i - 1] == n[i]);
            }
        }
    }
}

proof fn lemma_lex_keyword(s: Seq<char>, p: int, acc: Seq<TokenModel>, w: Seq<char>, t: TokenModel)
    requires
        occurs_at(s, p, w),
        w.len() > 0,
        forall|i: int| 0 <= i < w.len() ==> ('a' <= #[trigger] w[i] && w[i] <= 'z'),
        keyword_token(w) == Some(t),
        lex_boundary(s, p + w.len()),
    ensures
        lex_from(s, p, acc) == lex_from(s, p + w.len(), acc + seq![t]),
{
    assert forall|k: int| p <= k < p + w.len() implies alphabetic(#[trigger] s[k]) by {
        lemma_occurs_index(s, p, w, k - p);
    }
    lemma_occurs_index(s, p, w, 0);
    lemma_word_end_exact(s, p, p + w.len());
    assert(acc.push(t) =~= acc + seq![t]);
}

/// Tokenizing the compact text of a value, where the text is followed by the
/// end of the input or by a character that continues no number and no
/// keyword, gives the value's tokens.
pub proof fn lemma_lex_value(s: Seq<char>, p: int, acc: Seq<TokenModel>, v: ValueModel)
    requires
        model_wf(v),
        occurs_at(s, p, render(v)),
        lex_boundary(s, p + render(v).len()),
    ensures
        lex_from(s, p, acc) == lex_from(s, p + render(v).len(), acc + value_tokens(v)),
    decreases v, 0int,
{
    let r = render(v);
    match v {
        ValueModel::Null => {
            lemma_lex_keyword(s, p, acc, null_text(), TokenModel::Null);
        },
        ValueModel::Boolean(b) => {
            lemma_lex_keyword(s, p, acc, bool_text(b), TokenModel::Boolean(b));
        },
        ValueModel::Number(n) => {
            lemma_number_text_chars(n);
            assert forall|k: int| p <= k < p + n.len() implies is_number_char(#[trigger] s[k]) by {
                lemma_occurs_index(s, p, n, k - p);
            }
            lemma_occurs_index(s, p, n, 0);
            lemma_number_end_exact(s, p, p + n.len());
            assert(acc.push(TokenModel::Number(n)) =~= acc + value_tokens(v));
        },
        ValueModel::String(x) => {
            let e = escape_text(x);
            assert(r =~= seq!['"'] + (e + seq!['"']));
            lemma_occurs_split(s, p, seq!['"'], e + seq!['"']);
            lemma_occurs_index(s, p, seq!['"'], 0);
            lemma_lex_string_escaped(s, p + 1, seq![], x);
            assert(Seq::<char>::empty() + x =~= x);
            assert(acc.push(TokenModel::String(x)) =~= acc + value_tokens(v));
        },
        ValueModel::Array(items) => {
            let ri = render_items(items, items.len() as int);
            assert(r =~= seq!['['] + (ri + seq![']']));
            lemma_occurs_split(s, p, seq!['['], ri + seq![']']);
            lemma_occurs_split(s, p + 1, ri, seq![']']);
            lemma_occurs_index(s, p, seq!['['], 0);
            lemma_occurs_index(s, p + 1 + ri.len(), seq![']'], 0);
            let acc1 = acc.push(TokenModel::LeftBracket);
            lemma_lex_items(s, p + 1, acc1, items, items.len() as int);
            assert(acc1 + items_tokens(items, items.len() as int) + seq![TokenModel::RightBracket]
                =~= acc + value_tokens(v));
            assert((acc1 + items_tokens(items, items.len() as int)).push(TokenModel::RightBracket)
                =~= acc + value_tokens(v));
        },
        ValueModel::Object(entries) => {
            let re = render_entries(entries, entries.len() as int);
            assert(r =~= seq!['{'] + (re + seq!['}']));
            lemma_occurs_split(s, p, seq!['{'], re + seq!['}']);
            lemma_occurs_split(s, p + 1, re, seq!['}']);
            lemma_occurs_index(s, p, seq!['{'], 0);
            lemma_occurs_index(s, p + 1 + re.len(), seq!['}'], 0);
            let acc1 = acc.push(TokenModel::LeftBrace);
            lemma_lex_entries(s, p + 1, acc1, entries, entries.len() as int);
            assert((acc1 + entries_tokens(entries, entries.len() as int)).push(TokenModel::RightBrace)
                =~= acc + value_tokens(v));
        },
    }
}

pub proof fn lemma_lex_items(
    s: Seq<char>,
    p: int,
    acc: Seq<TokenModel>,
    items: Seq<ValueModel>,
    k: int,
)
    requires
        0 <= k <= items.len(),
        items_wf(items, k),
        occurs_at(s, p, render_items(items, k)),
        lex_boundary(s, p + render_items(items, k).len()),
    ensures
        lex_from(s, p, acc) == lex_from(
            s,
            p + render_items(items, k).len(),
            acc + items_tokens(items, k),
        ),
    decreases items, k,
{
    if k == 0 {
        assert(acc + items_tokens(items, k) =~= acc);
    } else if k == 1 {
        assert(render_items(items, 0) =~= Seq::<char>::empty());
        assert(render_items(items, 1) =~= render(items[0]));
        assert(items_tokens(items, 0) =~= Seq::<TokenModel>::empty());
        assert(items_tokens(items, 1) =~= value_tokens(items[0]));
        lemma_lex_value(s, p, acc, items[0]);
    } else {
        let prev = render_items(items, k - 1);
        let last = render(items[k - 1]);
        assert(render_items(items, k) =~= prev + (seq![','] + last));
        lemma_occurs_split(s, p, prev, seq![','] + last);
        lemma_occurs_split(s, p + prev.len(), seq![','], last);
        lemma_occurs_index(s, p + prev.len(), seq![','], 0);
        lemma_lex_items(s, p, acc, items, k - 1);
        let acc1 = acc + items_tokens(items, k - 1);
        lemma_lex_value(s, p + prev.len() + 1, acc1.push(TokenModel::Comma), items[k - 1]);
        assert(acc1.push(TokenModel::Comma) + value_tokens(items[k - 1]) =~= acc + items_tokens(
            items,
            k,
        ));
    }
}

pub proof fn lemma_lex_entry(
    s: Seq<char>,
    p: int,
    acc: Seq<TokenModel>,
    e: (Seq<char>, ValueModel),
)
    requires
        entry_wf(e),
        occurs_at(s, p, render_entry(e)),
        lex_boundary(s, p + render_entry(e).len()),
    ensures
        lex_from(s, p, acc) == lex_from(s, p + render_entry(e).len(), acc + entry_tokens(e)),
    decreases e, 0int,
{
    let q = quoted(e.0);
    let x = escape_text(e.0);
    let rv = render(e.1);
    assert(render_entry(e) =~= q + (seq![':', ' '] + rv));
    lemma_occurs_split(s, p, q, seq![':', ' '] + rv);
    lemma_occurs_split(s, p + q.len(), seq![':', ' '], rv);
    lemma_occurs_index(s, p + q.len(), seq![':', ' '], 0);
    lemma_occurs_index(s, p + q.len(), seq![':', ' '], 1);
    assert(q =~= seq!['"'] + (x + seq!['"']));
    lemma_occurs_split(s, p, seq!['"'], x + seq!['"']);
    lemma_occurs_index(s, p, seq!['"'], 0);
    lemma_lex_string_escaped(s, p + 1, seq![], e.0);
    assert(Seq::<char>::empty() + e.0 =~= e.0);
    let acc0 = acc.push(TokenModel::String(e.0));
    let acc1 = acc0.push(TokenModel::Colon);
    assert(whitespace(' ') && !alphabetic(' '));
    assert(lex_from(s, p, acc) == lex_from(s, p + q.len(), acc0));
    assert(lex_from(s, p + q.len(), acc0) == lex_from(s, p + q.len() + 1, acc1));
    assert(lex_from(s, p + q.len() + 1, acc1) == lex_from(s, p + q.len() + 2, acc1));
    lemma_lex_value(s, p + q.len() + 2, acc1, e.1);
    assert(acc1 + value_tokens(e.1) =~= acc + entry_tokens(e));
}

pub proof fn lemma_lex_entries(
    s: Seq<char>,
    p: int,
    acc: Seq<TokenModel>,
    entries: Seq<(Seq<char>, ValueModel)>,
    k: int,
)
    requires
        0 <= k <= entries.len(),
        entries_wf(entries, k),
        occurs_at(s, p, render_entries(entries, k)),
        lex_boundary(s, p + render_entries(entries, k).len()),
    ensures
        lex_from(s, p, acc) == lex_from(
            s,
            p + render_entries(entries, k).len(),
            acc + entries_tokens(entries, k),
        ),
    decreases entries, k,
{
    if k == 0 {
        assert(acc + entries_tokens(entries, k) =~= acc);
    } else if k == 1 {
        assert(render_entries(entries, 0) =~= Seq::<char>::empty());
        assert(render_entries(entries, 1) =~= render_entry(entries[0]));
        assert(entries_tokens(entries, 0) =~= Seq::<TokenModel>::empty());
        assert(entries_tokens(entries, 1) =~= entry_tokens(entries[0]));
        lemma_lex_entry(s, p, acc, entries[0]);
    } else {
        let prev = render_entries(entries, k - 1);
        let last = render_entry(entries[k - 1]);
        assert(render_entries(entries, k) =~= prev + (seq![',', ' '] + last));
        lemma_occurs_split(s, p, prev, seq![',', ' '] + last);
        lemma_occurs_split(s, p + prev.len(), seq![',', ' '], last);
        lemma_occurs_index(s, p + prev.len(), seq![',', ' '], 0);
        lemma_occurs_index(s, p + prev.len(), seq![',', ' '], 1);
        lemma_lex_entries(s, p, acc, entries, k - 1);
        let acc1 = acc + entries_tokens(entries, k - 1);
        assert(whitespace(' ') && !alphabetic(' '));
        assert(lex_from(s, p + prev.len(), acc1) == lex_from(s, p + prev.len() + 1, acc1.push(TokenModel::Comma)));
        assert(lex_from(s, p + prev.len() + 1, acc1.push(TokenModel::Comma)) == lex_from(s, p + prev.len() + 2, acc1.push(TokenModel::Comma)));
        lemma_lex_entry(s, p + prev.len() + 2, acc1.push(TokenModel::Comma), entries[k - 1]);
        assert(acc1.push(TokenModel::Comma) + entry_tokens(entries[k - 1]) =~= acc
            + entries_tokens(entries, k));
    }
}

/// The compact text of every JSON value tokenizes into the value's tokens.
pub proof fn law_tokenize_render(v: ValueModel)
    requires
        model_wf(v),
    ensures
        tokenize_text(render(v)) == Ok::<Seq<TokenModel>, crate::error::ErrorModel>(value_tokens(v)),
{
    let s = render(v);
    assert(s.subrange(0, s.len() as int) =~= s);
    lemma_lex_value(s, 0, seq![], v);
    assert(Seq::<TokenModel>::empty() + value_tokens(v) =~= value_tokens(v));
}

/// A token that can start a value.
pub open spec fn starts_value(t: TokenModel) -> bool {
    !(t is Comma || t is Colon || t is RightBracket || t is RightBrace)
}

proof fn lemma_first_token(v: ValueModel)
    ensures
        value_tokens(v).len() > 0,
        starts_value(value_tokens(v)[0]),
{
}

proof fn lemma_items_wf(items: Seq<ValueModel>, k: int, j: int)
    requires
        items_wf(items, k),
        0 <= j < k <= items.len(),
    ensures
        model_wf(items[j]),
    decreases k,
{
    if j < k - 1 {
        lemma_items_wf(items, k - 1, j);
    }
}

proof fn lemma_entries_wf(entries: Seq<(Seq<char>, ValueModel)>, k: int, j: int)
    requires
        entries_wf(entries, k),
        0 <= j < k <= entries.len(),
    ensures
        model_wf(entries[j].1),
    decreases k,
{
    assert(entry_wf(entries[k - 1]) == model_wf(entries[k - 1].1));
    if j < k - 1 {
        lemma_entries_wf(entries, k - 1, j);
    }
}

/// The tokens of the first `k` items stand at the front of those of the first `m`.
proof fn lemma_items_tokens_prefix(t: Seq<TokenModel>, base: int, items: Seq<ValueModel>, k: int, m: int)
    requires
        0 <= k <= m <= items.len(),
        occurs_at(t, base, items_tokens(items, m)),
    ensures
        occurs_at(t, base, items_tokens(items, k)),
    decreases m - k,
{
    if k < m {
        let sep = if m > 1 {
            seq![TokenModel::Comma]
        } else {
            seq![]
        };
        assert(items_tokens(items, m) =~= items_tokens(items, m - 1) + (sep + value_tokens(items[m - 1])));
        lemma_occurs_split(t, base, items_tokens(items, m - 1), sep + value_tokens(items[m - 1]));
        lemma_items_tokens_prefix(t, base, items, k, m - 1);
    }
}

proof fn lemma_entries_tokens_prefix(
    t: Seq<TokenModel>,
    base: int,
    entries: Seq<(Seq<char>, ValueModel)>,
    k: int,
    m: int,
)
    requires
        0 <= k <= m <= entries.len(),
        occurs_at(t, base, entries_tokens(entries, m)),
    ensures
        occurs_at(t, base, entries_tokens(entries, k)),
    decreases m - k,
{
    if k < m {
        let sep = if m > 1 {
            seq![TokenModel::Comma]
        } else {
            seq![]
        };
        assert(entries_tokens(entries, m) =~= entries_tokens(entries, m - 1) + (sep + entry_tokens(
            entries[m - 1],
        )));
        lemma_occurs_split(t, base, entries_tokens(entries, m - 1), sep + entry_tokens(entries[m - 1]));
        lemma_entries_tokens_prefix(t, base, entries, k, m - 1);
    }
}

/// Parsing the tokens of a value gives back the value, and stops just past them.
pub proof fn lemma_parse_value_tokens(t: Seq<TokenModel>, p: int, prev: int, v: ValueModel)
    requires
        model_wf(v),
        occurs_at(t, p, value_tokens(v)),
    ensures
        parse_value_at(t, p, prev).0 == Ok::<ValueModel, crate::error::ErrorModel>(v),
        parse_value_at(t, p, prev).1 == p + value_tokens(v).len(),
    decreases v, 0int,
{
    lemma_occurs_index(t, p, value_tokens(v), 0);
    match v {
        ValueModel::Array(items) => {
            let it = items_tokens(items, items.len() as int);
            assert(value_tokens(v) =~= seq![TokenModel::LeftBracket] + (it + seq![TokenModel::RightBracket]));
            lemma_occurs_split(t, p, seq![TokenModel::LeftBracket], it + seq![TokenModel::RightBracket]);
            lemma_parse_items_from(t, p + 1, items, 0, p, seq![]);
            assert(Seq::<ValueModel>::empty() + items.skip(0) =~= items);
        },
        ValueModel::Object(entries) => {
            let et = entries_tokens(entries, entries.len() as int);
            assert(value_tokens(v) =~= seq![TokenModel::LeftBrace] + (et + seq![TokenModel::RightBrace]));
            lemma_occurs_split(t, p, seq![TokenModel::LeftBrace], et + seq![TokenModel::RightBrace]);
            assert(entries.take(0) =~= Seq::<(Seq<char>, ValueModel)>::empty());
            lemma_parse_entries_from(t, p + 1, entries, 0, p);
            assert(entries.take(entries.len() as int) =~= entries);
        },
        _ => {},
    }
}

/// From the position just past the first `k` items of an array (or from the
/// start of the items when `k` is 0), parsing reads the remaining items and
/// the closing bracket.
pub proof fn lemma_parse_items_from(
    t: Seq<TokenModel>,
    base: int,
    items: Seq<ValueModel>,
    k: int,
    prev: int,
    acc: Seq<ValueModel>,
)
    requires
        0 <= k <= items.len(),
        items_wf(items, items.len() as int),
        occurs_at(t, base, items_tokens(items, items.len() as int) + seq![TokenModel::RightBracket]),
    ensures
        parse_array_at(t, base + items_tokens(items, k).len(), prev, acc).0 == Ok::<
            Seq<ValueModel>,
            crate::error::ErrorModel,
        >(acc + items.skip(k)),
        parse_array_at(t, base + items_tokens(items, k).len(), prev, acc).1 == base
            + items_tokens(items, items.len() as int).len() + 1,
    decreases items, items.len() - k,
{
    let n = items.len() as int;
    let all = items_tokens(items, n);
    lemma_occurs_split(t, base, all, seq![TokenModel::RightBracket]);
    lemma_occurs_index(t, base + all.len(), seq![TokenModel::RightBracket], 0);
    let pk = base + items_tokens(items, k).len();
    if k == n {
        assert(acc + items.skip(k) =~= acc);
    } else {
        // the tokens of item k stand after the separator that follows the first k items
        lemma_items_tokens_prefix(t, base, items, k + 1, n);
        let sep = if k + 1 > 1 {
            seq![TokenModel::Comma]
        } else {
            seq![]
        };
        let vt = value_tokens(items[k]);
        assert(items_tokens(items, k + 1) =~= items_tokens(items, k) + (sep + vt));
        lemma_occurs_split(t, base, items_tokens(items, k), sep + vt);
        lemma_occurs_split(t, pk, sep, vt);
        let start = pk + sep.len();
        lemma_first_token(items[k]);
        lemma_occurs_index(t, start, vt, 0);
        lemma_items_wf(items, n, k);
        lemma_parse_value_tokens(t, start, prev, items[k]);
        let next = pk + sep.len() + vt.len();
        assert(next == base + items_tokens(items, k + 1).len());
        // what follows item k: a comma, or the closing bracket
        if k + 1 < n {
            lemma_items_tokens_prefix(t, base, items, k + 2, n);
            assert(items_tokens(items, k + 2) =~= items_tokens(items, k + 1) + (seq![TokenModel::Comma]
                + value_tokens(items[k + 1])));
            lemma_occurs_split(t, base, items_tokens(items, k + 1), seq![TokenModel::Comma] + value_tokens(items[k + 1]));
            lemma_occurs_index(t, next, seq![TokenModel::Comma] + value_tokens(items[k + 1]), 0);
            assert(t[next] == TokenModel::Comma);
            assert(missing_comma(t, next) is None);
        } else {
            assert(next == base + all.len());
            assert(t[next] == TokenModel::RightBracket);
        }
        let v2 = parse_value_at(t, start, prev).2;
        lemma_parse_items_from(t, base, items, k + 1, v2, acc.push(items[k]));
        assert(acc.push(items[k]) + items.skip(k + 1) =~= acc + items.skip(k));
        if k > 0 {
            lemma_occurs_index(t, pk, sep, 0);
            assert(t[pk] == TokenModel::Comma);
            assert(trailing_comma_ok(t, pk, TokenModel::RightBracket));
            assert(parse_array_at(t, pk, prev, acc) == parse_array_at(t, pk + 1, prev, acc));
        }
    }
}

/// From the position just past the first `k` entries of an object (or from
/// the start of the entries when `k` is 0), with those entries read, parsing
/// reads the remaining entries and the closing brace.
pub proof fn lemma_parse_entries_from(
    t: Seq<TokenModel>,
    base: int,
    entries: Seq<(Seq<char>, ValueModel)>,
    k: int,
    prev: int,
)
    requires
        0 <= k <= entries.len(),
        distinct_keys(entry_keys(entries)),
        entries_wf(entries, entries.len() as int),
        occurs_at(t, base, entries_tokens(entries, entries.len() as int) + seq![TokenModel::RightBrace]),
    ensures
        parse_object_at(t, base + entries_tokens(entries, k).len(), prev, entries.take(k)).0 == Ok::<
            Seq<(Seq<char>, ValueModel)>,
            crate::error::ErrorModel,
        >(entries),
        parse_object_at(t, base + entries_tokens(entries, k).len(), prev, entries.take(k)).1 == base
            + entries_tokens(entries, entries.len() as int).len() + 1,
    decreases entries, entries.len() - k,
{
    let n = entries.len() as int;
    let all = entries_tokens(entries, n);
    lemma_occurs_split(t, base, all, seq![TokenModel::RightBrace]);
    lemma_occurs_index(t, base + all.len(), seq![TokenModel::RightBrace], 0);
    let pk = base + entries_tokens(entries, k).len();
    let acc = entries.take(k);
    if k == n {
        assert(acc =~= entries);
    } else {
        lemma_entries_tokens_prefix(t, base, entries, k + 1, n);
        let sep = if k + 1 > 1 {
            seq![TokenModel::Comma]
        } else {
            seq![]
        };
        let e = entries[k];
        let vt = value_tokens(e.1);
        let et = entry_tokens(e);
        assert(et =~= seq![TokenModel::String(e.0), TokenModel::Colon] + vt);
        assert(entries_tokens(entries, k + 1) =~= entries_tokens(entries, k) + (sep + et));
        lemma_occurs_split(t, base, entries_tokens(entries, k), sep + et);
        lemma_occurs_split(t, pk, sep, et);
        let start = pk + sep.len();
        lemma_occurs_split(t, start, seq![TokenModel::String(e.0), TokenModel::Colon], vt);
        lemma_occurs_index(t, start, et, 0);
        lemma_occurs_index(t, start, et, 1);
        lemma_first_token(e.1);
        lemma_occurs_index(t, start + 2, vt, 0);
        lemma_entries_wf(entries, n, k);
        lemma_parse_value_tokens(t, start + 2, prev, e.1);
        let next = start + 2 + vt.len();
        assert(next == base + entries_tokens(entries, k + 1).len());
        if k + 1 < n {
            lemma_entries_tokens_prefix(t, base, entries, k + 2, n);
            assert(entries_tokens(entries, k + 2) =~= entries_tokens(entries, k + 1) + (seq![
                TokenModel::Comma,
            ] + entry_tokens(entries[k + 1])));
            lemma_occurs_split(t, base, entries_tokens(entries, k + 1), seq![TokenModel::Comma] + entry_tokens(entries[k + 1]));
            lemma_occurs_index(t, next, seq![TokenModel::Comma] + entry_tokens(entries[k + 1]), 0);
            assert(t[next] == TokenModel::Comma);
            assert(missing_comma(t, next) is None);
        } else {
            assert(next == base + all.len());
            assert(t[next] == TokenModel::RightBrace);
        }
        // the key of entry k is new among the entries read so far
        assert(!entry_keys(acc).contains(e.0)) by {
            if entry_keys(acc).contains(e.0) {
                let j = choose|j: int| 0 <= j < entry_keys(acc).len() && entry_keys(acc)[j] == e.0;
                assert(entry_keys(entries)[j] == entry_keys(entries)[k]);
            }
        }
        lemma_first_index(entry_keys(acc), e.0);
        assert(entries_insert(acc, e.0, e.1) =~= entries.take(k + 1));
        let r = parse_member_value(t, start + 2, prev);
        assert(r.0 == Ok::<Option<ValueModel>, crate::error::ErrorModel>(Some(e.1)));
        assert(r.1 == next);
        lemma_parse_entries_from(t, base, entries, k + 1, r.2);
        assert(parse_object_at(t, start, prev, acc) == parse_object_at(t, next, r.2, entries.take(k + 1)));
        if k > 0 {
            lemma_occurs_index(t, pk, sep, 0);
            assert(t[pk] == TokenModel::Comma);
            assert(trailing_comma_ok(t, pk, TokenModel::RightBrace));
            assert(parse_object_at(t, pk, prev, acc) == parse_object_at(t, pk + 1, prev, acc));
        }
    }
}

/// Reading back the compact text of a value gives the value: the text
/// tokenizes into the value's tokens, which are not empty, and parsing them
/// gives the value and consumes them all.
pub proof fn law_parse_render_roundtrip(v: ValueModel)
    requires
        model_wf(v),
    ensures
        tokenize_text(render(v)) == Ok::<Seq<TokenModel>, crate::error::ErrorModel>(value_tokens(v)),
        value_tokens(v).len() > 0,
        parse_value_at(value_tokens(v), 0, 0).0 == Ok::<ValueModel, crate::error::ErrorModel>(v),
        parse_value_at(value_tokens(v), 0, 0).1 == value_tokens(v).len(),
{
    law_tokenize_render(v);
    lemma_first_token(v);
    let t = value_tokens(v);
    assert(t.subrange(0, t.len() as int) =~= t);
    lemma_parse_value_tokens(t, 0, 0, v);
}

/// A string literal of the compact text reads back as the string.
pub proof fn law_escaped_string_reads_back(x: Seq<char>)
    ensures
        tokenize_text(quoted(x)) == Ok::<Seq<TokenModel>, crate::error::ErrorModel>(
            seq![TokenModel::String(x)],
        ),
{
    law_tokenize_render(ValueModel::String(x));
}

/// A key that the indented text can write between quotes as it is: it holds
/// no quote and no backslash.
pub open spec fn plain_key(k: Seq<char>) -> bool {
    forall|i: int| 0 <= i < k.len() ==> #[trigger] k[i] != '"' && k[i] != '\\'
}

/// All the object keys inside a value are plain.
pub open spec fn plain_keys(v: ValueModel) -> bool
    decreases v, 0int,
{
    match v {
        ValueModel::Array(items) => items_plain(items, items.len() as int),
        ValueModel::Object(entries) => entries_plain(entries, entries.len() as int),
        _ => true,
    }
}

pub open spec fn items_plain(items: Seq<ValueModel>, k: int) -> bool
    decreases items, k,
{
    if k <= 0 || k > items.len() {
        true
    } else {
        items_plain(items, k - 1) && plain_keys(items[k - 1])
    }
}

pub open spec fn entry_plain(e: (Seq<char>, ValueModel)) -> bool
    decreases e, 0int,
{
    plain_key(e.0) && plain_keys(e.1)
}

pub open spec fn entries_plain(entries: Seq<(Seq<char>, ValueModel)>, k: int) -> bool
    decreases entries, k,
{
    if k <= 0 || k > entries.len() {
        true
    } else {
        entries_plain(entries, k - 1) && entry_plain(entries[k - 1])
    }
}

/// Reading a plain text followed by a quote gives back the text.
proof fn lemma_lex_string_plain(s: Seq<char>, p: int, acc: Seq<char>, x: Seq<char>)
    requires
        plain_key(x),
        occurs_at(s, p, x + seq!['"']),
    ensures
        lex_string(s, p, acc) == (
            Ok::<Seq<char>, crate::error::ErrorModel>(acc + x),
            p + x.len() + 1,
        ),
    decreases x.len(),
{
    lemma_occurs_index(s, p, x + seq!['"'], x.len() as int);
    lemma_occurs_index(s, p, x + seq!['"'], 0);
    if x.len() == 0 {
        assert(acc + x =~= acc);
    } else {
        let c = x[0];
        let rest = x.drop_first();
        assert(x + seq!['"'] =~= seq![c] + (rest + seq!['"']));
        lemma_occurs_split(s, p, seq![c], rest + seq!['"']);
        assert(plain_key(rest)) by {
            assert forall|i: int| 0 <= i < rest.len() implies #[trigger] rest[i] != '"' && rest[i]
                != '\\' by {
                assert(rest[i] == x[i + 1]);
            }
        }
        lemma_lex_string_plain(s, p + 1, acc.push(c), rest);
        assert(acc.push(c) + rest =~= acc + x);
    }
}

/// Spaces and newlines are skipped.
proof fn lemma_lex_blank(s: Seq<char>, p: int, acc: Seq<TokenModel>, m: int)
    requires
        0 <= p,
        0 <= m,
        p + m <= s.len(),
        forall|i: int| p <= i < p + m ==> (#[trigger] s[i] == ' ' || s[i] == '\n'),
    ensures
        lex_from(s, p, acc) == lex_from(s, p + m, acc),
    decreases m,
{
    if m > 0 {
        assert(s[p] == ' ' || s[p] == '\n');
        assert(whitespace(s[p]) && !alphabetic(s[p]));
        lemma_lex_blank(s, p + 1, acc, m - 1);
    }
}

proof fn lemma_lex_spaces(s: Seq<char>, p: int, acc: Seq<TokenModel>, n: int)
    requires
        0 <= n,
        occurs_at(s, p, spaces(n)),
    ensures
        lex_from(s, p, acc) == lex_from(s, p + n, acc),
{
    assert forall|i: int| p <= i < p + n implies (#[trigger] s[i] == ' ' || s[i] == '\n') by {
        lemma_occurs_index(s, p, spaces(n), i - p);
    }
    lemma_lex_blank(s, p, acc, n);
}

/// Tokenizing the indented text of a value (with plain keys), where the text
/// is followed by a boundary, gives the value's tokens.
pub proof fn lemma_lex_pretty(
    s: Seq<char>,
    p: int,
    acc: Seq<TokenModel>,
    v: ValueModel,
    depth: int,
    indent: int,
)
    requires
        model_wf(v),
        plain_keys(v),
        0 <= depth,
        0 <= indent,
        occurs_at(s, p, pretty(v, depth, indent)),
        lex_boundary(s, p + pretty(v, depth, indent).len()),
    ensures
        lex_from(s, p, acc) == lex_from(s, p + pretty(v, depth, indent).len(), acc + value_tokens(v)),
    decreases v, 0int,
{
    match v {
        ValueModel::Array(items) => {
            let n = items.len() as int;
            let body = pretty_items(items, n, depth, indent);
            let close = spaces(depth * indent);
            assert(depth * indent >= 0) by (nonlinear_arith)
                requires
                    depth >= 0,
                    indent >= 0,
            ;
            assert(pretty(v, depth, indent) =~= seq!['[', '\n'] + (body + (close + seq![']'])));
            lemma_occurs_split(s, p, seq!['[', '\n'], body + (close + seq![']']));
            lemma_occurs_split(s, p + 2, body, close + seq![']']);
            lemma_occurs_split(s, p + 2 + body.len(), close, seq![']']);
            lemma_occurs_index(s, p, seq!['[', '\n'], 0);
            lemma_occurs_index(s, p, seq!['[', '\n'], 1);
            lemma_occurs_index(s, p + 2 + body.len() + close.len(), seq![']'], 0);
            let acc1 = acc.push(TokenModel::LeftBracket);
            assert(lex_from(s, p, acc) == lex_from(s, p + 1, acc1));
            lemma_lex_blank(s, p + 1, acc1, 1);
            lemma_lex_pretty_items(s, p + 2, acc1, items, n, depth, indent);
            assert(acc1 + items_tokens(items, n) + (if 0 < n < n {
                seq![TokenModel::Comma]
            } else {
                seq![]
            }) =~= acc1 + items_tokens(items, n));
            lemma_lex_spaces(s, p + 2 + body.len(), acc1 + items_tokens(items, n), depth * indent);
            assert((acc1 + items_tokens(items, n)).push(TokenModel::RightBracket) =~= acc
                + value_tokens(v));
        },
        ValueModel::Object(entries) => {
            let n = entries.len() as int;
            let body = pretty_entries(entries, n, depth, indent);
            let close = spaces(depth * indent);
            assert(depth * indent >= 0) by (nonlinear_arith)
                requires
                    depth >= 0,
                    indent >= 0,
            ;
            assert(pretty(v, depth, indent) =~= seq!['{', '\n'] + (body + (close + seq!['}'])));
            lemma_occurs_split(s, p, seq!['{', '\n'], body + (close + seq!['}']));
            lemma_occurs_split(s, p + 2, body, close + seq!['}']);
            lemma_occurs_split(s, p + 2 + body.len(), close, seq!['}']);
            lemma_occurs_index(s, p, seq!['{', '\n'], 0);
            lemma_occurs_index(s, p, seq!['{', '\n'], 1);
            lemma_occurs_index(s, p + 2 + body.len() + close.len(), seq!['}'], 0);
            let acc1 = acc.push(TokenModel::LeftBrace);
            assert(lex_from(s, p, acc) == lex_from(s, p + 1, acc1));
            lemma_lex_blank(s, p + 1, acc1, 1);
            lemma_lex_pretty_entries(s, p + 2, acc1, entries, n, depth, indent);
            assert(acc1 + entries_tokens(entries, n) + (if 0 < n < n {
                seq![TokenModel::Comma]
            } else {
                seq![]
            }) =~= acc1 + entries_tokens(entries, n));
            lemma_lex_spaces(s, p + 2 + body.len(), acc1 + entries_tokens(entries, n), depth * indent);
            assert((acc1 + entries_tokens(entries, n)).push(TokenModel::RightBrace) =~= acc
                + value_tokens(v));
        },
        _ => {
            assert(pretty(v, depth, indent) == render(v));
            lemma_lex_value(s, p, acc, v);
        },
    }
}

/// The lines of the first `k` items tokenize into their tokens, with the
/// comma that ends the line of item `k` where more items follow.
pub proof fn lemma_lex_pretty_items(
    s: Seq<char>,
    p: int,
    acc: Seq<TokenModel>,
    items: Seq<ValueModel>,
    k: int,
    depth: int,
    indent: int,
)
    requires
        0 <= k <= items.len(),
        items_wf(items, items.len() as int),
        items_plain(items, items.len() as int),
        0 <= depth,
        0 <= indent,
        occurs_at(s, p, pretty_items(items, k, depth, indent)),
    ensures
        lex_from(s, p, acc) == lex_from(
            s,
            p + pretty_items(items, k, depth, indent).len(),
            acc + items_tokens(items, k) + (if 0 < k < items.len() {
                seq![TokenModel::Comma]
            } else {
                seq![]
            }),
        ),
    decreases items, k,
{
    let n = items.len() as int;
    if k == 0 {
        assert(acc + items_tokens(items, k) + Seq::<TokenModel>::empty() =~= acc);
    } else {
        let prev = pretty_items(items, k - 1, depth, indent);
        let ind = spaces((depth + 1) * indent);
        let item = pretty(items[k - 1], depth + 1, indent);
        let comma = if k < n {
            seq![',']
        } else {
            seq![]
        };
        assert((depth + 1) * indent >= 0) by (nonlinear_arith)
            requires
                depth >= 0,
                indent >= 0,
        ;
        assert(pretty_items(items, k, depth, indent) =~= prev + (ind + (item + (comma + seq![
            '\n',
        ]))));
        lemma_occurs_split(s, p, prev, ind + (item + (comma + seq!['\n'])));
        let p1 = p + prev.len();
        lemma_occurs_split(s, p1, ind, item + (comma + seq!['\n']));
        let p2 = p1 + ind.len();
        lemma_occurs_split(s, p2, item, comma + seq!['\n']);
        let p3 = p2 + item.len();
        lemma_occurs_split(s, p3, comma, seq!['\n']);
        lemma_occurs_index(s, p3, comma + seq!['\n'], 0);
        lemma_occurs_index(s, p3 + comma.len(), seq!['\n'], 0);
        lemma_lex_pretty_items(s, p, acc, items, k - 1, depth, indent);
        let acc1 = acc + items_tokens(items, k - 1) + (if 0 < k - 1 < n {
            seq![TokenModel::Comma]
        } else {
            seq![]
        });
        lemma_lex_spaces(s, p1, acc1, (depth + 1) * indent);
        lemma_items_wf(items, n, k - 1);
        lemma_items_plain(items, n, k - 1);
        lemma_lex_pretty(s, p2, acc1, items[k - 1], depth + 1, indent);
        let acc2 = acc1 + value_tokens(items[k - 1]);
        if k < n {
            assert(lex_from(s, p3, acc2) == lex_from(s, p3 + 1, acc2.push(TokenModel::Comma)));
            lemma_lex_blank(s, p3 + 1, acc2.push(TokenModel::Comma), 1);
            assert(acc2.push(TokenModel::Comma) =~= acc + items_tokens(items, k) + seq![
                TokenModel::Comma,
            ]);
        } else {
            lemma_lex_blank(s, p3, acc2, 1);
            assert(acc2 =~= acc + items_tokens(items, k) + Seq::<TokenModel>::empty());
        }
    }
}

/// The lines of the first `k` entries tokenize into their tokens, with the
/// comma that ends the line of entry `k` where more entries follow.
pub proof fn lemma_lex_pretty_entries(
    s: Seq<char>,
    p: int,
    acc: Seq<TokenModel>,
    entries: Seq<(Seq<char>, ValueModel)>,
    k: int,
    depth: int,
    indent: int,
)
    requires
        0 <= k <= entries.len(),
        entries_wf(entries, entries.len() as int),
        entries_plain(entries, entries.len() as int),
        0 <= depth,
        0 <= indent,
        occurs_at(s, p, pretty_entries(entries, k, depth, indent)),
    ensures
        lex_from(s, p, acc) == lex_from(
            s,
            p + pretty_entries(entries, k, depth, indent).len(),
            acc + entries_tokens(entries, k) + (if 0 < k < entries.len() {
                seq![TokenModel::Comma]
            } else {
                seq![]
            }),
        ),
    decreases entries, k,
{
    let n = entries.len() as int;
    if k == 0 {
        assert(acc + entries_tokens(entries, k) + Seq::<TokenModel>::empty() =~= acc);
    } else {
        let e = entries[k - 1];
        let prev = pretty_entries(entries, k - 1, depth, indent);
        let ind = spaces((depth + 1) * indent);
        let item = pretty(e.1, depth + 1, indent);
        let comma = if k < n {
            seq![',']
        } else {
            seq![]
        };
        assert((depth + 1) * indent >= 0) by (nonlinear_arith)
            requires
                depth >= 0,
                indent >= 0,
        ;
        let key = seq!['"'] + (e.0 + seq!['"', ':', ' ']);
        assert(pretty_entry(e, depth, indent) =~= ind + (key + item));
        assert(pretty_entries(entries, k, depth, indent) =~= prev + (ind + (key + (item + (comma
            + seq!['\n'])))));
        lemma_occurs_split(s, p, prev, ind + (key + (item + (comma + seq!['\n']))));
        let p1 = p + prev.len();
        lemma_occurs_split(s, p1, ind, key + (item + (comma + seq!['\n'])));
        let p2 = p1 + ind.len();
        lemma_occurs_split(s, p2, key, item + (comma + seq!['\n']));
        let p3 = p2 + key.len();
        lemma_occurs_split(s, p3, item, comma + seq!['\n']);
        let p4 = p3 + item.len();
        lemma_occurs_split(s, p4, comma, seq!['\n']);
        lemma_occurs_index(s, p4, comma + seq!['\n'], 0);
        lemma_occurs_index(s, p4 + comma.len(), seq!['\n'], 0);
        lemma_lex_pretty_entries(s, p, acc, entries, k - 1, depth, indent);
        let acc1 = acc + entries_tokens(entries, k - 1) + (if 0 < k - 1 < n {
            seq![TokenModel::Comma]
        } else {
            seq![]
        });
        lemma_lex_spaces(s, p1, acc1, (depth + 1) * indent);
        // the key, between quotes as it is
        lemma_entries_plain(entries, n, k - 1);
        lemma_entries_wf(entries, n, k - 1);
        assert(entry_plain(e) == (plain_key(e.0) && plain_keys(e.1)));
        lemma_occurs_split(s, p2, seq!['"'], e.0 + seq!['"', ':', ' ']);
        lemma_occurs_index(s, p2, seq!['"'], 0);
        assert(e.0 + seq!['"', ':', ' '] =~= (e.0 + seq!['"']) + seq![':', ' ']);
        lemma_occurs_split(s, p2 + 1, e.0 + seq!['"'], seq![':', ' ']);
        lemma_lex_string_plain(s, p2 + 1, seq![], e.0);
        assert(Seq::<char>::empty() + e.0 =~= e.0);
        let q = p2 + 1 + e.0.len() + 1;
        lemma_occurs_index(s, q, seq![':', ' '], 0);
        lemma_occurs_index(s, q, seq![':', ' '], 1);
        let acc_k = acc1.push(TokenModel::String(e.0));
        assert(lex_from(s, p2, acc1) == lex_from(s, q, acc_k));
        assert(lex_from(s, q, acc_k) == lex_from(s, q + 1, acc_k.push(TokenModel::Colon)));
        lemma_lex_blank(s, q + 1, acc_k.push(TokenModel::Colon), 1);
        assert(q + 2 == p3);
        lemma_lex_pretty(s, p3, acc_k.push(TokenModel::Colon), e.1, depth + 1, indent);
        let acc2 = acc_k.push(TokenModel::Colon) + value_tokens(e.1);
        assert(entry_tokens(e) == seq![TokenModel::String(e.0), TokenModel::Colon] + value_tokens(e.1));
        assert(entries_tokens(entries, k) == entries_tokens(entries, k - 1) + (if k > 1 {
            seq![TokenModel::Comma]
        } else {
            seq![]
        }) + entry_tokens(e));
        assert(acc2 =~= acc + entries_tokens(entries, k));
        if k < n {
            assert(lex_from(s, p4, acc2) == lex_from(s, p4 + 1, acc2.push(TokenModel::Comma)));
            lemma_lex_blank(s, p4 + 1, acc2.push(TokenModel::Comma), 1);
            assert(acc2.push(TokenModel::Comma) =~= acc + entries_tokens(entries, k) + seq![
                TokenModel::Comma,
            ]);
        } else {
            lemma_lex_blank(s, p4, acc2, 1);
            assert(acc2 =~= acc + entries_tokens(entries, k) + Seq::<TokenModel>::empty());
        }
    }
}

proof fn lemma_items_plain(items: Seq<ValueModel>, k: int, j: int)
    requires
        items_plain(items, k),
        0 <= j < k <= items.len(),
    ensures
        plain_keys(items[j]),
    decreases k,
{
    if j < k - 1 {
        lemma_items_plain(items, k - 1, j);
    }
}

proof fn lemma_entries_plain(entries: Seq<(Seq<char>, ValueModel)>, k: int, j: int)
    requires
        entries_plain(entries, k),
        0 <= j < k <= entries.len(),
    ensures
        entry_plain(entries[j]),
    decreases k,
{
    if j < k - 1 {
        lemma_entries_plain(entries, k - 1, j);
    }
}

/// Reading back the indented text of a value whose keys hold no quote and
/// no backslash gives the value, at every indentation.
pub proof fn law_parse_pretty_roundtrip(v: ValueModel, indent: nat)
    requires
        model_wf(v),
        plain_keys(v),
    ensures
        tokenize_text(pretty(v, 0, indent as int)) == Ok::<Seq<TokenModel>, crate::error::ErrorModel>(
            value_tokens(v),
        ),
        parse_value_at(value_tokens(v), 0, 0).0 == Ok::<ValueModel, crate::error::ErrorModel>(v),
        parse_value_at(value_tokens(v), 0, 0).1 == value_tokens(v).len(),
{
    let s = pretty(v, 0, indent as int);
    assert(s.subrange(0, s.len() as int) =~= s);
    lemma_lex_pretty(s, 0, seq![], v, 0, indent as int);
    assert(Seq::<TokenModel>::empty() + value_tokens(v) =~= value_tokens(v));
    law_parse_render_roundtrip(v);
}

/// The compact texts of the first `k` values, each followed by a space.
pub open spec fn texts_in_sequence(vs: Seq<ValueModel>, k: int) -> Seq<char>
    decreases k,
{
    if k <= 0 || k > vs.len() {
        seq![]
    } else {
        texts_in_sequence(vs, k - 1) + render(vs[k - 1]) + seq![' ']
    }
}

/// The tokens of the first `k` values, one after the other.
pub open spec fn tokens_in_sequence(vs: Seq<ValueModel>, k: int) -> Seq<TokenModel>
    decreases k,
{
    if k <= 0 || k > vs.len() {
        seq![]
    } else {
        tokens_in_sequence(vs, k - 1) + value_tokens(vs[k - 1])
    }
}

proof fn lemma_lex_sequence(s: Seq<char>, vs: Seq<ValueModel>, k: int)
    requires
        0 <= k <= vs.len(),
        forall|i: int| 0 <= i < vs.len() ==> model_wf(#[trigger] vs[i]),
        occurs_at(s, 0, texts_in_sequence(vs, k)),
    ensures
        lex_from(s, 0, seq![]) == lex_from(s, texts_in_sequence(vs, k).len() as int, tokens_in_sequence(vs, k)),
    decreases k,
{
    if k > 0 {
        let prev = texts_in_sequence(vs, k - 1);
        let r = render(vs[k - 1]);
        assert(texts_in_sequence(vs, k) =~= prev + (r + seq![' ']));
        lemma_occurs_split(s, 0, prev, r + seq![' ']);
        lemma_occurs_split(s, prev.len() as int, r, seq![' ']);
        lemma_occurs_index(s, (prev.len() + r.len()) as int, seq![' '], 0);
        lemma_lex_sequence(s, vs, k - 1);
        assert(!alphabetic(' '));
        lemma_lex_value(s, prev.len() as int, tokens_in_sequence(vs, k - 1), vs[k - 1]);
        lemma_lex_blank(s, (prev.len() + r.len()) as int, tokens_in_sequence(vs, k), 1);
    } else {
        assert(tokens_in_sequence(vs, 0) =~= Seq::<TokenModel>::empty());
    }
}

proof fn lemma_tokens_in_sequence_prefix(vs: Seq<ValueModel>, k: int, m: int)
    requires
        0 <= k <= m <= vs.len(),
    ensures
        tokens_in_sequence(vs, m).subrange(0, tokens_in_sequence(vs, k).len() as int)
            == tokens_in_sequence(vs, k),
        tokens_in_sequence(vs, k).len() <= tokens_in_sequence(vs, m).len(),
    decreases m - k,
{
    if k < m {
        lemma_tokens_in_sequence_prefix(vs, k, m - 1);
        let a = tokens_in_sequence(vs, m - 1);
        let n = tokens_in_sequence(vs, k).len() as int;
        assert(tokens_in_sequence(vs, m).subrange(0, n) =~= a.subrange(0, n));
    } else {
        assert(tokens_in_sequence(vs, m).subrange(0, tokens_in_sequence(vs, k).len() as int)
            =~= tokens_in_sequence(vs, k));
    }
}

/// Several values written one after the other, separated by spaces, read
/// back in turn: the text tokenizes into their tokens, and parsing from the
/// end of the first `i` values gives value `i` and stops at the end of the
/// first `i + 1`. At the end of the tokens parsing fails with
/// `InvalidPosition`.
pub proof fn law_parse_values_in_sequence(vs: Seq<ValueModel>, i: int, prev: int)
    requires
        forall|j: int| 0 <= j < vs.len() ==> model_wf(#[trigger] vs[j]),
        0 <= i < vs.len(),
    ensures
        ({
            let t = tokens_in_sequence(vs, vs.len() as int);
            let start = tokens_in_sequence(vs, i).len() as int;
            &&& tokenize_text(texts_in_sequence(vs, vs.len() as int)) == Ok::<
                Seq<TokenModel>,
                crate::error::ErrorModel,
            >(t)
            &&& parse_value_at(t, start, prev).0 == Ok::<ValueModel, crate::error::ErrorModel>(vs[i])
            &&& parse_value_at(t, start, prev).1 == tokens_in_sequence(vs, i + 1).len()
            &&& parse_value_at(t, t.len() as int, prev).0 == Err::<ValueModel, crate::error::ErrorModel>(
                crate::error::ErrorModel::InvalidPosition { position: t.len() as int },
            )
        }),
{
    let n = vs.len() as int;
    let s = texts_in_sequence(vs, n);
    let t = tokens_in_sequence(vs, n);
    assert(s.subrange(0, s.len() as int) =~= s);
    lemma_lex_sequence(s, vs, n);
    assert(lex_from(s, s.len() as int, t) == (Ok::<Seq<TokenModel>, crate::error::ErrorModel>(t), s.len() as int));
    lemma_tokens_in_sequence_prefix(vs, i + 1, n);
    lemma_tokens_in_sequence_prefix(vs, i, i + 1);
    let start = tokens_in_sequence(vs, i).len() as int;
    let vt = value_tokens(vs[i]);
    let upto = tokens_in_sequence(vs, i + 1);
    assert(upto =~= tokens_in_sequence(vs, i) + vt);
    assert(t.subrange(start, start + vt.len()) =~= vt) by {
        assert forall|j: int| 0 <= j < vt.len() implies #[trigger] t.subrange(start, start + vt.len())[j] == vt[j] by {
            assert(t.subrange(0, upto.len() as int)[start + j] == upto[start + j]);
        }
    }
    lemma_parse_value_tokens(t, start, prev, vs[i]);
}

/// Every value of a JSON value equals itself.
pub proof fn law_equality_reflexive(v: ValueModel)
    requires
        model_wf(v),
    ensures
        value_equiv(v, v),
    decreases v,
{
    match v {
        ValueModel::Array(xs) => {
            assert forall|i: int| 0 <= i < xs.len() implies value_equiv(#[trigger] xs[i], xs[i]) by {
                lemma_items_wf(xs, xs.len() as int, i);
                law_equality_reflexive(xs[i]);
            }
            law_array_equality(xs, xs);
        },
        ValueModel::Object(es) => {
            assert forall|i: int| 0 <= i < es.len() implies exists|j: int|
                0 <= j < es.len() && #[trigger] es[j].0 == (#[trigger] es[i]).0 && value_equiv(
                    es[i].1,
                    es[j].1,
                ) by {
                lemma_entries_wf(es, es.len() as int, i);
                assert(decreases_to!(v => es));
                assert(decreases_to!(es => es[i]));
                assert(decreases_to!(es[i] => es[i].1));
                law_equality_reflexive(es[i].1);
                assert(0 <= i < es.len() && es[i].0 == es[i].0 && value_equiv(es[i].1, es[i].1));
            }
            law_object_equality(es, es);
        },
        _ => {},
    }
}

} // verus!
