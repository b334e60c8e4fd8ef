//! Recursive-descent parsing: from tokens to a JSON value.
use vstd::prelude::*;
use crate::error::{ErrorModel, JsonError};
use crate::number::number_debug;
use crate::text::debug_text;
use crate::tokenizer::{tokenize_text, tokens_model, Token, TokenModel, Tokenizer};
use crate::value::{
    bool_text, entries_insert, lemma_array_model, values_model, JsonObject, JsonValue, ValueModel,
};

verus! {

/// The `Debug` text of a token.
pub open spec fn token_debug(t: TokenModel) -> Seq<char> {
    match t {
        TokenModel::LeftBrace => "LeftBrace"@,
        TokenModel::RightBrace => "RightBrace"@,
        TokenModel::LeftBracket => "LeftBracket"@,
        TokenModel::RightBracket => "RightBracket"@,
        TokenModel::Comma => "Comma"@,
        TokenModel::Colon => "Colon"@,
        TokenModel::String(s) => "String("@ + debug_text(s) + ")"@,
        TokenModel::Number(n) => "Number("@ + number_debug(n) + ")"@,
        TokenModel::Boolean(b) => "Boolean("@ + bool_text(b) + ")"@,
        TokenModel::Null => "Null"@,
    }
}

/// The `Debug` text of a present optional token.
pub open spec fn some_debug(t: TokenModel) -> Seq<char> {
    "Some("@ + token_debug(t) + ")"@
}

/// What a parsing step gives: the outcome, then the position and the
/// position of the last token taken by an advance.
pub type Step<T> = (Result<T, ErrorModel>, int, int);

/// The error of a container that the tokens end inside of, before its
/// closer `exp`.
pub open spec fn unclosed_error(exp: Seq<char>, pos: int) -> ErrorModel {
    ErrorModel::UnexpectedEndOfInput { expected: exp, position: pos }
}

/// A comma at `pos` passes where a token other than `closer` follows it.
pub open spec fn trailing_comma_ok(t: Seq<TokenModel>, pos: int, closer: TokenModel) -> bool {
    0 <= pos && pos + 1 < t.len() && t[pos + 1] != closer
}

/// The error of a comma at `pos` that nothing or `closer` follows.
pub open spec fn trailing_comma_error(pos: int, exp: Seq<char>) -> ErrorModel {
    ErrorModel::UnexpectedToken { expected: exp, found: "Comma"@, position: pos }
}

/// The error where a value is followed by a token other than a comma (or the
/// closing bracket), if it is.
pub open spec fn missing_comma(t: Seq<TokenModel>, p: int) -> Option<ErrorModel> {
    if 0 <= p < t.len() && t[p] != TokenModel::Comma {
        Some(
            ErrorModel::UnexpectedToken {
                expected: "Comma"@,
                found: token_debug(t[p]),
                position: p,
            },
        )
    } else {
        None
    }
}

/// Parses one value from position `pos` of the tokens `t`.
pub open spec fn parse_value_at(t: Seq<TokenModel>, pos: int, prev: int) -> Step<ValueModel>
    decreases t.len() - pos, 0int,
{
    if pos < 0 || pos >= t.len() {
        (Err(ErrorModel::InvalidPosition { position: pos }), pos, prev)
    } else {
        match t[pos] {
            TokenModel::String(s) => (Ok(ValueModel::String(s)), pos + 1, pos),
            TokenModel::Number(n) => (Ok(ValueModel::Number(n)), pos + 1, pos),
            TokenModel::Boolean(b) => (Ok(ValueModel::Boolean(b)), pos + 1, pos),
            TokenModel::Null => (Ok(ValueModel::Null), pos + 1, pos),
            TokenModel::LeftBracket => {
                let (r, p2, v2) = parse_array_at(t, pos + 1, pos, seq![]);
                (
                    match r {
                        Ok(items) => Ok(ValueModel::Array(items)),
                        Err(e) => Err(e),
                    },
                    p2,
                    v2,
                )
            },
            TokenModel::LeftBrace => {
                let (r, p2, v2) = parse_object_at(t, pos + 1, pos, seq![]);
                (
                    match r {
                        Ok(entries) => Ok(ValueModel::Object(entries)),
                        Err(e) => Err(e),
                    },
                    p2,
                    v2,
                )
            },
            other => (
                Err(
                    ErrorModel::UnexpectedToken {
                        expected: "valid JSON token"@,
                        found: some_debug(other),
                        position: pos,
                    },
                ),
                pos + 1,
                pos,
            ),
        }
    }
}

/// Parses the rest of an array from `pos` (just past `[` or inside the
/// array), after the items `acc`.
pub open spec fn parse_array_at(
    t: Seq<TokenModel>,
    pos: int,
    prev: int,
    acc: Seq<ValueModel>,
) -> Step<Seq<ValueModel>>
    decreases t.len() - pos, 1int,
{
    if pos < 0 || pos >= t.len() {
        (Err(unclosed_error("RightBracket"@, pos)), pos, prev)
    } else {
        match t[pos] {
            TokenModel::RightBracket => (Ok(acc), pos + 1, pos),
            TokenModel::Comma => if trailing_comma_ok(t, pos, TokenModel::RightBracket) {
                parse_array_at(t, pos + 1, prev, acc)
            } else {
                (Err(trailing_comma_error(pos, "RightBracket"@)), pos, prev)
            },
            _ => {
                let (r, p2, v2) = parse_value_at(t, pos, prev);
                match r {
                    Err(e) => (Err(e), p2, v2),
                    Ok(v) => if !(pos < p2 <= t.len()) {
                        (Err(ErrorModel::InvalidPosition { position: p2 }), p2, v2)
                    } else if p2 < t.len() && t[p2] == TokenModel::RightBracket {
                        parse_array_at(t, p2, v2, acc.push(v))
                    } else {
                        match missing_comma(t, p2) {
                            Some(e) => (Err(e), p2, v2),
                            None => parse_array_at(t, p2, v2, acc.push(v)),
                        }
                    },
                }
            },
        }
    }
}

/// Parses the rest of an object from `pos` (just past `{` or inside the
/// object), after the entries `acc`.
pub open spec fn parse_object_at(
    t: Seq<TokenModel>,
    pos: int,
    prev: int,
    acc: Seq<(Seq<char>, ValueModel)>,
) -> Step<Seq<(Seq<char>, ValueModel)>>
    decreases t.len() - pos, 1int,
{
    if pos < 0 || pos >= t.len() {
        (Err(unclosed_error("RightBrace"@, pos)), pos, prev)
    } else {
        match t[pos] {
            TokenModel::String(k) => {
                let p1 = pos + 1;
                if p1 >= t.len() {
                    (Err(ErrorModel::ExpectedColon { position: prev }), p1, prev)
                } else if t[p1] != TokenModel::Colon {
                    (
                        Err(
                            ErrorModel::UnexpectedToken {
                                expected: "Colon"@,
                                found: token_debug(t[p1]),
                                position: p1,
                            },
                        ),
                        p1,
                        prev,
                    )
                } else {
                    let (r, p3, v3) = parse_member_value(t, p1 + 1, prev);
                    match r {
                        Err(e) => (Err(e), p3, v3),
                        Ok(ov) => {
                            let acc2 = match ov {
                                Some(v) => entries_insert(acc, k, v),
                                None => acc,
                            };
                            if !(pos < p3 <= t.len()) {
                                (Err(ErrorModel::InvalidPosition { position: p3 }), p3, v3)
                            } else {
                                parse_object_at(t, p3, v3, acc2)
                            }
                        },
                    }
                }
            },
            TokenModel::Comma => if trailing_comma_ok(t, pos, TokenModel::RightBrace) {
                parse_object_at(t, pos + 1, prev, acc)
            } else {
                (Err(trailing_comma_error(pos, "RightBrace"@)), pos, prev)
            },
            TokenModel::RightBrace => (Ok(acc), pos + 1, prev),
            other => (
                Err(
                    ErrorModel::UnexpectedToken {
                        expected: "String"@,
                        found: some_debug(other),
                        position: pos,
                    },
                ),
                pos,
                prev,
            ),
        }
    }
}

/// Parses the value of an object entry from `pos` (just past the colon):
/// commas before it are skipped; `None` where the tokens end first.
pub open spec fn parse_member_value(t: Seq<TokenModel>, pos: int, prev: int) -> Step<
    Option<ValueModel>,
>
    decreases t.len() - pos, 1int,
{
    if pos < 0 || pos >= t.len() {
        (Ok(None), pos, prev)
    } else {
        match t[pos] {
            TokenModel::Comma => if trailing_comma_ok(t, pos, TokenModel::RightBrace) {
                parse_member_value(t, pos + 1, prev)
            } else {
                (Err(trailing_comma_error(pos, "RightBrace"@)), pos, prev)
            },
            _ => {
                let (r, p2, v2) = parse_value_at(t, pos, prev);
                match r {
                    Err(e) => (Err(e), p2, v2),
                    Ok(v) => if p2 < t.len() && t[p2] == TokenModel::RightBrace {
                        (Ok(Some(v)), p2, v2)
                    } else {
                        match missing_comma(t, p2) {
                            Some(e) => (Err(e), p2, v2),
                            None => (Ok(Some(v)), p2, v2),
                        }
                    },
                }
            },
        }
    }
}

/// A successful parse moves on, and no parse moves past the end.
pub proof fn lemma_parse_value_bounds(t: Seq<TokenModel>, pos: int, prev: int)
    requires
        0 <= pos <= t.len(),
    ensures
        pos <= parse_value_at(t, pos, prev).1 <= t.len(),
        parse_value_at(t, pos, prev).0 is Ok ==> pos < parse_value_at(t, pos, prev).1,
    decreases t.len() - pos, 0int,
{
    if pos < t.len() {
        match t[pos] {
            TokenModel::LeftBracket => lemma_parse_array_bounds(t, pos + 1, pos, seq![]),
            TokenModel::LeftBrace => lemma_parse_object_bounds(t, pos + 1, pos, seq![]),
            _ => {},
        }
    }
}

pub proof fn lemma_parse_array_bounds(
    t: Seq<TokenModel>,
    pos: int,
    prev: int,
    acc: Seq<ValueModel>,
)
    requires
        0 <= pos <= t.len(),
    ensures
        pos <= parse_array_at(t, pos, prev, acc).1 <= t.len(),
    decreases t.len() - pos, 1int,
{
    if pos < t.len() {
        match t[pos] {
            TokenModel::RightBracket => {},
            TokenModel::Comma => {
                if trailing_comma_ok(t, pos, TokenModel::RightBracket) {
                    lemma_parse_array_bounds(t, pos + 1, prev, acc);
                }
            },
            _ => {
                lemma_parse_value_bounds(t, pos, prev);
                let (r, p2, v2) = parse_value_at(t, pos, prev);
                if r is Ok && pos < p2 <= t.len() {
                    lemma_parse_array_bounds(t, p2, v2, acc.push(r->Ok_0));
                }
            },
        }
    }
}

pub proof fn lemma_parse_object_bounds(
    t: Seq<TokenModel>,
    pos: int,
    prev: int,
    acc: Seq<(Seq<char>, ValueModel)>,
)
    requires
        0 <= pos <= t.len(),
    ensures
        pos <= parse_object_at(t, pos, prev, acc).1 <= t.len(),
    decreases t.len() - pos, 1int,
{
    if pos < t.len() {
        match t[pos] {
            TokenModel::String(k) => {
                if pos + 1 < t.len() && t[pos + 1] == TokenModel::Colon {
                    lemma_parse_member_bounds(t, pos + 2, prev);
                    let (r, p3, v3) = parse_member_value(t, pos + 2, prev);
                    if r is Ok && pos < p3 <= t.len() {
                        let acc2 = match r->Ok_0 {
                            Some(v) => entries_insert(acc, k, v),
                            None => acc,
                        };
                        lemma_parse_object_bounds(t, p3, v3, acc2);
                    }
                }
            },
            TokenModel::Comma => {
                if trailing_comma_ok(t, pos, TokenModel::RightBrace) {
                    lemma_parse_object_bounds(t, pos + 1, prev, acc);
                }
            },
            _ => {},
        }
    }
}

pub proof fn lemma_parse_member_bounds(t: Seq<TokenModel>, pos: int, prev: int)
    requires
        0 <= pos <= t.len(),
    ensures
        pos <= parse_member_value(t, pos, prev).1 <= t.len(),
    decreases t.len() - pos, 1int,
{
    if pos < t.len() {
        match t[pos] {
            TokenModel::Comma => {
                if trailing_comma_ok(t, pos, TokenModel::RightBrace) {
                    lemma_parse_member_bounds(t, pos + 1, prev);
                }
            },
            _ => {
                lemma_parse_value_bounds(t, pos, prev);
            },
        }
    }
}

/// The rest of an array that reads without error ends with its own
/// closing bracket.
proof fn lemma_array_closed(t: Seq<TokenModel>, pos: int, prev: int, acc: Seq<ValueModel>)
    requires
        parse_array_at(t, pos, prev, acc).0 is Ok,
    ensures
        0 < parse_array_at(t, pos, prev, acc).1 <= t.len(),
        t[parse_array_at(t, pos, prev, acc).1 - 1] == TokenModel::RightBracket,
    decreases t.len() - pos,
{
    if 0 <= pos < t.len() {
        match t[pos] {
            TokenModel::RightBracket => {},
            TokenModel::Comma => {
                lemma_array_closed(t, pos + 1, prev, acc);
            },
            _ => {
                lemma_parse_value_bounds(t, pos, prev);
                let (r, p2, v2) = parse_value_at(t, pos, prev);
                lemma_array_closed(t, p2, v2, acc.push(r->Ok_0));
            },
        }
    }
}

/// The rest of an object that reads without error ends with its own
/// closing brace.
proof fn lemma_object_closed(
    t: Seq<TokenModel>,
    pos: int,
    prev: int,
    acc: Seq<(Seq<char>, ValueModel)>,
)
    requires
        parse_object_at(t, pos, prev, acc).0 is Ok,
    ensures
        0 < parse_object_at(t, pos, prev, acc).1 <= t.len(),
        t[parse_object_at(t, pos, prev, acc).1 - 1] == TokenModel::RightBrace,
    decreases t.len() - pos,
{
    if 0 <= pos < t.len() {
        match t[pos] {
            TokenModel::String(k) => {
                let (r, p3, v3) = parse_member_value(t, pos + 2, prev);
                let acc2 = match r->Ok_0 {
                    Some(v) => entries_insert(acc, k, v),
                    None => acc,
                };
                lemma_object_closed(t, p3, v3, acc2);
            },
            TokenModel::Comma => {
                lemma_object_closed(t, pos + 1, prev, acc);
            },
            _ => {},
        }
    }
}

/// A container that reads without error ends with its own closer: where
/// the tokens run out inside an array or an object, at any depth, the read
/// fails.
pub proof fn law_parsed_container_is_closed(t: Seq<TokenModel>, pos: int, prev: int)
    requires
        0 <= pos < t.len(),
        parse_value_at(t, pos, prev).0 is Ok,
    ensures
        t[pos] == TokenModel::LeftBracket ==> t[parse_value_at(t, pos, prev).1 - 1]
            == TokenModel::RightBracket,
        t[pos] == TokenModel::LeftBrace ==> t[parse_value_at(t, pos, prev).1 - 1]
            == TokenModel::RightBrace,
{
    if t[pos] == TokenModel::LeftBracket {
        lemma_array_closed(t, pos + 1, pos, seq![]);
    } else if t[pos] == TokenModel::LeftBrace {
        lemma_object_closed(t, pos + 1, pos, seq![]);
    }
}

/// A token that can end a value: a string, a number, a keyword, or a
/// closing bracket or brace.
pub open spec fn can_end_value(t: TokenModel) -> bool {
    t is String || t is Number || t is Boolean || t is Null || t is RightBracket || t is RightBrace
}

/// A token that can start a value: a string, a number, a keyword, or an
/// opening bracket or brace.
pub open spec fn can_start_value(t: TokenModel) -> bool {
    t is String || t is Number || t is Boolean || t is Null || t is LeftBracket || t is LeftBrace
}

/// Between `lo` and `hi`, no token that can end a value is directly
/// followed by one that can start a value.
pub open spec fn separated(t: Seq<TokenModel>, lo: int, hi: int) -> bool {
    forall|k: int|
        lo <= k && k + 1 < hi ==> !(can_end_value(#[trigger] t[k]) && can_start_value(t[k + 1]))
}

proof fn lemma_separated_join(t: Seq<TokenModel>, a: int, b: int, c: int)
    requires
        a <= b <= c,
        separated(t, a, b),
        separated(t, b, c),
        a < b < c ==> !(can_end_value(t[b - 1]) && can_start_value(t[b])),
    ensures
        separated(t, a, c),
{
    assert forall|k: int| a <= k && k + 1 < c implies !(can_end_value(#[trigger] t[k])
        && can_start_value(t[k + 1])) by {
        if k + 1 < b {
        } else if k >= b {
        } else {
            assert(k == b - 1);
        }
    }
}

proof fn lemma_value_separated(t: Seq<TokenModel>, pos: int, prev: int)
    requires
        0 <= pos <= t.len(),
        parse_value_at(t, pos, prev).0 is Ok,
    ensures
        separated(t, pos, parse_value_at(t, pos, prev).1),
    decreases t.len() - pos, 0int,
{
    lemma_parse_value_bounds(t, pos, prev);
    match t[pos] {
        TokenModel::LeftBracket => {
            lemma_array_separated(t, pos + 1, pos, seq![]);
            lemma_parse_array_bounds(t, pos + 1, pos, seq![]);
            lemma_separated_join(t, pos, pos + 1, parse_value_at(t, pos, prev).1);
        },
        TokenModel::LeftBrace => {
            lemma_object_separated(t, pos + 1, pos, seq![]);
            lemma_parse_object_bounds(t, pos + 1, pos, seq![]);
            lemma_separated_join(t, pos, pos + 1, parse_value_at(t, pos, prev).1);
        },
        _ => {},
    }
}

proof fn lemma_array_separated(t: Seq<TokenModel>, pos: int, prev: int, acc: Seq<ValueModel>)
    requires
        0 <= pos <= t.len(),
        parse_array_at(t, pos, prev, acc).0 is Ok,
    ensures
        separated(t, pos, parse_array_at(t, pos, prev, acc).1),
    decreases t.len() - pos, 1int,
{
    lemma_parse_array_bounds(t, pos, prev, acc);
    let end = parse_array_at(t, pos, prev, acc).1;
    if pos < t.len() {
        match t[pos] {
            TokenModel::RightBracket => {},
            TokenModel::Comma => {
                lemma_array_separated(t, pos + 1, prev, acc);
                lemma_parse_array_bounds(t, pos + 1, prev, acc);
                lemma_separated_join(t, pos, pos + 1, end);
            },
            _ => {
                lemma_parse_value_bounds(t, pos, prev);
                lemma_value_separated(t, pos, prev);
                let (r, p2, v2) = parse_value_at(t, pos, prev);
                lemma_array_separated(t, p2, v2, acc.push(r->Ok_0));
                lemma_parse_array_bounds(t, p2, v2, acc.push(r->Ok_0));
                lemma_separated_join(t, pos, p2, end);
            },
        }
    }
}

proof fn lemma_object_separated(
    t: Seq<TokenModel>,
    pos: int,
    prev: int,
    acc: Seq<(Seq<char>, ValueModel)>,
)
    requires
        0 <= pos <= t.len(),
        parse_object_at(t, pos, prev, acc).0 is Ok,
    ensures
        separated(t, pos, parse_object_at(t, pos, prev, acc).1),
    decreases t.len() - pos, 1int,
{
    lemma_parse_object_bounds(t, pos, prev, acc);
    let end = parse_object_at(t, pos, prev, acc).1;
    if pos < t.len() {
        match t[pos] {
            TokenModel::String(k) => {
                lemma_member_separated(t, pos + 2, prev);
                lemma_parse_member_bounds(t, pos + 2, prev);
                let (r, p3, v3) = parse_member_value(t, pos + 2, prev);
                let acc2 = match r->Ok_0 {
                    Some(v) => entries_insert(acc, k, v),
                    None => acc,
                };
                lemma_object_separated(t, p3, v3, acc2);
                lemma_parse_object_bounds(t, p3, v3, acc2);
                lemma_separated_join(t, pos, pos + 1, pos + 2);
                lemma_separated_join(t, pos, pos + 2, p3);
                lemma_separated_join(t, pos, p3, end);
            },
            TokenModel::Comma => {
                lemma_object_separated(t, pos + 1, prev, acc);
                lemma_parse_object_bounds(t, pos + 1, prev, acc);
                lemma_separated_join(t, pos, pos + 1, end);
            },
            _ => {},
        }
    }
}

proof fn lemma_member_separated(t: Seq<TokenModel>, pos: int, prev: int)
    requires
        0 <= pos <= t.len(),
        parse_member_value(t, pos, prev).0 is Ok,
    ensures
        separated(t, pos, parse_member_value(t, pos, prev).1),
        parse_member_value(t, pos, prev).1 < t.len() ==> !can_start_value(
            t[parse_member_value(t, pos, prev).1],
        ),
    decreases t.len() - pos, 1int,
{
    lemma_parse_member_bounds(t, pos, prev);
    if pos < t.len() {
        match t[pos] {
            TokenModel::Comma => {
                lemma_member_separated(t, pos + 1, prev);
                lemma_parse_member_bounds(t, pos + 1, prev);
                lemma_separated_join(t, pos, pos + 1, parse_member_value(t, pos, prev).1);
            },
            _ => {
                lemma_value_separated(t, pos, prev);
            },
        }
    }
}

/// In the tokens of a value that reads without error, a token that can end
/// a value is never directly followed by one that can start a value: the
/// items of an array, and the entries of an object, stand apart by commas
/// (`[1 2]` and `{"a": 1 "b": 2}` do not read).
pub proof fn law_values_separated(t: Seq<TokenModel>, pos: int, prev: int)
    requires
        0 <= pos <= t.len(),
        parse_value_at(t, pos, prev).0 is Ok,
    ensures
        forall|k: int|
            pos <= k && k + 1 < parse_value_at(t, pos, prev).1 ==> !(can_end_value(#[trigger] t[k])
                && can_start_value(t[k + 1])),
{
    lemma_value_separated(t, pos, prev);
}

/// A comma that directly precedes the closing bracket of the array, or the
/// closing brace of the object, being read is rejected.
pub proof fn law_trailing_comma_rejected(t: Seq<TokenModel>, pos: int, prev: int)
    requires
        0 <= pos,
        pos + 1 < t.len(),
        t[pos] == TokenModel::Comma,
    ensures
        t[pos + 1] == TokenModel::RightBracket ==> forall|acc: Seq<ValueModel>|
            #[trigger] parse_array_at(t, pos, prev, acc).0 is Err,
        t[pos + 1] == TokenModel::RightBrace ==> (forall|acc: Seq<(Seq<char>, ValueModel)>|
            #[trigger] parse_object_at(t, pos, prev, acc).0 is Err) && parse_member_value(
            t,
            pos,
            prev,
        ).0 is Err,
{
}

/// The value of a parsing outcome.
pub open spec fn value_outcome(res: Result<JsonValue, JsonError>) -> Result<ValueModel, ErrorModel> {
    match res {
        Ok(v) => Ok(v@),
        Err(e) => Err(e@),
    }
}

/// The `Debug` text of a token.
fn debug_token(t: &Token) -> (r: String)
    ensures
        r@ == token_debug(t@),
{
    let mut out = String::new();
    match t {
        Token::LeftBrace => out.push_str("LeftBrace"),
        Token::RightBrace => out.push_str("RightBrace"),
        Token::LeftBracket => out.push_str("LeftBracket"),
        Token::RightBracket => out.push_str("RightBracket"),
        Token::Comma => out.push_str("Comma"),
        Token::Colon => out.push_str("Colon"),
        Token::String(s) => {
            out.push_str("String(");
            let d = crate::text::debug_quoted(s.as_str());
            out.push_str(d.as_str());
            out.push_str(")");
        },
        Token::Number(n) => {
            out.push_str("Number(");
            let d = n.debug_form();
            out.push_str(d.as_str());
            out.push_str(")");
        },
        Token::Boolean(b) => {
            out.push_str("Boolean(");
            if *b {
                out.push_str("true");
                proof {
                    reveal_strlit("true");
                    assert("true"@ =~= bool_text(true));
                }
            } else {
                out.push_str("false");
                proof {
                    reveal_strlit("false");
                    assert("false"@ =~= bool_text(false));
                }
            }
            out.push_str(")");
        },
        Token::Null => out.push_str("Null"),
    }
    proof {
        assert(out@ =~= token_debug(t@));
    }
    out
}

/// The `Debug` text of a present optional token.
fn debug_some(t: &Token) -> (r: String)
    ensures
        r@ == some_debug(t@),
{
    let mut out = String::new();
    out.push_str("Some(");
    let d = debug_token(t);
    out.push_str(d.as_str());
    out.push_str(")");
    assert(out@ =~= some_debug(t@));
    out
}

/// Builds JSON values from the tokens of a text.
pub struct JsonParser {
    tokens: Vec<Token>,
    position: usize,
    previous: usize,
}

impl JsonParser {
    #[verifier::type_invariant]
    spec fn inv(self) -> bool {
        &&& self.position <= self.tokens@.len()
        &&& self.tokens@.len() <= usize::MAX
    }

    /// The tokens being parsed.
    pub closed spec fn tokens(&self) -> Seq<TokenModel> {
        tokens_model(self.tokens@)
    }

    /// The position of the next token.
    pub closed spec fn pos(&self) -> int {
        self.position as int
    }

    /// The position of the token most recently taken by an advance.
    pub closed spec fn prev(&self) -> int {
        self.previous as int
    }

    /// A parser over the tokens of `input`. Fails with the tokenizer's error,
    /// or where the input holds no token at all.
    pub fn new(input: &str) -> (res: Result<JsonParser, JsonError>)
        requires
            input@.len() < usize::MAX,
        ensures
            match tokenize_text(input@) {
                Err(e) => res matches Err(x) && x@ == e,
                Ok(ts) => if ts.len() == 0 {
                    res matches Err(x) && x@ == ErrorModel::UnexpectedEndOfInput {
                        expected: "JSON value"@,
                        position: 0,
                    }
                } else {
                    res matches Ok(p) && p.tokens() == ts && p.pos() == 0 && p.prev() == 0
                },
            },
    {
        let mut json_tokenizer = Tokenizer::new(input);
        let json_tokens = json_tokenizer.tokenize()?;
        if json_tokens.len() == 0 {
            return Err(
                JsonError::UnexpectedEndOfInput {
                    expected: String::from_str("JSON value"),
                    position: 0,
                },
            );
        }
        Ok(JsonParser { tokens: json_tokens, position: 0, previous: 0 })
    }

    /// Parses the next value of the token stream. Calls one after the other
    /// read the values of a text like `1 2 3` in turn; at the end of the
    /// tokens the result is `InvalidPosition`.
    pub fn parse(&mut self) -> (res: Result<JsonValue, JsonError>)
        ensures
            final(self).tokens() == old(self).tokens(),
            (value_outcome(res), final(self).pos(), final(self).prev()) == parse_value_at(
                old(self).tokens(),
                old(self).pos(),
                old(self).prev(),
            ),
        decreases old(self).tokens().len() - old(self).pos(), 0int,
    {
        proof {
            use_type_invariant(&*self);
        }
        if self.is_at_end() {
            return Err(JsonError::InvalidPosition { position: self.position });
        }
        let token = self.advance();
        match token {
            Token::String(s) => Ok(JsonValue::String(s)),
            Token::Number(n) => Ok(JsonValue::Number(n)),
            Token::Boolean(b) => Ok(JsonValue::Boolean(b)),
            Token::Null => Ok(JsonValue::Null),
            Token::LeftBracket => {
                let json_array = self.parse_array()?;
                proof {
                    lemma_array_model(json_array);
                }
                Ok(JsonValue::Array(json_array))
            },
            Token::LeftBrace => {
                let json_object = self.parse_object()?;
                Ok(JsonValue::Object(json_object))
            },
            other => Err(
                JsonError::UnexpectedToken {
                    expected: String::from_str("valid JSON token"),
                    found: debug_some(&other),
                    position: self.previous,
                },
            ),
        }
    }

    fn parse_array(&mut self) -> (res: Result<Vec<JsonValue>, JsonError>)
        ensures
            final(self).tokens() == old(self).tokens(),
            (
                match res {
                    Ok(a) => Ok(values_model(a@)),
                    Err(e) => Err(e@),
                },
                final(self).pos(),
                final(self).prev(),
            ) == parse_array_at(old(self).tokens(), old(self).pos(), old(self).prev(), seq![]),
        decreases old(self).tokens().len() - old(self).pos(), 1int,
    {
        proof {
            use_type_invariant(&*self);
        }
        let ghost t = self.tokens();
        let ghost p0 = self.pos();
        let ghost v0 = self.prev();
        let mut json_array: Vec<JsonValue> = Vec::new();
        let mut closed = false;
        assert(values_model(json_array@) =~= seq![]);
        loop
            invariant_except_break
                !closed,
                parse_array_at(t, p0, v0, seq![]) == parse_array_at(
                    t,
                    self.pos(),
                    self.prev(),
                    values_model(json_array@),
                ),
            invariant
                self.tokens() == t,
                t == old(self).tokens(),
                p0 == old(self).pos(),
                v0 == old(self).prev(),
                p0 <= self.pos() <= t.len(),
                t.len() == self.tokens@.len(),
            ensures
                self.tokens() == t,
                p0 <= self.pos() <= t.len(),
                parse_array_at(t, p0, v0, seq![]) == (
                    if !closed {
                        Err(unclosed_error("RightBracket"@, self.pos()))
                    } else {
                        Ok(values_model(json_array@))
                    },
                    self.pos(),
                    self.prev(),
                ),
            decreases t.len() - self.pos(),
        {
            proof {
                use_type_invariant(&*self);
            }
            if self.is_at_end() {
                break;
            }
            let ghost p = self.pos();
            let ghost pv = self.prev();
            let ghost acc = values_model(json_array@);
            if self.is_token(Kind::RightBracket) {
                self.advance();
                closed = true;
                break;
            } else if self.is_token(Kind::Comma) {
                self.trailing_comma(&Token::RightBracket, "RightBracket")?;
                self.position += 1;
            } else {
                let item = self.parse()?;
                proof {
                    lemma_parse_value_bounds(t, p, pv);
                }
                json_array.push(item);
                proof {
                    assert(values_model(json_array@) =~= acc.push(item@));
                }
                if !self.is_token(Kind::RightBracket) {
                    self.missing_comma()?;
                }
            }
        }
        self.is_unclosed(closed, "RightBracket")?;
        Ok(json_array)
    }

    fn parse_object_value(&mut self) -> (res: Result<Option<JsonValue>, JsonError>)
        ensures
            final(self).tokens() == old(self).tokens(),
            (
                match res {
                    Ok(Some(v)) => Ok(Some(v@)),
                    Ok(None) => Ok(None),
                    Err(e) => Err(e@),
                },
                final(self).pos(),
                final(self).prev(),
            ) == parse_member_value(old(self).tokens(), old(self).pos(), old(self).prev()),
        decreases old(self).tokens().len() - old(self).pos(), 1int,
    {
        proof {
            use_type_invariant(&*self);
        }
        let ghost t = self.tokens();
        let ghost p0 = self.pos();
        let ghost v0 = self.prev();
        loop
            invariant
                self.tokens() == t,
                t == old(self).tokens(),
                p0 == old(self).pos(),
                v0 == old(self).prev(),
                p0 <= self.pos() <= t.len(),
                t.len() == self.tokens@.len(),
                parse_member_value(t, p0, v0) == parse_member_value(t, self.pos(), self.prev()),
            decreases t.len() - self.pos(),
        {
            proof {
                use_type_invariant(&*self);
            }
            if self.is_at_end() {
                return Ok(None);
            }
            if self.is_token(Kind::Comma) {
                self.trailing_comma(&Token::RightBrace, "RightBrace")?;
                self.position += 1;
            } else {
                let value = self.parse()?;
                if !self.is_token(Kind::RightBrace) {
                    self.missing_comma()?;
                }
                return Ok(Some(value));
            }
        }
    }

    fn parse_object(&mut self) -> (res: Result<JsonObject, JsonError>)
        ensures
            final(self).tokens() == old(self).tokens(),
            res matches Ok(o) ==> o.wf(),
            (
                match res {
                    Ok(o) => Ok(o.model()),
                    Err(e) => Err(e@),
                },
                final(self).pos(),
                final(self).prev(),
            ) == parse_object_at(old(self).tokens(), old(self).pos(), old(self).prev(), seq![]),
        decreases old(self).tokens().len() - old(self).pos(), 1int,
    {
        proof {
            use_type_invariant(&*self);
        }
        let ghost t = self.tokens();
        let ghost p0 = self.pos();
        let ghost v0 = self.prev();
        let mut json_object = JsonObject::new();
        let mut closed = false;
        loop
            invariant_except_break
                !closed,
                parse_object_at(t, p0, v0, seq![]) == parse_object_at(
                    t,
                    self.pos(),
                    self.prev(),
                    json_object.model(),
                ),
            invariant
                self.tokens() == t,
                t == old(self).tokens(),
                p0 == old(self).pos(),
                v0 == old(self).prev(),
                p0 <= self.pos() <= t.len(),
                t.len() == self.tokens@.len(),
                json_object.wf(),
            ensures
                self.tokens() == t,
                p0 <= self.pos() <= t.len(),
                json_object.wf(),
                parse_object_at(t, p0, v0, seq![]) == (
                    if !closed {
                        Err(unclosed_error("RightBrace"@, self.pos()))
                    } else {
                        Ok(json_object.model())
                    },
                    self.pos(),
                    self.prev(),
                ),
            decreases t.len() - self.pos(),
        {
            proof {
                use_type_invariant(&*self);
            }
            if self.is_at_end() {
                break;
            }
            let mut key = String::new();
            if self.is_token(Kind::Str) {
                match &self.tokens[self.position] {
                    Token::String(s) => key.push_str(s.as_str()),
                    _ => {},
                }
                self.position += 1;
            } else if self.is_token(Kind::Comma) {
                self.trailing_comma(&Token::RightBrace, "RightBrace")?;
                self.position += 1;
                continue;
            } else if self.is_token(Kind::RightBrace) {
                self.position += 1;
                closed = true;
                break;
            } else {
                return Err(
                    JsonError::UnexpectedToken {
                        expected: String::from_str("String"),
                        found: debug_some(&self.tokens[self.position]),
                        position: self.position,
                    },
                );
            }
            if self.parse_separator()? {
                let ghost q = self.pos();
                let ghost w = self.prev();
                let member = self.parse_object_value()?;
                proof {
                    lemma_parse_member_bounds(t, q, w);
                }
                if let Some(value) = member {
                    json_object.insert(key.clone(), value);
                }
            }
        }
        self.is_unclosed(closed, "RightBrace")?;
        Ok(json_object)
    }

    /// Consumes the colon after an object key.
    fn parse_separator(&mut self) -> (res: Result<bool, JsonError>)
        ensures
            final(self).tokens() == old(self).tokens(),
            final(self).prev() == old(self).prev(),
            ({
                let t = old(self).tokens();
                let p = old(self).pos();
                if p >= t.len() {
                    res matches Err(e) && e@ == ErrorModel::ExpectedColon { position: old(self).prev() }
                        && final(self).pos() == p
                } else if t[p] != TokenModel::Colon {
                    res matches Err(e) && e@ == ErrorModel::UnexpectedToken {
                        expected: "Colon"@,
                        found: token_debug(t[p]),
                        position: p,
                    } && final(self).pos() == p
                } else {
                    res == Ok::<bool, JsonError>(true) && final(self).pos() == p + 1
                }
            }),
    {
        proof {
            use_type_invariant(&*self);
        }
        if self.is_at_end() {
            return Err(JsonError::ExpectedColon { position: self.previous });
        }
        if self.is_token(Kind::Colon) {
            self.position += 1;
            Ok(true)
        } else {
            Err(
                JsonError::UnexpectedToken {
                    expected: String::from_str("Colon"),
                    found: debug_token(&self.tokens[self.position]),
                    position: self.position,
                },
            )
        }
    }

    /// Checks the comma at the current position: a token other than `token`
    /// must follow it.
    fn trailing_comma(&self, token: &Token, exp: &str) -> (res: Result<bool, JsonError>)
        ensures
            if trailing_comma_ok(self.tokens(), self.pos(), token@) {
                res == Ok::<bool, JsonError>(false)
            } else {
                res matches Err(e) && e@ == trailing_comma_error(self.pos(), exp@)
            },
    {
        proof {
            use_type_invariant(self);
        }
        if self.tokens.len() > 0 && self.position < self.tokens.len() - 1 && !self.tokens[self.position
            + 1].equals(token) {
            Ok(false)
        } else {
            Err(
                JsonError::UnexpectedToken {
                    expected: exp.to_owned(),
                    found: String::from_str("Comma"),
                    position: self.position,
                },
            )
        }
    }

    /// The check made when a container's loop ends: it fails, at the
    /// current position, where the container's own closer was not read.
    fn is_unclosed(&self, closed: bool, exp: &str) -> (res: Result<bool, JsonError>)
        ensures
            if closed {
                res == Ok::<bool, JsonError>(true)
            } else {
                res matches Err(e) && e@ == unclosed_error(exp@, self.pos())
            },
    {
        if closed {
            Ok(true)
        } else {
            Err(
                JsonError::UnexpectedEndOfInput {
                    expected: exp.to_owned(),
                    position: self.position,
                },
            )
        }
    }

    /// Checks what follows a value: a comma passes (`true`), the end of the
    /// tokens passes (`false`), any other token fails.
    fn missing_comma(&self) -> (res: Result<bool, JsonError>)
        ensures
            match missing_comma(self.tokens(), self.pos()) {
                Some(e) => res matches Err(x) && x@ == e,
                None => res == Ok::<bool, JsonError>(self.pos() < self.tokens().len()),
            },
    {
        if self.position < self.tokens.len() {
            if self.is_token(Kind::Comma) {
                Ok(true)
            } else {
                Err(
                    JsonError::UnexpectedToken {
                        expected: String::from_str("Comma"),
                        found: debug_token(&self.tokens[self.position]),
                        position: self.position,
                    },
                )
            }
        } else {
            Ok(false)
        }
    }

    /// Whether the token at the current position is of the given kind.
    fn is_token(&self, kind: Kind) -> (b: bool)
        ensures
            b == (self.pos() < self.tokens().len() && kind_of(self.tokens()[self.pos()]) == kind),
    {
        if self.position < self.tokens.len() {
            let k = token_kind(&self.tokens[self.position]);
            k == kind
        } else {
            false
        }
    }

    /// Takes the token at the current position, which must exist.
    fn advance(&mut self) -> (token: Token)
        requires
            old(self).pos() < old(self).tokens().len(),
        ensures
            final(self).tokens() == old(self).tokens(),
            token@ == old(self).tokens()[old(self).pos()],
            final(self).pos() == old(self).pos() + 1,
            final(self).prev() == old(self).pos(),
    {
        proof {
            use_type_invariant(&*self);
        }
        let token = self.tokens[self.position].duplicate();
        self.position += 1;
        self.previous = self.position - 1;
        token
    }

    fn is_at_end(&self) -> (b: bool)
        ensures
            b == (self.pos() >= self.tokens().len()),
    {
        self.position >= self.tokens.len()
    }
}

/// The kinds of tokens that the parser tells apart by position.
#[derive(PartialEq, Eq, Structural)]
enum Kind {
    RightBracket,
    RightBrace,
    Comma,
    Colon,
    Str,
    Other,
}

spec fn kind_of(t: TokenModel) -> Kind {
    match t {
        TokenModel::RightBracket => Kind::RightBracket,
        TokenModel::RightBrace => Kind::RightBrace,
        TokenModel::Comma => Kind::Comma,
        TokenModel::Colon => Kind::Colon,
        TokenModel::String(_) => Kind::Str,
        _ => Kind::Other,
    }
}

fn token_kind(t: &Token) -> (k: Kind)
    ensures
        k == kind_of(t@),
{
    match t {
        Token::RightBracket => Kind::RightBracket,
        Token::RightBrace => Kind::RightBrace,
        Token::Comma => Kind::Comma,
        Token::Colon => Kind::Colon,
        Token::String(_) => Kind::Str,
        _ => Kind::Other,
    }
}

} // verus!
