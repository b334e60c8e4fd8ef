//! Lexical analysis: from characters to JSON tokens.
use vstd::prelude::*;
use crate::error::{ErrorModel, JsonError};
use crate::number::{
    canonical_number, chars_of, is_number_char, is_valid_number_text, valid_number, JsonNumber,
};
use crate::text::{
    alphabetic, hex_digit_value, hex_value, is_digit, is_digit_char, is_hex_digit,
    is_hex_digit_char, whitespace,
};

verus! {

/// A lexical token of JSON text.
#[derive(Debug, Clone, PartialEq)]
pub enum Token {
    LeftBrace,
    RightBrace,
    LeftBracket,
    RightBracket,
    Comma,
    Colon,
    String(String),
    Number(JsonNumber),
    Boolean(bool),
    Null,
}

/// The mathematical value of a [`Token`].
pub enum TokenModel {
    LeftBrace,
    RightBrace,
    LeftBracket,
    RightBracket,
    Comma,
    Colon,
    String(Seq<char>),
    Number(Seq<char>),
    Boolean(bool),
    Null,
}

impl View for Token {
    type V = TokenModel;

    open spec fn view(&self) -> TokenModel {
        match self {
            Token::LeftBrace => TokenModel::LeftBrace,
            Token::RightBrace => TokenModel::RightBrace,
            Token::LeftBracket => TokenModel::LeftBracket,
            Token::RightBracket => TokenModel::RightBracket,
            Token::Comma => TokenModel::Comma,
            Token::Colon => TokenModel::Colon,
            Token::String(s) => TokenModel::String(s@),
            Token::Number(n) => TokenModel::Number(n@),
            Token::Boolean(b) => TokenModel::Boolean(*b),
            Token::Null => TokenModel::Null,
        }
    }
}

/// The values of a sequence of tokens.
pub open spec fn tokens_model(ts: Seq<Token>) -> Seq<TokenModel> {
    ts.map_values(|t: Token| t@)
}

/// The value of a lexing outcome.
pub open spec fn lex_outcome(res: Result<Vec<Token>, JsonError>) -> Result<Seq<TokenModel>, ErrorModel> {
    match res {
        Ok(ts) => Ok(tokens_model(ts@)),
        Err(e) => Err(e@),
    }
}

/// The error text that names the keywords.
pub open spec fn keywords_expected() -> Seq<char> {
    "\"null\", \"true\", or \"false\""@
}

/// The error text for a character that starts no token.
pub open spec fn any_token_expected() -> Seq<char> {
    "valid JSON token"@
}

/// The position just past the run of number characters that starts at `p`.
pub open spec fn number_end(input: Seq<char>, p: int) -> int
    decreases input.len() - p,
{
    if 0 <= p < input.len() && is_number_char(input[p]) {
        number_end(input, p + 1)
    } else {
        p
    }
}

/// The position just past the run of alphabetic characters that starts at `p`.
pub open spec fn word_end(input: Seq<char>, p: int) -> int
    decreases input.len() - p,
{
    if 0 <= p < input.len() && alphabetic(input[p]) {
        word_end(input, p + 1)
    } else {
        p
    }
}

/// The token that a keyword names, if it names one.
pub open spec fn keyword_token(w: Seq<char>) -> Option<TokenModel> {
    if w == seq!['n', 'u', 'l', 'l'] {
        Some(TokenModel::Null)
    } else if w == seq!['t', 'r', 'u', 'e'] {
        Some(TokenModel::Boolean(true))
    } else if w == seq!['f', 'a', 'l', 's', 'e'] {
        Some(TokenModel::Boolean(false))
    } else {
        None
    }
}

/// The character that a one-character escape (the character after `\`) stands for.
pub open spec fn simple_escape(c: char) -> Option<char> {
    if c == '"' {
        Some('"')
    } else if c == '\\' {
        Some('\\')
    } else if c == '/' {
        Some('/')
    } else if c == 'b' {
        Some('\x08')
    } else if c == 'f' {
        Some('\x0C')
    } else if c == 'n' {
        Some('\n')
    } else if c == 'r' {
        Some('\r')
    } else if c == 't' {
        Some('\t')
    } else {
        None
    }
}

/// Reads the hexadecimal digits of a `\u` escape from position `r` on:
/// characters are consumed until four hex digits were collected or the input
/// ends, and characters that are no hex digit are skipped. Gives the digits
/// and the position after the last consumed character.
pub open spec fn scan_hex(input: Seq<char>, r: int, hex: Seq<char>) -> (Seq<char>, int)
    decreases input.len() - r,
{
    if r < 0 || r >= input.len() || hex.len() > 3 {
        (hex, r)
    } else {
        scan_hex(
            input,
            r + 1,
            if is_hex_digit(input[r]) {
                hex.push(input[r])
            } else {
                hex
            },
        )
    }
}

/// The number that a sequence of hex digits writes.
pub open spec fn hex_number(hex: Seq<char>) -> nat
    decreases hex.len(),
{
    if hex.len() == 0 {
        0
    } else {
        hex_number(hex.drop_last()) * 16 + hex_digit_value(hex.last())
    }
}

/// The text that a code point decodes to: the character itself when the code
/// point is a Unicode scalar value, and nothing otherwise.
pub open spec fn code_point_text(v: nat) -> Seq<char> {
    if v < 0xD800 || (0xE000 <= v && v <= 0x10FFFF) {
        seq![v as char]
    } else {
        seq![]
    }
}

/// Decodes the escape whose backslash stands at `p`: the decoded text and the
/// position after the escape, or the error.
pub open spec fn lex_escape(input: Seq<char>, p: int) -> (Result<Seq<char>, ErrorModel>, int) {
    let q = p + 2;
    if p + 1 >= input.len() {
        (Err(ErrorModel::InvalidEscape { ch: '?', position: q }), q)
    } else {
        let c = input[p + 1];
        match simple_escape(c) {
            Some(d) => (Ok(seq![d]), q),
            None => if c == 'u' {
                let (hex, r) = scan_hex(input, q, seq![]);
                if hex.len() < 4 {
                    (Err(ErrorModel::InvalidUnicode { sequence: hex, position: r }), r)
                } else {
                    (Ok(code_point_text(hex_number(hex))), r)
                }
            } else {
                (Err(ErrorModel::InvalidEscape { ch: c, position: q }), q)
            },
        }
    }
}

/// The error of a string that the input ends inside of.
pub open spec fn unterminated_string(p: int) -> ErrorModel {
    ErrorModel::UnexpectedEndOfInput { expected: seq!['"'], position: p }
}

pub proof fn lemma_scan_hex_bounds(input: Seq<char>, r: int, hex: Seq<char>)
    requires
        0 <= r,
    ensures
        scan_hex(input, r, hex).1 >= r,
        r <= input.len() ==> scan_hex(input, r, hex).1 <= input.len(),
        scan_hex(input, r, hex).0.len() <= 4 || scan_hex(input, r, hex).0 == hex,
        hex.len() <= 4 ==> scan_hex(input, r, hex).0.len() <= 4,
    decreases input.len() - r,
{
    if r < input.len() && hex.len() <= 3 {
        let next = if is_hex_digit(input[r]) {
            hex.push(input[r])
        } else {
            hex
        };
        lemma_scan_hex_bounds(input, r + 1, next);
    }
}

pub proof fn lemma_lex_escape_advances(input: Seq<char>, p: int)
    requires
        0 <= p,
    ensures
        lex_escape(input, p).1 >= p + 2,
        p < input.len() ==> lex_escape(input, p).1 <= input.len() + 1,
{
    if p + 1 < input.len() && simple_escape(input[p + 1]) is None && input[p + 1] == 'u' {
        lemma_scan_hex_bounds(input, p + 2, seq![]);
    }
}

/// Reads the characters of a string from position `p` (just past the opening
/// quote or inside the string), collecting them after `acc`: the string's text
/// and the position after its closing quote, or the error.
pub open spec fn lex_string(input: Seq<char>, p: int, acc: Seq<char>) -> (
    Result<Seq<char>, ErrorModel>,
    int,
)
    decreases input.len() - p,
{
    if p < 0 || p >= input.len() {
        (Ok(acc), p)
    } else if input[p] == '"' {
        (Ok(acc), p + 1)
    } else if input[p] == '\\' {
        let (r, q) = lex_escape(input, p);
        match r {
            Err(e) => (Err(e), q),
            Ok(text) => if q >= input.len() {
                (Err(unterminated_string(q)), q)
            } else {
                proof {
                    lemma_lex_escape_advances(input, p);
                }
                lex_string(input, q, acc + text)
            },
        }
    } else if p + 1 >= input.len() {
        (Err(unterminated_string(p + 1)), p + 1)
    } else {
        lex_string(input, p + 1, acc.push(input[p]))
    }
}

pub proof fn lemma_lex_string_bounds(input: Seq<char>, p: int, acc: Seq<char>)
    requires
        0 <= p,
    ensures
        lex_string(input, p, acc).1 >= p,
        p <= input.len() ==> (lex_string(input, p, acc).0 is Ok ==> lex_string(
            input,
            p,
            acc,
        ).1 <= input.len()),
        p <= input.len() ==> lex_string(input, p, acc).1 <= input.len() + 1,
    decreases input.len() - p,
{
    if p < input.len() && input[p] != '"' {
        if input[p] == '\\' {
            lemma_lex_escape_advances(input, p);
            let (r, q) = lex_escape(input, p);
            if r is Ok && q < input.len() {
                lemma_lex_string_bounds(input, q, acc + r->Ok_0);
            }
        } else if p + 1 < input.len() {
            lemma_lex_string_bounds(input, p + 1, acc.push(input[p]));
        }
    }
}

pub proof fn lemma_number_end(input: Seq<char>, p: int)
    requires
        0 <= p <= input.len(),
    ensures
        p <= number_end(input, p) <= input.len(),
        p < input.len() && is_number_char(input[p]) ==> number_end(input, p) > p,
        forall|k: int| p <= k < number_end(input, p) ==> is_number_char(#[trigger] input[k]),
        number_end(input, p) < input.len() ==> !is_number_char(input[number_end(input, p)]),
    decreases input.len() - p,
{
    if p < input.len() && is_number_char(input[p]) {
        lemma_number_end(input, p + 1);
    }
}

pub proof fn lemma_word_end(input: Seq<char>, p: int)
    requires
        0 <= p <= input.len(),
    ensures
        p <= word_end(input, p) <= input.len(),
        p < input.len() && alphabetic(input[p]) ==> word_end(input, p) > p,
        forall|k: int| p <= k < word_end(input, p) ==> alphabetic(#[trigger] input[k]),
        word_end(input, p) < input.len() ==> !alphabetic(input[word_end(input, p)]),
    decreases input.len() - p,
{
    if p < input.len() && alphabetic(input[p]) {
        lemma_word_end(input, p + 1);
    }
}

/// Tokenizes the input from position `p` on, after the tokens `acc`: all the
/// tokens and the position where reading stopped, or the first error and the
/// position where it was met.
pub open spec fn lex_from(input: Seq<char>, p: int, acc: Seq<TokenModel>) -> (
    Result<Seq<TokenModel>, ErrorModel>,
    int,
)
    decreases input.len() - p,
{
    if p < 0 || p >= input.len() {
        (Ok(acc), p)
    } else {
        let c = input[p];
        if c == '{' {
            lex_from(input, p + 1, acc.push(TokenModel::LeftBrace))
        } else if c == '}' {
            lex_from(input, p + 1, acc.push(TokenModel::RightBrace))
        } else if c == '[' {
            lex_from(input, p + 1, acc.push(TokenModel::LeftBracket))
        } else if c == ']' {
            lex_from(input, p + 1, acc.push(TokenModel::RightBracket))
        } else if c == ',' {
            lex_from(input, p + 1, acc.push(TokenModel::Comma))
        } else if c == ':' {
            lex_from(input, p + 1, acc.push(TokenModel::Colon))
        } else if c == '"' {
            let (r, q) = lex_string(input, p + 1, seq![]);
            match r {
                Err(e) => (Err(e), q),
                Ok(s) => {
                    proof {
                        lemma_lex_string_bounds(input, p + 1, seq![]);
                    }
                    lex_from(input, q, acc.push(TokenModel::String(s)))
                },
            }
        } else if is_digit(c) || c == '-' {
            let q = number_end(input, p);
            let text = input.subrange(p, q);
            if valid_number(text) {
                proof {
                    lemma_number_end(input, p);
                }
                lex_from(input, q, acc.push(TokenModel::Number(canonical_number(text))))
            } else {
                (Err(ErrorModel::InvalidNumber { value: text, position: q }), q)
            }
        } else if alphabetic(c) {
            let q = word_end(input, p);
            let w = input.subrange(p, q);
            match keyword_token(w) {
                Some(t) => {
                    proof {
                        lemma_word_end(input, p);
                    }
                    lex_from(input, q, acc.push(t))
                },
                None => (
                    Err(
                        ErrorModel::UnexpectedToken {
                            expected: keywords_expected(),
                            found: w,
                            position: p,
                        },
                    ),
                    q,
                ),
            }
        } else if whitespace(c) {
            lex_from(input, p + 1, acc)
        } else {
            (
                Err(
                    ErrorModel::UnexpectedToken {
                        expected: any_token_expected(),
                        found: seq![c],
                        position: p,
                    },
                ),
                p,
            )
        }
    }
}

/// The tokens of a whole text, or the first error in it.
pub open spec fn tokenize_text(input: Seq<char>) -> Result<Seq<TokenModel>, ErrorModel> {
    lex_from(input, 0, seq![]).0
}

pub proof fn lemma_tokens_model_push(ts: Seq<Token>, t: Token)
    ensures
        tokens_model(ts.push(t)) == tokens_model(ts).push(t@),
{
    assert(tokens_model(ts.push(t)) =~= tokens_model(ts).push(t@));
}

/// Turns JSON text into tokens.
pub struct Tokenizer {
    input: Vec<char>,
    position: usize,
}

impl Tokenizer {
    /// The characters being tokenized.
    pub closed spec fn chars(&self) -> Seq<char> {
        self.input@
    }

    /// The position of the next character to read.
    pub closed spec fn pos(&self) -> int {
        self.position as int
    }

    /// A tokenizer at the start of `input`.
    pub fn new(input: &str) -> (t: Self)
        ensures
            t.chars() == input@,
            t.pos() == 0,
    {
        Self { input: chars_of(input), position: 0 }
    }

    /// Reads the tokens from the current position to the end of the input.
    /// The result and the position where reading stops are those of
    /// [`lex_from`].
    pub fn tokenize(&mut self) -> (res: Result<Vec<Token>, JsonError>)
        requires
            old(self).chars().len() < usize::MAX,
        ensures
            final(self).chars() == old(self).chars(),
            (lex_outcome(res), final(self).pos()) == lex_from(
                old(self).chars(),
                old(self).pos(),
                seq![],
            ),
    {
        let mut tokens: Vec<Token> = Vec::new();
        let ghost input = self.input@;
        let ghost start = self.position as int;
        assert(tokens_model(tokens@) =~= seq![]);
        loop
            invariant
                self.input@ == input,
                input == old(self).input@,
                start == old(self).position as int,
                input.len() < usize::MAX,
                lex_from(input, start, seq![]) == lex_from(
                    input,
                    self.position as int,
                    tokens_model(tokens@),
                ),
            decreases input.len() + 1 - self.position,
        {
            let ch = match self.peek() {
                Some(c) => c,
                None => {
                    return Ok(tokens);
                },
            };
            let ghost p = self.position as int;
            let ghost before = tokens@;
            if ch == '{' {
                tokens.push(Token::LeftBrace);
                self.position += 1;
            } else if ch == '}' {
                tokens.push(Token::RightBrace);
                self.position += 1;
            } else if ch == '[' {
                tokens.push(Token::LeftBracket);
                self.position += 1;
            } else if ch == ']' {
                tokens.push(Token::RightBracket);
                self.position += 1;
            } else if ch == ',' {
                tokens.push(Token::Comma);
                self.position += 1;
            } else if ch == ':' {
                tokens.push(Token::Colon);
                self.position += 1;
            } else if ch == '"' {
                self.position += 1;
                let string_value = self.scan_string()?;
                proof {
                    lemma_lex_string_bounds(input, p + 1, seq![]);
                }
                tokens.push(Token::String(string_value));
            } else if is_digit_char(ch) || ch == '-' {
                proof {
                    lemma_number_end(input, p);
                }
                let num = self.parse_number()?;
                tokens.push(Token::Number(num));
            } else if ch.is_alphabetic() {
                proof {
                    lemma_word_end(input, p);
                }
                let keyword = self.parse_keyword()?;
                tokens.push(keyword);
            } else if ch.is_whitespace() {
                self.position += 1;
            } else {
                let mut found = String::new();
                found.push(ch);
                proof {
                    assert(found@ =~= seq![ch]);
                }
                return Err(
                    JsonError::UnexpectedToken {
                        expected: String::from_str("valid JSON token"),
                        found,
                        position: self.position,
                    },
                );
            }
            proof {
                if tokens@.len() > before.len() {
                    lemma_tokens_model_push(before, tokens@.last());
                    assert(tokens@ =~= before.push(tokens@.last()));
                }
            }
        }
    }

    /// Reads the rest of a string whose opening quote was just consumed.
    fn scan_string(&mut self) -> (res: Result<String, JsonError>)
        requires
            old(self).input@.len() < usize::MAX,
            old(self).position <= old(self).input@.len(),
        ensures
            final(self).input@ == old(self).input@,
            (
                match res {
                    Ok(s) => Ok(s@),
                    Err(e) => Err(e@),
                },
                final(self).position as int,
            ) == lex_string(old(self).input@, old(self).position as int, seq![]),
    {
        let ghost input = self.input@;
        let ghost start = self.position as int;
        let mut string_value = String::new();
        loop
            invariant
                self.input@ == input,
                input == old(self).input@,
                start == old(self).position as int,
                input.len() < usize::MAX,
                self.position <= input.len(),
                lex_string(input, start, seq![]) == lex_string(
                    input,
                    self.position as int,
                    string_value@,
                ),
            decreases input.len() - self.position,
        {
            let next_ch = match self.peek() {
                Some(c) => c,
                None => {
                    return Ok(string_value);
                },
            };
            let ghost p = self.position as int;
            let ghost old_value = string_value@;
            if next_ch == '"' {
                self.position += 1;
                return Ok(string_value);
            } else if next_ch == '\\' {
                string_value = self.parse_escape_seq(string_value)?;
                proof {
                    lemma_lex_escape_advances(input, p);
                }
            } else {
                if let Some(c) = self.advance() {
                    string_value.push(c);
                }
            }
            if self.is_at_end() {
                proof {
                    reveal_strlit("\"");
                    assert("\""@ =~= seq!['"']);
                    if input[p] == '\\' {
                        assert(lex_string(input, p, old_value) == lex_string(input, start, seq![]));
                    }
                }
                return Err(
                    JsonError::UnexpectedEndOfInput {
                        expected: String::from_str("\""),
                        position: self.position,
                    },
                );
            }
        }
    }

    /// Decodes the escape whose backslash is the next character, appending
    /// the decoded text to `string_value`.
    fn parse_escape_seq(&mut self, string_value: String) -> (res: Result<String, JsonError>)
        requires
            old(self).input@.len() < usize::MAX,
            old(self).position < old(self).input@.len(),
            old(self).input@[old(self).position as int] == '\\',
        ensures
            final(self).input@ == old(self).input@,
            final(self).position as int == lex_escape(
                old(self).input@,
                old(self).position as int,
            ).1,
            match res {
                Ok(s) => lex_escape(old(self).input@, old(self).position as int).0 matches Ok(
                    text,
                ) && s@ == string_value@ + text,
                Err(e) => lex_escape(old(self).input@, old(self).position as int).0 == Err::<
                    Seq<char>,
                    ErrorModel,
                >(e@),
            },
    {
        let ghost input = self.input@;
        let ghost p = self.position as int;
        let mut string_value = string_value;
        let ghost sv = string_value@;
        self.advance();
        let c = match self.advance() {
            Some(c) => c,
            None => {
                return Err(JsonError::InvalidEscape { char: '?', position: self.position });
            },
        };
        if c == '"' {
            string_value.push('"');
        } else if c == '\\' {
            string_value.push('\\');
        } else if c == '/' {
            string_value.push('/');
        } else if c == 'b' {
            string_value.push('\x08');
        } else if c == 'f' {
            string_value.push('\x0C');
        } else if c == 'n' {
            string_value.push('\n');
        } else if c == 'r' {
            string_value.push('\r');
        } else if c == 't' {
            string_value.push('\t');
        } else if c == 'u' {
            let mut hex_string = String::new();
            let mut hex_len: usize = 0;
            let mut code: u32 = 0;
            let ghost q = self.position as int;
            while !self.is_at_end() && hex_len <= 3
                invariant
                    self.input@ == input,
                    input.len() < usize::MAX,
                    q <= self.position <= input.len(),
                    hex_len == hex_string@.len(),
                    hex_len <= 4,
                    code == hex_number(hex_string@),
                    code < 0x10000,
                    forall|k: int| 0 <= k < hex_string@.len() ==> is_hex_digit(
                        #[trigger] hex_string@[k],
                    ),
                    scan_hex(input, q, seq![]) == scan_hex(
                        input,
                        self.position as int,
                        hex_string@,
                    ),
                decreases input.len() - self.position,
            {
                let ghost before = hex_string@;
                if let Some(c) = self.advance() {
                    if is_hex_digit_char(c) {
                        hex_string.push(c);
                        hex_len = hex_len + 1;
                        let v = hex_value(c);
                        proof {
                            assert(hex_string@.drop_last() =~= before);
                            assert(code < 0x1000) by {
                                lemma_hex_number_bound(before);
                            }
                        }
                        code = code * 16 + v;
                    }
                }
            }
            if hex_len < 4 {
                return Err(
                    JsonError::InvalidUnicode { sequence: hex_string, position: self.position },
                );
            }
            match char::from_u32(code) {
                Some(ch) => {
                    string_value.push(ch);
                    assert(string_value@ =~= sv + code_point_text(hex_number(hex_string@)));
                },
                None => {
                    assert(string_value@ =~= sv + code_point_text(hex_number(hex_string@)));
                },
            }
            return Ok(string_value);
        } else {
            return Err(JsonError::InvalidEscape { char: c, position: self.position });
        }
        proof {
            assert(string_value@ =~= sv + lex_escape(input, p).0->Ok_0);
        }
        Ok(string_value)
    }

    /// Reads a number: the run of digits, `.` and `-` from the current position.
    fn parse_number(&mut self) -> (res: Result<JsonNumber, JsonError>)
        requires
            old(self).position < old(self).input@.len(),
            is_digit(old(self).input@[old(self).position as int]) || old(self).input@[old(
                self,
            ).position as int] == '-',
        ensures
            final(self).input@ == old(self).input@,
            final(self).position as int == number_end(
                old(self).input@,
                old(self).position as int,
            ),
            ({
                let text = old(self).input@.subrange(
                    old(self).position as int,
                    final(self).position as int,
                );
                match res {
                    Ok(n) => valid_number(text) && n@ == canonical_number(text),
                    Err(e) => !valid_number(text) && e@ == ErrorModel::InvalidNumber {
                        value: text,
                        position: final(self).position as int,
                    },
                }
            }),
    {
        let ghost input = self.input@;
        let start = self.position;
        let mut string_value = String::new();
        proof {
            lemma_number_end(input, start as int);
        }
        while self.position < self.input.len() && (is_digit_char(self.input[self.position])
            || self.input[self.position] == '.' || self.input[self.position] == '-')
            invariant
                self.input@ == input,
                start <= self.position <= input.len(),
                number_end(input, start as int) == number_end(input, self.position as int),
                string_value@ == input.subrange(start as int, self.position as int),
            decreases input.len() - self.position,
        {
            string_value.push(self.input[self.position]);
            assert(input.subrange(start as int, self.position + 1) =~= input.subrange(
                start as int,
                self.position as int,
            ).push(input[self.position as int]));
            self.position += 1;
        }
        if is_valid_number_text(&self.input, start, self.position) {
            Ok(JsonNumber::from_chars(&self.input, start, self.position))
        } else {
            Err(JsonError::InvalidNumber { value: string_value, position: self.position })
        }
    }

    /// Reads a keyword: the run of alphabetic characters from the current
    /// position. An unknown word is reported at the position where it starts.
    fn parse_keyword(&mut self) -> (res: Result<Token, JsonError>)
        requires
            old(self).position < old(self).input@.len(),
        ensures
            final(self).input@ == old(self).input@,
            final(self).position as int == word_end(old(self).input@, old(self).position as int),
            ({
                let w = old(self).input@.subrange(
                    old(self).position as int,
                    final(self).position as int,
                );
                match res {
                    Ok(t) => keyword_token(w) == Some(t@),
                    Err(e) => keyword_token(w) is None && e@ == ErrorModel::UnexpectedToken {
                        expected: keywords_expected(),
                        found: w,
                        position: old(self).position as int,
                    },
                }
            }),
    {
        let ghost input = self.input@;
        let start = self.position;
        let mut string_value = String::new();
        while self.position < self.input.len() && self.input[self.position].is_alphabetic()
            invariant
                self.input@ == input,
                start <= self.position <= input.len(),
                word_end(input, start as int) == word_end(input, self.position as int),
                string_value@ == input.subrange(start as int, self.position as int),
            decreases input.len() - self.position,
        {
            string_value.push(self.input[self.position]);
            assert(input.subrange(start as int, self.position + 1) =~= input.subrange(
                start as int,
                self.position as int,
            ).push(input[self.position as int]));
            self.position += 1;
        }
        let ghost w = input.subrange(start as int, self.position as int);
        let n = self.position - start;
        if n == 4 && self.input[start] == 'n' && self.input[start + 1] == 'u' && self.input[start
            + 2] == 'l' && self.input[start + 3] == 'l' {
            assert(w =~= seq!['n', 'u', 'l', 'l']);
            Ok(Token::Null)
        } else if n == 4 && self.input[start] == 't' && self.input[start + 1] == 'r'
            && self.input[start + 2] == 'u' && self.input[start + 3] == 'e' {
            assert(w =~= seq!['t', 'r', 'u', 'e']);
            Ok(Token::Boolean(true))
        } else if n == 5 && self.input[start] == 'f' && self.input[start + 1] == 'a'
            && self.input[start + 2] == 'l' && self.input[start + 3] == 's' && self.input[start
            + 4] == 'e' {
            assert(w =~= seq!['f', 'a', 'l', 's', 'e']);
            Ok(Token::Boolean(false))
        } else {
            assert(keyword_token(w) is None) by {
                if w == seq!['n', 'u', 'l', 'l'] {
                    assert(w[0] == 'n' && w[1] == 'u' && w[2] == 'l' && w[3] == 'l');
                } else if w == seq!['t', 'r', 'u', 'e'] {
                    assert(w[0] == 't' && w[1] == 'r' && w[2] == 'u' && w[3] == 'e');
                } else if w == seq!['f', 'a', 'l', 's', 'e'] {
                    assert(w[0] == 'f' && w[1] == 'a' && w[2] == 'l' && w[3] == 's' && w[4]
                        == 'e');
                }
            }
            Err(
                JsonError::UnexpectedToken {
                    expected: String::from_str("\"null\", \"true\", or \"false\""),
                    found: string_value,
                    position: start,
                },
            )
        }
    }

    /// Moves one position on and gives the character that was there.
    fn advance(&mut self) -> (c: Option<char>)
        requires
            old(self).position < usize::MAX,
        ensures
            final(self).input@ == old(self).input@,
            final(self).position == old(self).position + 1,
            c == (if old(self).position < old(self).input@.len() {
                Some(old(self).input@[old(self).position as int])
            } else {
                None
            }),
    {
        let current_char = self.peek();
        self.position += 1;
        current_char
    }

    /// The character at the current position, if any.
    fn peek(&self) -> (c: Option<char>)
        ensures
            c == (if self.position < self.input@.len() {
                Some(self.input@[self.position as int])
            } else {
                None
            }),
    {
        if self.position < self.input.len() {
            Some(self.input[self.position])
        } else {
            None
        }
    }

    /// Whether all the input has been read.
    fn is_at_end(&self) -> (b: bool)
        ensures
            b == (self.position >= self.input@.len()),
    {
        self.position >= self.input.len()
    }
}

impl Token {
    /// A copy of the token.
    pub fn duplicate(&self) -> (r: Token)
        ensures
            r@ == self@,
    {
        match self {
            Token::LeftBrace => Token::LeftBrace,
            Token::RightBrace => Token::RightBrace,
            Token::LeftBracket => Token::LeftBracket,
            Token::RightBracket => Token::RightBracket,
            Token::Comma => Token::Comma,
            Token::Colon => Token::Colon,
            Token::String(s) => Token::String(s.clone()),
            Token::Number(n) => Token::Number(n.duplicate()),
            Token::Boolean(b) => Token::Boolean(*b),
            Token::Null => Token::Null,
        }
    }

    /// Whether two tokens are equal.
    pub fn equals(&self, other: &Token) -> (b: bool)
        ensures
            b == (self@ == other@),
    {
        match (self, other) {
            (Token::LeftBrace, Token::LeftBrace) => true,
            (Token::RightBrace, Token::RightBrace) => true,
            (Token::LeftBracket, Token::LeftBracket) => true,
            (Token::RightBracket, Token::RightBracket) => true,
            (Token::Comma, Token::Comma) => true,
            (Token::Colon, Token::Colon) => true,
            (Token::String(a), Token::String(b)) => *a == *b,
            (Token::Number(a), Token::Number(b)) => a.same_text(b),
            (Token::Boolean(a), Token::Boolean(b)) => *a == *b,
            (Token::Null, Token::Null) => true,
            _ => false,
        }
    }
}

/// A successful tokenization reads to the end of the input.
pub proof fn lemma_lex_from_ok_reaches_end(input: Seq<char>, p: int, acc: Seq<TokenModel>)
    requires
        0 <= p,
        lex_from(input, p, acc).0 is Ok,
    ensures
        lex_from(input, p, acc).1 >= input.len(),
    decreases input.len() - p,
{
    if p < input.len() {
        let c = input[p];
        if c == '"' {
            lemma_lex_string_bounds(input, p + 1, seq![]);
            let (r, q) = lex_string(input, p + 1, seq![]);
            if r is Ok {
                lemma_lex_from_ok_reaches_end(input, q, acc.push(TokenModel::String(r->Ok_0)));
            }
        } else if is_digit(c) || c == '-' {
            lemma_number_end(input, p);
            let q = number_end(input, p);
            if valid_number(input.subrange(p, q)) {
                lemma_lex_from_ok_reaches_end(
                    input,
                    q,
                    acc.push(TokenModel::Number(canonical_number(input.subrange(p, q)))),
                );
            }
        } else if alphabetic(c) {
            lemma_word_end(input, p);
            let q = word_end(input, p);
            if keyword_token(input.subrange(p, q)) is Some {
                lemma_lex_from_ok_reaches_end(input, q, acc.push(keyword_token(input.subrange(p, q))->Some_0));
            }
        } else if c == '{' {
            lemma_lex_from_ok_reaches_end(input, p + 1, acc.push(TokenModel::LeftBrace));
        } else if c == '}' {
            lemma_lex_from_ok_reaches_end(input, p + 1, acc.push(TokenModel::RightBrace));
        } else if c == '[' {
            lemma_lex_from_ok_reaches_end(input, p + 1, acc.push(TokenModel::LeftBracket));
        } else if c == ']' {
            lemma_lex_from_ok_reaches_end(input, p + 1, acc.push(TokenModel::RightBracket));
        } else if c == ',' {
            lemma_lex_from_ok_reaches_end(input, p + 1, acc.push(TokenModel::Comma));
        } else if c == ':' {
            lemma_lex_from_ok_reaches_end(input, p + 1, acc.push(TokenModel::Colon));
        } else if whitespace(c) {
            lemma_lex_from_ok_reaches_end(input, p + 1, acc);
        }
    }
}

/// A tokenizer whose input was read without error has nothing left: a
/// second reading from where the first stopped gives no token.
pub proof fn law_tokenize_consumes_input(input: Seq<char>, p: int)
    requires
        0 <= p,
        lex_from(input, p, seq![]).0 is Ok,
    ensures
        lex_from(input, lex_from(input, p, seq![]).1, seq![]) == (
            Ok::<Seq<TokenModel>, ErrorModel>(seq![]),
            lex_from(input, p, seq![]).1,
        ),
{
    lemma_lex_from_ok_reaches_end(input, p, seq![]);
}

/// The text `"\uXXXX"`, four hex digits in a `\u` escape inside a string,
/// reads as one string: the character whose code is the number the digits
/// write, where that code is a Unicode scalar value (below U+D800, or from
/// U+E000 to U+10FFFF), and nothing for a surrogate code.
pub proof fn law_unicode_escape(h: Seq<char>)
    requires
        h.len() == 4,
        forall|i: int| 0 <= i < 4 ==> is_hex_digit(#[trigger] h[i]),
    ensures
        ({
            let v = 4096 * hex_digit_value(h[0]) + 256 * hex_digit_value(h[1]) + 16
                * hex_digit_value(h[2]) + hex_digit_value(h[3]);
            tokenize_text(seq!['"', '\\', 'u'] + h + seq!['"']) == Ok::<
                Seq<TokenModel>,
                ErrorModel,
            >(
                seq![
                    TokenModel::String(
                        if v < 0xD800 || (0xE000 <= v && v <= 0x10FFFF) {
                            seq![v as char]
                        } else {
                            seq![]
                        },
                    ),
                ],
            )
        }),
{
    let text = seq!['"', '\\', 'u'] + h + seq!['"'];
    assert(text.len() == 8);
    assert(text[0] == '"' && text[1] == '\\' && text[2] == 'u' && text[7] == '"');
    assert(text[3] == h[0] && text[4] == h[1] && text[5] == h[2] && text[6] == h[3]);
    assert(is_hex_digit(h[0]) && is_hex_digit(h[1]) && is_hex_digit(h[2]) && is_hex_digit(h[3]));
    let h1 = seq![h[0]];
    let h2 = h1.push(h[1]);
    let h3 = h2.push(h[2]);
    let h4 = h3.push(h[3]);
    assert(h4 =~= h);
    assert(scan_hex(text, 7, h4) == (h4, 7int));
    assert(scan_hex(text, 6, h3) == scan_hex(text, 7, h4));
    assert(scan_hex(text, 5, h2) == scan_hex(text, 6, h3));
    assert(scan_hex(text, 4, h1) == scan_hex(text, 5, h2));
    assert(Seq::<char>::empty().push(h[0]) =~= h1);
    assert(scan_hex(text, 3, seq![]) == scan_hex(text, 4, h1));
    assert(h1.drop_last() =~= Seq::<char>::empty());
    assert(h2.drop_last() =~= h1);
    assert(h3.drop_last() =~= h2);
    assert(h4.drop_last() =~= h3);
    assert(hex_number(Seq::<char>::empty()) == 0);
    assert(hex_number(h1) == hex_digit_value(h[0]));
    assert(hex_number(h2) == hex_number(h1) * 16 + hex_digit_value(h[1]));
    assert(hex_number(h3) == hex_number(h2) * 16 + hex_digit_value(h[2]));
    assert(hex_number(h4) == hex_number(h3) * 16 + hex_digit_value(h[3]));
    let v = hex_number(h);
    assert(lex_escape(text, 1) == (Ok::<Seq<char>, ErrorModel>(code_point_text(v)), 7int));
    let acc = Seq::<char>::empty() + code_point_text(v);
    assert(lex_string(text, 7, acc) == (Ok::<Seq<char>, ErrorModel>(acc), 8int));
    assert(lex_string(text, 1, seq![]) == lex_string(text, 7, acc));
    assert(acc =~= code_point_text(v));
    assert(lex_from(text, 8, seq![TokenModel::String(acc)]).0 == Ok::<
        Seq<TokenModel>,
        ErrorModel,
    >(seq![TokenModel::String(acc)]));
    assert(seq![].push(TokenModel::String(acc)) =~= seq![TokenModel::String(acc)]);
}

/// Whether a character is a one-character token: a bracket, a brace, a
/// comma or a colon.
pub open spec fn is_punctuation(c: char) -> bool {
    c == '{' || c == '}' || c == '[' || c == ']' || c == ',' || c == ':'
}

/// The token that a punctuation character stands for.
pub open spec fn punctuation_token(c: char) -> TokenModel {
    if c == '{' {
        TokenModel::LeftBrace
    } else if c == '}' {
        TokenModel::RightBrace
    } else if c == '[' {
        TokenModel::LeftBracket
    } else if c == ']' {
        TokenModel::RightBracket
    } else if c == ',' {
        TokenModel::Comma
    } else {
        TokenModel::Colon
    }
}

/// The tokens of the punctuation characters of a text, in order; other
/// characters are passed over.
pub open spec fn punctuation_tokens(s: Seq<char>) -> Seq<TokenModel>
    decreases s.len(),
{
    if s.len() == 0 {
        seq![]
    } else {
        (if is_punctuation(s[0]) {
            seq![punctuation_token(s[0])]
        } else {
            seq![]
        }) + punctuation_tokens(s.drop_first())
    }
}

/// Text made of punctuation and whitespace reads as the tokens of its
/// punctuation, in order: `{}` gives a left and a right brace, and the
/// empty text gives no token.
pub proof fn law_punctuation_text_tokens(input: Seq<char>)
    requires
        forall|i: int|
            0 <= i < input.len() ==> is_punctuation(#[trigger] input[i]) || whitespace(input[i]),
    ensures
        tokenize_text(input) == Ok::<Seq<TokenModel>, ErrorModel>(punctuation_tokens(input)),
{
    lemma_punctuation_from(input, 0, seq![]);
    assert(input.subrange(0, input.len() as int) =~= input);
    assert(Seq::<TokenModel>::empty() + punctuation_tokens(input) =~= punctuation_tokens(input));
}

proof fn lemma_punctuation_from(input: Seq<char>, p: int, acc: Seq<TokenModel>)
    requires
        0 <= p <= input.len(),
        forall|i: int|
            0 <= i < input.len() ==> is_punctuation(#[trigger] input[i]) || whitespace(input[i]),
    ensures
        lex_from(input, p, acc).0 == Ok::<Seq<TokenModel>, ErrorModel>(
            acc + punctuation_tokens(input.subrange(p, input.len() as int)),
        ),
    decreases input.len() - p,
{
    let rest = input.subrange(p, input.len() as int);
    if p < input.len() {
        let c = input[p];
        assert(rest[0] == c);
        assert(rest.drop_first() =~= input.subrange(p + 1, input.len() as int));
        if is_punctuation(c) {
            lemma_punctuation_from(input, p + 1, acc.push(punctuation_token(c)));
            assert(acc.push(punctuation_token(c)) + punctuation_tokens(rest.drop_first()) =~= acc
                + punctuation_tokens(rest));
        } else {
            assert(whitespace(c));
            assert(!is_digit(c) && c != '-' && c != '"' && !alphabetic(c));
            lemma_punctuation_from(input, p + 1, acc);
            assert(Seq::<TokenModel>::empty() + punctuation_tokens(rest.drop_first())
                =~= punctuation_tokens(rest));
        }
    } else {
        assert(acc + punctuation_tokens(rest) =~= acc);
    }
}

/// Text made of whitespace only (the empty text among it) holds no token.
pub proof fn law_blank_text_has_no_tokens(input: Seq<char>)
    requires
        forall|i: int| 0 <= i < input.len() ==> whitespace(#[trigger] input[i]),
    ensures
        tokenize_text(input) == Ok::<Seq<TokenModel>, ErrorModel>(seq![]),
{
    law_punctuation_text_tokens(input);
    lemma_no_punctuation(input);
}

proof fn lemma_no_punctuation(s: Seq<char>)
    requires
        forall|i: int| 0 <= i < s.len() ==> whitespace(#[trigger] s[i]),
    ensures
        punctuation_tokens(s) == Seq::<TokenModel>::empty(),
    decreases s.len(),
{
    if s.len() > 0 {
        assert(whitespace(s[0]));
        assert forall|i: int| 0 <= i < s.drop_first().len() implies whitespace(
            #[trigger] s.drop_first()[i],
        ) by {
            assert(s.drop_first()[i] == s[i + 1]);
        }
        lemma_no_punctuation(s.drop_first());
        assert(Seq::<TokenModel>::empty() + Seq::<TokenModel>::empty() =~= Seq::<
            TokenModel,
        >::empty());
    }
}

/// A value written by four hex digits is below 0x10000.
pub proof fn lemma_hex_number_bound(hex: Seq<char>)
    requires
        forall|k: int| 0 <= k < hex.len() ==> is_hex_digit(#[trigger] hex[k]),
    ensures
        hex.len() <= 1 ==> hex_number(hex) < 0x10,
        hex.len() <= 2 ==> hex_number(hex) < 0x100,
        hex.len() <= 3 ==> hex_number(hex) < 0x1000,
        hex.len() <= 4 ==> hex_number(hex) < 0x10000,
    decreases hex.len(),
{
    if hex.len() > 0 {
        lemma_hex_number_bound(hex.drop_last());
        assert(hex_digit_value(hex.last()) < 16);
    }
}

} // verus!
