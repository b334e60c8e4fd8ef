use rust_json_parser::{JsonError, JsonNumber, JsonObject, JsonParser, JsonValue, Token, Tokenizer};

fn num(text: &str) -> JsonValue {
    JsonValue::Number(JsonNumber::parse(text).unwrap())
}

fn parse_json(input: &str) -> Result<JsonValue, JsonError> {
    let mut parser = JsonParser::new(input)?;
    parser.parse()
}

fn tokens(input: &str) -> Result<Vec<Token>, JsonError> {
    Tokenizer::new(input).tokenize()
}

fn sample() -> JsonValue {
    let mut inner = JsonObject::new();
    inner.insert("k\"ey".to_string(), JsonValue::String("tab\there \\ \u{8}\u{c}\r\n".to_string()));
    inner.insert("empty".to_string(), JsonValue::Array(vec![]));
    let mut outer = JsonObject::new();
    outer.insert("name".to_string(), JsonValue::String("Alice é 京".to_string()));
    outer.insert("age".to_string(), num("-30.25"));
    outer.insert("tags".to_string(), JsonValue::Array(vec![JsonValue::Null, JsonValue::Boolean(false), num("7"), JsonValue::Object(inner)]));
    outer.insert("nothing".to_string(), JsonValue::Object(JsonObject::new()));
    JsonValue::Object(outer)
}

#[test]
fn test_compact_text_reads_back() {
    let v = sample();
    let text = v.to_string();
    assert_eq!(parse_json(&text).unwrap(), v);
}

#[test]
fn test_compact_text_exact() {
    let v = JsonValue::Array(vec![num("1"), JsonValue::String("a\"b".to_string()), JsonValue::Null]);
    assert_eq!(v.to_string(), "[1,\"a\\\"b\",null]");
    let mut o = JsonObject::new();
    o.insert("x".to_string(), JsonValue::Boolean(true));
    o.insert("y".to_string(), num("2.5"));
    assert_eq!(JsonValue::Object(o).to_string(), "{\"x\": true, \"y\": 2.5}");
}

#[test]
fn test_pretty_print_exact() {
    let mut o = JsonObject::new();
    o.insert("a".to_string(), JsonValue::Array(vec![num("1"), num("2")]));
    o.insert("b".to_string(), JsonValue::Array(vec![]));
    let v = JsonValue::Object(o);
    assert_eq!(
        v.pretty_print(2),
        "{\n  \"a\": [\n    1,\n    2\n  ],\n  \"b\": [\n  ]\n}"
    );
    assert_eq!(JsonValue::Array(vec![]).pretty_print(4), "[\n]");
    assert_eq!(num("3").pretty_print(4), "3");
}

#[test]
fn test_pretty_text_reads_back() {
    let mut o = JsonObject::new();
    o.insert("plain key".to_string(), JsonValue::Array(vec![num("0.5"), JsonValue::String("q\"uote".to_string())]));
    o.insert("n".to_string(), JsonValue::Null);
    let v = JsonValue::Object(o);
    for indent in [0usize, 1, 3] {
        assert_eq!(parse_json(&v.pretty_print(indent)).unwrap(), v);
    }
}

#[test]
fn test_pretty_key_is_not_escaped() {
    let mut o = JsonObject::new();
    o.insert("a\"b".to_string(), JsonValue::Null);
    let text = JsonValue::Object(o).pretty_print(1);
    assert_eq!(text, "{\n \"a\"b\": null\n}");
    assert!(parse_json(&text).is_err());
}

#[test]
fn test_escape_string_exact() {
    assert_eq!(JsonValue::escape_string("a\"b\\c\u{8}\u{c}\n\r\t/é"), "\"a\\\"b\\\\c\\b\\f\\n\\r\\t/é\"");
    assert_eq!(JsonValue::escape_string(""), "\"\"");
}

#[test]
fn test_escaped_string_reads_back() {
    let s = "x\u{1}\"\\\u{8}\u{c}\n\r\t€";
    let toks = tokens(&JsonValue::escape_string(s)).unwrap();
    assert_eq!(toks, vec![Token::String(s.to_string())]);
}

#[test]
fn test_object_insert_then_get() {
    let mut o = JsonObject::new();
    assert!(o.is_empty());
    assert_eq!(o.insert("a".to_string(), num("1")), None);
    assert_eq!(o.insert("b".to_string(), num("2")), None);
    assert_eq!(o.insert("a".to_string(), num("3")), Some(num("1")));
    assert_eq!(o.get("a"), Some(&num("3")));
    assert_eq!(o.get("b"), Some(&num("2")));
    assert_eq!(o.get("c"), None);
    assert_eq!(o.len(), 2);
    assert_eq!(o.key_at(0), "a");
    assert_eq!(o.key_at(1), "b");
    assert!(o.contains_key("b"));
    assert!(!o.contains_key("z"));
}

#[test]
fn test_duplicate_keys_keep_last_value_first_place() {
    let v = parse_json(r#"{"a": 1, "b": 2, "a": 3}"#).unwrap();
    let o = v.as_object().unwrap();
    assert_eq!(o.len(), 2);
    assert_eq!(o.key_at(0), "a");
    assert_eq!(o.get("a"), Some(&num("3")));
}

#[test]
fn test_number_texts() {
    for (text, canonical) in [
        ("0", "0"),
        ("-0", "-0"),
        ("1.0", "1"),
        ("1.", "1"),
        ("-20.", "-20"),
        ("0.5", "0.5"),
        ("-0.5", "-0.5"),
        ("12.50", "12.5"),
        ("007", "7"),
        ("00.100", "0.1"),
        ("0.000", "0"),
        ("-3.14", "-3.14"),
        ("42", "42"),
    ] {
        assert_eq!(JsonNumber::parse(text).unwrap().as_str(), canonical, "{}", text);
    }
    for bad in ["", "-", ".", "-.", ".5", "-.5", "1.2.3", "1-2", "--1", "1e5", "inf", "+1", " 1"] {
        assert!(JsonNumber::parse(bad).is_none(), "{}", bad);
    }
    assert_eq!(JsonNumber::parse("1.50"), JsonNumber::parse("01.5"));
}

#[test]
fn test_invalid_number_errors() {
    assert_eq!(
        tokens("1.2.3"),
        Err(JsonError::InvalidNumber { value: "1.2.3".to_string(), position: 5 })
    );
    assert_eq!(tokens("[-]"), Err(JsonError::InvalidNumber { value: "-".to_string(), position: 2 }));
    assert_eq!(tokens("1-2"), Err(JsonError::InvalidNumber { value: "1-2".to_string(), position: 3 }));
    assert_eq!(tokens("-.5"), Err(JsonError::InvalidNumber { value: "-.5".to_string(), position: 3 }));
    assert_eq!(tokens("[1.]"), Ok(vec![Token::LeftBracket, Token::Number(JsonNumber::parse("1").unwrap()), Token::RightBracket]));
    assert_eq!(
        tokens(".5"),
        Err(JsonError::UnexpectedToken {
            expected: "valid JSON token".to_string(),
            found: ".".to_string(),
            position: 0
        })
    );
    assert_eq!(tokens("2.50"), Ok(vec![Token::Number(JsonNumber::parse("2.5").unwrap())]));
}

#[test]
fn test_keyword_error_position_is_start_of_word() {
    assert_eq!(
        tokens(" nul,"),
        Err(JsonError::UnexpectedToken {
            expected: "\"null\", \"true\", or \"false\"".to_string(),
            found: "nul".to_string(),
            position: 1,
        })
    );
    assert_eq!(
        tokens("   xyz"),
        Err(JsonError::UnexpectedToken {
            expected: "\"null\", \"true\", or \"false\"".to_string(),
            found: "xyz".to_string(),
            position: 3,
        })
    );
    assert!(matches!(tokens("é"), Err(JsonError::UnexpectedToken { position: 0, .. })));
}

#[test]
fn test_unexpected_character_error() {
    assert_eq!(
        tokens("[1, @]"),
        Err(JsonError::UnexpectedToken {
            expected: "valid JSON token".to_string(),
            found: "@".to_string(),
            position: 4,
        })
    );
}

#[test]
fn test_string_edge_cases() {
    // a lone quote reads as an empty string
    assert_eq!(tokens("\""), Ok(vec![Token::String(String::new())]));
    assert_eq!(
        tokens("\"abc"),
        Err(JsonError::UnexpectedEndOfInput { expected: "\"".to_string(), position: 4 })
    );
    assert_eq!(tokens("\"ab\\"), Err(JsonError::InvalidEscape { char: '?', position: 5 }));
    assert_eq!(tokens("\"\\q\""), Err(JsonError::InvalidEscape { char: 'q', position: 3 }));
}

#[test]
fn test_unicode_escape_edge_cases() {
    // non-hex characters inside \u are skipped
    assert_eq!(tokens(r#""\u00GG4134""#), Ok(vec![Token::String("A34".to_string())]));
    // a surrogate code point decodes to nothing
    assert_eq!(tokens(r#""a\uD800b""#), Ok(vec![Token::String("ab".to_string())]));
    assert_eq!(
        tokens(r#""\u12"#),
        Err(JsonError::InvalidUnicode { sequence: "12".to_string(), position: 5 })
    );
    assert_eq!(tokens(r#""\u00e9""#), Ok(vec![Token::String("é".to_string())]));
}

#[test]
fn test_unicode_whitespace_and_letters() {
    // U+00A0 and U+3000 are whitespace; Greek letters are alphabetic
    assert_eq!(tokens("\u{a0}1\u{3000}"), Ok(vec![Token::Number(JsonNumber::parse("1").unwrap())]));
    assert!(matches!(tokens("λ"), Err(JsonError::UnexpectedToken { .. })));
    assert_eq!(tokens(" \t\n\r\u{b}\u{c}"), Ok(vec![]));
}

#[test]
fn test_tokenize_twice_gives_nothing() {
    let mut t = Tokenizer::new("[1, 2]");
    assert_eq!(t.tokenize().unwrap().len(), 5);
    assert_eq!(t.tokenize().unwrap(), vec![]);
}

#[test]
fn test_blank_input_fails_to_build_parser() {
    for input in ["", " ", "\n\t "] {
        assert_eq!(
            JsonParser::new(input).err(),
            Some(JsonError::UnexpectedEndOfInput { expected: "JSON value".to_string(), position: 0 })
        );
    }
}

#[test]
fn test_parser_error_details() {
    assert_eq!(
        parse_json("[1, 2,]"),
        Err(JsonError::UnexpectedToken { expected: "RightBracket".to_string(), found: "Comma".to_string(), position: 4 })
    );
    assert_eq!(
        parse_json(r#"{"a": 1,}"#),
        Err(JsonError::UnexpectedToken { expected: "RightBrace".to_string(), found: "Comma".to_string(), position: 4 })
    );
    assert_eq!(parse_json(r#"{"key""#), Err(JsonError::ExpectedColon { position: 0 }));
    assert_eq!(
        parse_json(r#"{"key" "x"}"#),
        Err(JsonError::UnexpectedToken { expected: "Colon".to_string(), found: "String(\"x\")".to_string(), position: 2 })
    );
    assert_eq!(
        parse_json("[1 true]"),
        Err(JsonError::UnexpectedToken { expected: "Comma".to_string(), found: "Boolean(true)".to_string(), position: 2 })
    );
    assert_eq!(
        parse_json("]"),
        Err(JsonError::UnexpectedToken { expected: "valid JSON token".to_string(), found: "Some(RightBracket)".to_string(), position: 0 })
    );
    assert_eq!(
        parse_json("{null: 1}"),
        Err(JsonError::UnexpectedToken { expected: "String".to_string(), found: "Some(Null)".to_string(), position: 1 })
    );
    assert_eq!(
        parse_json("[1, 2"),
        Err(JsonError::UnexpectedEndOfInput { expected: "RightBracket".to_string(), position: 4 })
    );
    assert_eq!(
        parse_json(r#"{"key": 1"#),
        Err(JsonError::UnexpectedEndOfInput { expected: "RightBrace".to_string(), position: 4 })
    );
}

#[test]
fn test_debug_text_of_string_token() {
    assert_eq!(
        parse_json(r#"{"a" "q\"\n"}"#),
        Err(JsonError::UnexpectedToken { expected: "Colon".to_string(), found: "String(\"q\\\"\\n\")".to_string(), position: 2 })
    );
}

#[test]
fn test_lenient_inputs() {
    // leading and doubled commas are skipped
    assert_eq!(parse_json("[,1]"), Ok(JsonValue::Array(vec![num("1")])));
    assert_eq!(parse_json("[1,,2]"), Ok(JsonValue::Array(vec![num("1"), num("2")])));
}

#[test]
fn test_unclosed_outer_container_is_rejected() {
    assert_eq!(
        parse_json("[1, [2]"),
        Err(JsonError::UnexpectedEndOfInput { expected: "RightBracket".to_string(), position: 6 })
    );
    assert_eq!(
        parse_json("[[1]"),
        Err(JsonError::UnexpectedEndOfInput { expected: "RightBracket".to_string(), position: 4 })
    );
    assert_eq!(
        parse_json(r#"{"a": {"b": 1}"#),
        Err(JsonError::UnexpectedEndOfInput { expected: "RightBrace".to_string(), position: 8 })
    );
    assert_eq!(
        parse_json(r#"{"a": [1}"#),
        Err(JsonError::UnexpectedToken { expected: "Comma".to_string(), found: "RightBrace".to_string(), position: 5 })
    );
}

#[test]
fn test_sequential_values_then_invalid_position() {
    let mut parser = JsonParser::new("[1] {\"a\": null} \"s\"").unwrap();
    assert_eq!(parser.parse().unwrap(), JsonValue::Array(vec![num("1")]));
    assert!(parser.parse().unwrap().as_object().is_some());
    assert_eq!(parser.parse().unwrap(), JsonValue::String("s".to_string()));
    assert_eq!(parser.parse(), Err(JsonError::InvalidPosition { position: 9 }));
}

#[test]
fn test_accessors_exact() {
    let v = parse_json(r#"{"a": [true, "x", 1.5]}"#).unwrap();
    let arr = v.get("a").unwrap();
    assert_eq!(arr.get_index(0).unwrap().as_bool(), Some(true));
    assert_eq!(arr.get_index(1).unwrap().as_str(), Some("x"));
    assert_eq!(arr.get_index(2).unwrap().as_number().unwrap().as_str(), "1.5");
    assert_eq!(arr.get_index(3), None);
    assert_eq!(v.get_index(0), None);
    assert_eq!(arr.get("a"), None);
    assert!(v.as_array().is_none());
    assert!(arr.as_object().is_none());
    assert!(!v.is_null());
}

#[test]
fn test_clone_keeps_value() {
    let v = sample();
    assert_eq!(v.clone(), v);
    let t = Token::String("z".to_string());
    assert_eq!(t.duplicate(), t);
    assert!(t.equals(&Token::String("z".to_string())));
    assert!(!t.equals(&Token::Comma));
}

#[test]
fn test_missing_comma_names_number_as_float_debug() {
    assert_eq!(
        parse_json("[1 2]"),
        Err(JsonError::UnexpectedToken {
            expected: "Comma".to_string(),
            found: "Number(2.0)".to_string(),
            position: 2
        })
    );
    assert_eq!(
        parse_json("[1 -2.50]"),
        Err(JsonError::UnexpectedToken {
            expected: "Comma".to_string(),
            found: "Number(-2.5)".to_string(),
            position: 2
        })
    );
}

#[test]
fn test_number_debug_form_matches_float_debug() {
    // Texts whose digits a float holds exactly.
    for text in [
        "0", "-0", "2", "-2.50", "0.25", "123456789", "999999999999999", "1000000000000000",
        "10000000000000000", "-15000000000000000000", "12345678901234000000", "0.0001", "0.00001",
        "-0.000012", "0.0000001", "100", "1.000", "3.14159", "0.00010", "120000000000000000",
    ] {
        let input = format!("[1 {}]", text);
        let expected = format!("Number({:?})", text.parse::<f64>().unwrap());
        match parse_json(&input) {
            Err(JsonError::UnexpectedToken { found, .. }) => assert_eq!(found, expected, "{}", text),
            other => panic!("unexpected result for {}: {:?}", text, other),
        }
    }
}

#[test]
fn test_joined_texts_tokenize_as_parts() {
    for (a, b) in [("[1, 2]", "{\"k\": null}"), ("true", "false"), ("\"x\\ny\"", "-3.5"), ("", "1")] {
        let mut joined = tokens(a).unwrap();
        joined.extend(tokens(b).unwrap());
        assert_eq!(tokens(&format!("{} {}", a, b)), Ok(joined), "{} / {}", a, b);
    }
    // A lone opening quote reads as an empty string, but not once text follows it.
    assert_eq!(tokens("\""), Ok(vec![Token::String(String::new())]));
    assert!(tokens("\" 1").is_err());
}

#[test]
fn test_scalar_pretty_is_compact() {
    for v in [JsonValue::Null, JsonValue::Boolean(true), num("-2.5"), JsonValue::String("a\"b".to_string())] {
        assert_eq!(v.pretty_print(4), v.to_string());
    }
}

#[test]
fn test_object_equality_ignores_entry_order() {
    let a = parse_json(r#"{"x": 1, "y": [true, {"p": null, "q": "s"}]}"#).unwrap();
    let b = parse_json(r#"{"y": [true, {"q": "s", "p": null}], "x": 1.0}"#).unwrap();
    assert_eq!(a, b);
    let c = parse_json(r#"{"y": [true, {"q": "s", "p": null}], "x": 2}"#).unwrap();
    assert_ne!(a, c);
    let d = parse_json(r#"{"x": 1}"#).unwrap();
    assert_ne!(a, d);
    // arrays keep their order
    assert_ne!(parse_json("[1, 2]").unwrap(), parse_json("[2, 1]").unwrap());
}

#[test]
fn test_zero_equals_negative_zero() {
    assert_eq!(num("-0"), num("0"));
    assert_eq!(num("-0.000"), num("0"));
    assert_eq!(JsonNumber::parse("-0"), JsonNumber::parse("0"));
    assert_ne!(num("-1"), num("1"));
    assert_eq!(tokens("-0"), tokens("0"));
}
