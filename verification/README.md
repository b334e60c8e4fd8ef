# rust_json_parser

A JSON library written in Verus: a tokenizer, a recursive-descent parser that
builds a `JsonValue` tree, and the compact and indented text forms of a value.
Every function of the library carries a contract that Verus proves; the few
facts of std that the proofs rest on are stated in `src/text.rs`.

Layout:

- `src/text.rs`: character classes (with the std facts the library relies on),
  decimal text of positions, hex digits.
- `src/number.rs`: `JsonNumber`, a number held as its canonical decimal text
  (no leading zeros in the integer part, no trailing zeros in the fraction).
- `src/error.rs`: `JsonError`, its model and its messages.
- `src/tokenizer.rs`: `Token`, `Tokenizer`, and `lex_from`, the specification
  of tokenizing.
- `src/value.rs`: `JsonValue`, `JsonObject`, accessors, escaping, the compact
  text (`render`) and the indented text (`pretty`).
- `src/parser.rs`: `JsonParser` and `parse_value_at`, the specification of
  parsing.
- `src/roundtrip.rs`: the proofs that reading back the text of a value gives
  the value.
- `src/joining.rs`: the proof that texts joined by a space tokenize as
  their parts.
- `app/`: the command-line demonstration and the Python bindings (pyo3); the
  float side of numbers lives there.
