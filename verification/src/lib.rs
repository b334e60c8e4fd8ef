//! A JSON library: a tokenizer that turns text into tokens, a recursive-descent
//! parser that builds a `JsonValue` tree from them, and the compact and
//! indented text forms of a value.
use vstd::prelude::*;

pub mod text;
pub mod number;
pub mod error;
pub mod tokenizer;
pub mod value;
pub mod parser;
pub mod roundtrip;
pub mod joining;

pub use error::JsonError;
pub use number::JsonNumber;
pub use parser::JsonParser;
pub use tokenizer::{Token, Tokenizer};
pub use value::{JsonObject, JsonValue};

verus! {

/// The result of reading JSON.
pub type Result<T> = std::result::Result<T, JsonError>;

} // verus!
