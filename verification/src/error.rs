//! The errors of tokenizing and parsing, and their messages.
use vstd::prelude::*;
use crate::text::{decimal, push_decimal};

verus! {

/// What can go wrong while reading JSON.
#[derive(Debug, Clone, PartialEq)]
pub enum JsonError {
    UnexpectedToken { expected: String, found: String, position: usize },
    UnexpectedEndOfInput { expected: String, position: usize },
    InvalidNumber { value: String, position: usize },
    InvalidEscape { char: char, position: usize },
    InvalidUnicode { sequence: String, position: usize },
    InvalidPosition { position: usize },
    ExpectedColon { position: usize },
    IOError { message: String },
    FileNotFound { path: String },
}

/// The mathematical value of a [`JsonError`]: texts as character sequences.
pub enum ErrorModel {
    UnexpectedToken { expected: Seq<char>, found: Seq<char>, position: int },
    UnexpectedEndOfInput { expected: Seq<char>, position: int },
    InvalidNumber { value: Seq<char>, position: int },
    InvalidEscape { ch: char, position: int },
    InvalidUnicode { sequence: Seq<char>, position: int },
    InvalidPosition { position: int },
    ExpectedColon { position: int },
    IOError { message: Seq<char> },
    FileNotFound { path: Seq<char> },
}

impl View for JsonError {
    type V = ErrorModel;

    open spec fn view(&self) -> ErrorModel {
        match self {
            JsonError::UnexpectedToken { expected, found, position } => ErrorModel::UnexpectedToken {
                expected: expected@,
                found: found@,
                position: *position as int,
            },
            JsonError::UnexpectedEndOfInput { expected, position } => ErrorModel::UnexpectedEndOfInput {
                expected: expected@,
                position: *position as int,
            },
            JsonError::InvalidNumber { value, position } => ErrorModel::InvalidNumber {
                value: value@,
                position: *position as int,
            },
            JsonError::InvalidEscape { char, position } => ErrorModel::InvalidEscape {
                ch: *char,
                position: *position as int,
            },
            JsonError::InvalidUnicode { sequence, position } => ErrorModel::InvalidUnicode {
                sequence: sequence@,
                position: *position as int,
            },
            JsonError::InvalidPosition { position } => ErrorModel::InvalidPosition {
                position: *position as int,
            },
            JsonError::ExpectedColon { position } => ErrorModel::ExpectedColon {
                position: *position as int,
            },
            JsonError::IOError { message } => ErrorModel::IOError { message: message@ },
            JsonError::FileNotFound { path } => ErrorModel::FileNotFound { path: path@ },
        }
    }
}

/// The decimal text of a position.
pub open spec fn pos_text(p: int) -> Seq<char> {
    decimal(p as nat)
}

/// The message of an error, as its `Display` form reads.
pub open spec fn error_message(e: ErrorModel) -> Seq<char> {
    match e {
        ErrorModel::UnexpectedToken { expected, found, position } => "Unexpected token at position "@
            + pos_text(position) + ": expected "@ + expected + ", found "@ + found,
        ErrorModel::UnexpectedEndOfInput { expected, position } =>
            "Unexpected end of input at position "@ + pos_text(position) + ": expected "@
            + expected,
        ErrorModel::InvalidNumber { value, position } => "Invalid number: "@ + value
            + " at position "@ + pos_text(position) + ":"@,
        ErrorModel::InvalidEscape { ch, position } => "Invalid escape character: "@ + seq![ch]
            + " at position "@ + pos_text(position) + ":"@,
        ErrorModel::InvalidUnicode { sequence, position } => "Invalid unicode: "@ + sequence
            + " at position "@ + pos_text(position) + ":"@,
        ErrorModel::InvalidPosition { position } => "Invalid position: "@ + pos_text(position),
        ErrorModel::ExpectedColon { position } => "Expected Colon at position: "@ + pos_text(
            position,
        ),
        ErrorModel::IOError { message } => message,
        ErrorModel::FileNotFound { path } => "File not found: "@ + path,
    }
}

/// The message that the Python binding raises for an error. It reads as
/// [`error_message`], except that the end-of-input message names the
/// expected text where the position belongs and the position where the
/// expected text belongs.
pub open spec fn python_error_message(e: ErrorModel) -> Seq<char> {
    match e {
        ErrorModel::UnexpectedEndOfInput { expected, position } =>
            "Unexpected end of input at position "@ + expected + ": expected "@ + pos_text(
            position,
        ),
        _ => error_message(e),
    }
}

/// Whether the Python binding raises an error as an `IOError` (else as a
/// `ValueError`).
pub open spec fn is_io_error_model(e: ErrorModel) -> bool {
    e is IOError || e is FileNotFound
}

impl JsonError {
    /// The message of the error, as its `Display` form reads.
    pub fn to_string(&self) -> (r: String)
        ensures
            r@ == error_message(self@),
    {
        let mut out = String::new();
        match self {
            JsonError::UnexpectedToken { expected, found, position } => {
                out.push_str("Unexpected token at position ");
                push_decimal(&mut out, *position);
                out.push_str(": expected ");
                out.push_str(expected.as_str());
                out.push_str(", found ");
                out.push_str(found.as_str());
            },
            JsonError::UnexpectedEndOfInput { expected, position } => {
                out.push_str("Unexpected end of input at position ");
                push_decimal(&mut out, *position);
                out.push_str(": expected ");
                out.push_str(expected.as_str());
            },
            JsonError::InvalidNumber { value, position } => {
                out.push_str("Invalid number: ");
                out.push_str(value.as_str());
                out.push_str(" at position ");
                push_decimal(&mut out, *position);
                out.push_str(":");
            },
            JsonError::InvalidEscape { char, position } => {
                out.push_str("Invalid escape character: ");
                out.push(*char);
                out.push_str(" at position ");
                push_decimal(&mut out, *position);
                out.push_str(":");
            },
            JsonError::InvalidUnicode { sequence, position } => {
                out.push_str("Invalid unicode: ");
                out.push_str(sequence.as_str());
                out.push_str(" at position ");
                push_decimal(&mut out, *position);
                out.push_str(":");
            },
            JsonError::InvalidPosition { position } => {
                out.push_str("Invalid position: ");
                push_decimal(&mut out, *position);
            },
            JsonError::ExpectedColon { position } => {
                out.push_str("Expected Colon at position: ");
                push_decimal(&mut out, *position);
            },
            JsonError::IOError { message } => {
                out.push_str(message.as_str());
            },
            JsonError::FileNotFound { path } => {
                out.push_str("File not found: ");
                out.push_str(path.as_str());
            },
        }
        proof {
            assert(out@ =~= error_message(self@));
        }
        out
    }

    /// The message that the Python binding raises for this error.
    pub fn python_message(&self) -> (r: String)
        ensures
            r@ == python_error_message(self@),
    {
        match self {
            JsonError::UnexpectedEndOfInput { expected, position } => {
                let mut out = String::new();
                out.push_str("Unexpected end of input at position ");
                out.push_str(expected.as_str());
                out.push_str(": expected ");
                push_decimal(&mut out, *position);
                assert(out@ =~= python_error_message(self@));
                out
            },
            _ => self.to_string(),
        }
    }

    /// Whether the Python binding raises this error as an `IOError` (the
    /// I/O and missing-file errors) rather than as a `ValueError`.
    pub fn is_io_error(&self) -> (b: bool)
        ensures
            b == is_io_error_model(self@),
    {
        match self {
            JsonError::IOError { .. } | JsonError::FileNotFound { .. } => true,
            _ => false,
        }
    }
}

} // verus!
