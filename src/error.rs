//! The failures that parsing and validation report.

use vstd::prelude::*;
use crate::value::Type;

verus! {

/// A parse or validation failure, with the text it concerns.
#[derive(Debug, PartialEq)]
pub enum ConfError {
    /// A definition line (trimmed) holds no delimiter.
    MissingDelimiter { line: String },
    /// The key of a definition line (trimmed) is empty.
    MissingKey { line: String },
    /// A schema line names no known type.
    UnknownType { name: String },
    /// An entry that is not exempt has a key that the schema does not declare.
    UndeclaredKey { key: String },
    /// The text of an entry's value is not of the type that the schema declares.
    TypeMismatch { key: String, expected: Type, text: String },
}

/// What a [`ConfError`] says, over sequences of characters.
pub enum ErrorView {
    MissingDelimiter { line: Seq<char> },
    MissingKey { line: Seq<char> },
    UnknownType { name: Seq<char> },
    UndeclaredKey { key: Seq<char> },
    TypeMismatch { key: Seq<char>, expected: Type, text: Seq<char> },
}

impl View for ConfError {
    type V = ErrorView;

    open spec fn view(&self) -> ErrorView {
        match self {
            ConfError::MissingDelimiter { line } => ErrorView::MissingDelimiter { line: line@ },
            ConfError::MissingKey { line } => ErrorView::MissingKey { line: line@ },
            ConfError::UnknownType { name } => ErrorView::UnknownType { name: name@ },
            ConfError::UndeclaredKey { key } => ErrorView::UndeclaredKey { key: key@ },
            ConfError::TypeMismatch { key, expected, text } => ErrorView::TypeMismatch {
                key: key@,
                expected: *expected,
                text: text@,
            },
        }
    }
}

} // verus!
