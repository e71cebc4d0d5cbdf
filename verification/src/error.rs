//! The ways in which reading, compiling and evaluating can fail.

use vstd::prelude::*;

verus! {

/// Why a call failed. Every failure ends the call that met it: no partly
/// built tree and no partly written set of nodes is left behind.
#[derive(Debug)]
pub enum JsonError {
    /// The character stream failed; the stream's own error is kept as it came.
    Io(std::io::Error),
    /// The input ended before a bracket or a quote was closed. Holds the
    /// text, or the opening bracket, that was left open.
    UnmatchedBracket(String),
    /// An object has a property name that is no literal, or a name that no
    /// value follows.
    MalformedObject,
    /// A path holds a fragment that is no part of the path grammar. Holds
    /// the fragment up to the character that does not fit.
    PathSyntax(String),
    /// A selector was applied to a node that is no array. Holds the name of
    /// the path segment with that selector.
    SelectorType(String),
    /// A range selector has a negative start beside an end, or a negative
    /// end. Holds the name of the path segment with that selector.
    SelectorRange(String),
    /// A typed read met a node of another kind.
    TypeMismatch,
    /// A number or an index is not written as its type requires.
    NumericFormat,
    /// A document was expected to hold exactly one top-level value.
    NotSingleNode,
}

/// What a [`JsonError`] says, without the stream's own error value.
pub enum Failure {
    Io,
    UnmatchedBracket(Seq<char>),
    MalformedObject,
    PathSyntax(Seq<char>),
    SelectorType(Seq<char>),
    SelectorRange(Seq<char>),
    TypeMismatch,
    NumericFormat,
    NotSingleNode,
}

impl View for JsonError {
    type V = Failure;

    open spec fn view(&self) -> Failure {
        match self {
            JsonError::Io(_) => Failure::Io,
            JsonError::UnmatchedBracket(text) => Failure::UnmatchedBracket(text@),
            JsonError::MalformedObject => Failure::MalformedObject,
            JsonError::PathSyntax(text) => Failure::PathSyntax(text@),
            JsonError::SelectorType(name) => Failure::SelectorType(name@),
            JsonError::SelectorRange(name) => Failure::SelectorRange(name@),
            JsonError::TypeMismatch => Failure::TypeMismatch,
            JsonError::NumericFormat => Failure::NumericFormat,
            JsonError::NotSingleNode => Failure::NotSingleNode,
        }
    }
}

} // verus!
