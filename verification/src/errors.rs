//! The errors that parsing and loading can surface.

use vstd::prelude::*;

verus! {

/// Mathematical value of a [`ParseError`].
pub enum ParseErrorView {
    Expected { expected: Seq<char>, found: Seq<char> },
    DomainAndReservedOverlap { culprit: Seq<char> },
    CircularDependency { cycle: Seq<Seq<char>> },
    UnknownToken { text: Seq<char> },
    FileNotFound { name: Seq<char> },
    LoadLimit,
}

/// Why a source module could not be parsed or loaded.
pub enum ParseError {
    /// The parser wanted one thing and found another.
    Expected { expected: String, found: String },
    /// A name stands in a structure's domain and reserved set at once.
    DomainAndReservedOverlap { culprit: String },
    /// The `use` graph runs in a circle; the cycle is the path of names.
    CircularDependency { cycle: Vec<String> },
    /// The expression parser could not advance past this text.
    UnknownToken(String),
    /// The resolver produced no source for this module name.
    FileNotFound(String),
    /// Loading stopped because the module budget ran out.
    LoadLimit,
}

impl View for ParseError {
    type V = ParseErrorView;

    open spec fn view(&self) -> ParseErrorView {
        match self {
            ParseError::Expected { expected, found } => ParseErrorView::Expected {
                expected: expected@,
                found: found@,
            },
            ParseError::DomainAndReservedOverlap { culprit } => {
                ParseErrorView::DomainAndReservedOverlap { culprit: culprit@ }
            },
            ParseError::CircularDependency { cycle } => ParseErrorView::CircularDependency {
                cycle: cycle.deep_view(),
            },
            ParseError::UnknownToken(text) => ParseErrorView::UnknownToken { text: text@ },
            ParseError::FileNotFound(name) => ParseErrorView::FileNotFound { name: name@ },
            ParseError::LoadLimit => ParseErrorView::LoadLimit,
        }
    }
}

impl DeepView for ParseError {
    type V = ParseErrorView;

    open spec fn deep_view(&self) -> ParseErrorView {
        self@
    }
}

} // verus!
