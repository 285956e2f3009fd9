//! Source locations and the errors that parsing reports.

use vstd::prelude::*;
use vstd::string::*;

verus! {

/// A location within the JSON5 text.
#[derive(Copy, Clone, Debug, PartialEq, Eq, Structural)]
pub struct Location {
    /// The one-based line number.
    pub line: usize,
    /// The one-based column number, counted in characters.
    pub column: usize,
}

/// The errors that parsing can report, each with the location it was found at.
#[derive(Clone, Debug, PartialEq, Eq)]
pub enum JsonError {
    /// The text does not follow the JSON5 grammar.
    Syntax(String, Option<Location>),
    /// A number, or the digits of an escape, could not be read.
    NumberFormat(Option<Location>),
    /// A number was read but is too large to be finite.
    NumberRange(Option<Location>),
    /// An escape names no Unicode character.
    Unicode(Option<Location>),
}

/// The mathematical value of a [`JsonError`].
pub enum ErrorView {
    Syntax(Seq<char>, Option<Location>),
    NumberFormat(Option<Location>),
    NumberRange(Option<Location>),
    Unicode(Option<Location>),
}

impl ErrorView {
    /// The text that describes the error.
    pub open spec fn message(self) -> Seq<char> {
        match self {
            ErrorView::Syntax(msg, _) => msg,
            ErrorView::NumberFormat(_) => "bad number format"@,
            ErrorView::NumberRange(_) => "bad number range"@,
            ErrorView::Unicode(_) => "bad Unicode characters"@,
        }
    }

    /// Where the error was found.
    pub open spec fn location(self) -> Option<Location> {
        match self {
            ErrorView::Syntax(_, l) => l,
            ErrorView::NumberFormat(l) => l,
            ErrorView::NumberRange(l) => l,
            ErrorView::Unicode(l) => l,
        }
    }
}

impl View for JsonError {
    type V = ErrorView;

    open spec fn view(&self) -> ErrorView {
        match self {
            JsonError::Syntax(msg, l) => ErrorView::Syntax(msg@, *l),
            JsonError::NumberFormat(l) => ErrorView::NumberFormat(*l),
            JsonError::NumberRange(l) => ErrorView::NumberRange(*l),
            JsonError::Unicode(l) => ErrorView::Unicode(*l),
        }
    }
}

impl JsonError {
    /// The text that describes the error: the grammar's own message for a
    /// syntax error, a fixed phrase for the others.
    pub fn to_string(&self) -> (r: String)
        ensures
            r@ == self@.message(),
    {
        match self {
            JsonError::Syntax(msg, _) => msg.clone(),
            JsonError::NumberFormat(_) => String::from_str("bad number format"),
            JsonError::NumberRange(_) => String::from_str("bad number range"),
            JsonError::Unicode(_) => String::from_str("bad Unicode characters"),
        }
    }

    /// Where the error was found.
    pub fn location(&self) -> (r: Option<Location>)
        ensures
            r == self@.location(),
    {
        match self {
            JsonError::Syntax(_, l) => *l,
            JsonError::NumberFormat(l) => *l,
            JsonError::NumberRange(l) => *l,
            JsonError::Unicode(l) => *l,
        }
    }
}

} // verus!
