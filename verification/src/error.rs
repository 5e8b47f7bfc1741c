//! The errors of the library.
use vstd::prelude::*;

verus! {

/// Why a template was rejected.
#[derive(Clone, Copy, Debug, PartialEq, Eq, Structural)]
pub enum ParseErrorKind {
    /// A line starts with something that cannot start a tag.
    ExpectedTag,
    /// A `.` or `#` is not followed by a name.
    ExpectedName,
    /// An attribute list holds something that is neither a key nor `)`.
    ExpectedKey,
    /// An attribute key is not followed by `=`.
    ExpectedEquals,
    /// An `=` is not followed by a quoted value.
    ExpectedValue,
    /// A quoted value is not closed.
    UnclosedValue,
    /// An attribute list is not closed.
    UnclosedAttributes,
    /// A tag declaration is followed by something other than a blank and
    /// text.
    UnexpectedCharacter,
}

/// A template was rejected: why, and at which character, counted from 0.
#[derive(Clone, Copy, Debug, PartialEq, Eq, Structural)]
pub struct ParseError {
    pub kind: ParseErrorKind,
    pub position: usize,
}

/// `std::io::Error`, declared so that an error can carry one. Nothing is
/// claimed of what it holds.
#[verifier::external_type_specification]
#[verifier::external_body]
pub struct ExIoError(std::io::Error);

/// What can go wrong between a template and its HTML; `E` is the error of
/// the caller's resolver of inclusions.
#[derive(Debug)]
pub enum Error<E> {
    /// The template was rejected.
    Parser(ParseError),
    /// The resolver failed on an inclusion.
    Include(E),
    /// Writing the output failed.
    Io(std::io::Error),
    /// Inclusions were nested deeper than the limit.
    Depth,
}

impl<E> From<ParseError> for Error<E> {
    fn from(e: ParseError) -> (r: Error<E>) {
        Error::Parser(e)
    }
}

impl<E> vstd::std_specs::convert::FromSpecImpl<ParseError> for Error<E> {
    open spec fn obeys_from_spec() -> bool {
        true
    }

    open spec fn from_spec(e: ParseError) -> Error<E> {
        Error::Parser(e)
    }
}

impl<E> From<std::io::Error> for Error<E> {
    fn from(e: std::io::Error) -> (r: Error<E>) {
        Error::Io(e)
    }
}

impl<E> vstd::std_specs::convert::FromSpecImpl<std::io::Error> for Error<E> {
    open spec fn obeys_from_spec() -> bool {
        true
    }

    open spec fn from_spec(e: std::io::Error) -> Error<E> {
        Error::Io(e)
    }
}

} // verus!
