//! The errors of the front end.

use crate::extra::test_utils::TestError;
use crate::parser::ParseError;
use crate::span::Span;
use vstd::prelude::*;
use vstd::std_specs::convert::FromSpecImpl;

verus! {

/// An error found while scanning or while building a value. It travels
/// through the parser's error type as its user error.
#[derive(Clone, Copy, Debug, PartialEq, Eq, Structural)]
pub enum CompilationError {
    /// No recogniser matched the bytes of `span`.
    LexicalError { span: Span },
    /// The number literal at `span` has no value in the numeric domain.
    NumericalError { span: Span },
    /// The input ended inside the string literal that opens at `span.start`.
    UnterminatedStringLiteral { span: Span },
}

impl CompilationError {
    /// The span that the error carries.
    pub open spec fn spec_span(self) -> Span {
        match self {
            CompilationError::LexicalError { span } => span,
            CompilationError::NumericalError { span } => span,
            CompilationError::UnterminatedStringLiteral { span } => span,
        }
    }

    /// The span that the error carries.
    #[verifier::when_used_as_spec(spec_span)]
    pub fn span(self) -> (span: Span)
        ensures
            span == self.spec_span(),
    {
        match self {
            CompilationError::LexicalError { span } => span,
            CompilationError::NumericalError { span } => span,
            CompilationError::UnterminatedStringLiteral { span } => span,
        }
    }
}

/// `std::io::Error`, named so that the errors below can carry one through.
/// Nothing is claimed of what it holds.
#[verifier::external_type_specification]
#[verifier::external_body]
pub struct ExIoError(std::io::Error);

/// What can go wrong between reading a source and showing its value. It
/// borrows from the source that was parsed.
#[derive(Debug)]
pub enum JsonPopError<'a> {
    /// The source is not a document.
    Parse(ParseError<'a>),
    /// Output failed while a value or a diagnostic was shown.
    Io(std::io::Error),
    /// A test of the parser did not go as it should.
    TestError(TestError<'a>),
}

/// The kind of a `JsonPopError`, free of the source's lifetime.
#[derive(Debug)]
pub enum TopLevelError {
    TestingError,
    ParseError,
    Io(std::io::Error),
}

impl<'a> From<JsonPopError<'a>> for TopLevelError {
    /// Keeps the kind of the error, and the output error itself, and
    /// drops what borrows from the source.
    fn from(it: JsonPopError<'a>) -> (kind: TopLevelError) {
        match it {
            JsonPopError::Parse(_) => TopLevelError::ParseError,
            JsonPopError::Io(err) => TopLevelError::Io(err),
            JsonPopError::TestError(_) => TopLevelError::TestingError,
        }
    }
}

impl<'a> FromSpecImpl<JsonPopError<'a>> for TopLevelError {
    open spec fn obeys_from_spec() -> bool {
        true
    }

    open spec fn from_spec(it: JsonPopError<'a>) -> TopLevelError {
        match it {
            JsonPopError::Parse(_) => TopLevelError::ParseError,
            JsonPopError::Io(err) => TopLevelError::Io(err),
            JsonPopError::TestError(_) => TopLevelError::TestingError,
        }
    }
}

impl<'a> From<std::io::Error> for JsonPopError<'a> {
    /// An output error as the error of the whole operation.
    fn from(err: std::io::Error) -> (error: JsonPopError<'a>) {
        JsonPopError::Io(err)
    }
}

impl<'a> FromSpecImpl<std::io::Error> for JsonPopError<'a> {
    open spec fn obeys_from_spec() -> bool {
        true
    }

    open spec fn from_spec(err: std::io::Error) -> JsonPopError<'a> {
        JsonPopError::Io(err)
    }
}

impl<'a> From<ParseError<'a>> for JsonPopError<'a> {
    /// A parse error as the error of the whole operation.
    fn from(err: ParseError<'a>) -> (error: JsonPopError<'a>) {
        JsonPopError::Parse(err)
    }
}

impl<'a> FromSpecImpl<ParseError<'a>> for JsonPopError<'a> {
    open spec fn obeys_from_spec() -> bool {
        true
    }

    open spec fn from_spec(err: ParseError<'a>) -> JsonPopError<'a> {
        JsonPopError::Parse(err)
    }
}

} // verus!
