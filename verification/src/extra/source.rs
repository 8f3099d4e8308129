//! Sources, and what parsing one gives.

use crate::error::JsonPopError;
use crate::parse_str;
use crate::parser::{parse_bytes, result_view, ParseResult};
use crate::value::Value;
use vstd::prelude::*;
use vstd::std_specs::convert::FromSpecImpl;
use vstd::string::StringSliceAdditionalSpecFns;

verus! {

/// A source text.
#[derive(Debug)]
pub struct Source<'a>(&'a str);

impl<'a> Source<'a> {
    /// The bytes of the text.
    pub closed spec fn bytes(&self) -> Seq<u8> {
        self.0.spec_bytes()
    }

    /// The text.
    pub closed spec fn spec_as_str(&self) -> &'a str {
        self.0
    }

    /// The text.
    #[verifier::when_used_as_spec(spec_as_str)]
    pub fn as_str(&self) -> (text: &'a str)
        ensures
            text == self.spec_as_str(),
            text.spec_bytes() == self.bytes(),
    {
        self.0
    }
}

impl<'a> From<&'a str> for Source<'a> {
    /// The source with the text `it`.
    fn from(it: &'a str) -> (source: Source<'a>)
        ensures
            source.spec_as_str() == it,
            source.bytes() == it.spec_bytes(),
    {
        Source(it)
    }
}

impl<'a> FromSpecImpl<&'a str> for Source<'a> {
    open spec fn obeys_from_spec() -> bool {
        true
    }

    closed spec fn from_spec(it: &'a str) -> Source<'a> {
        Source(it)
    }
}

/// A parse result, together with the context whose source was parsed.
#[derive(Debug)]
pub struct Parsed<'a, T> {
    pub source_ctxt: &'a T,
    pub parse_result: ParseResult<'a>,
}

/// Something that holds a source and can have it parsed.
pub trait Parsable<'a> {
    type SourceContext;

    /// The source that is parsed.
    spec fn spec_source(&self) -> Source<'a>;

    /// Parses the source.
    fn parse(&'a self) -> (parsed: Parsed<'a, Self::SourceContext>)
        ensures
            result_view(parsed.parse_result) == parse_bytes(self.spec_source().bytes()),
    ;

    /// The source that is parsed.
    fn source(&'a self) -> (source: &Source<'a>)
        ensures
            *source == self.spec_source(),
    ;
}

impl<'a> Parsable<'a> for Source<'a> {
    type SourceContext = Self;

    open spec fn spec_source(&self) -> Source<'a> {
        *self
    }

    fn parse(&'a self) -> (parsed: Parsed<'a, Self>)
        ensures
            parsed.source_ctxt == self,
    {
        Parsed { source_ctxt: self, parse_result: parse_str(self.0) }
    }

    fn source(&'a self) -> (source: &Source<'a>) {
        self
    }
}

/// What becomes of a parse result in its context.
pub trait ErrorHandling<'a>: Sized {
    /// What `handle_errors` returns.
    spec fn handled(self) -> Result<Value<'a>, JsonPopError<'a>>;

    /// Turns the parse result into that of the whole operation.
    fn handle_errors(self) -> (result: Result<Value<'a>, JsonPopError<'a>>)
        ensures
            result == self.handled(),
    ;
}

impl<'a> ErrorHandling<'a> for Parsed<'a, Source<'a>> {
    /// The value as it was parsed, or the parse error as the error of the
    /// operation.
    open spec fn handled(self) -> Result<Value<'a>, JsonPopError<'a>> {
        match self.parse_result {
            Ok(value) => Ok(value),
            Err(error) => Err(JsonPopError::Parse(error)),
        }
    }

    fn handle_errors(self) -> (result: Result<Value<'a>, JsonPopError<'a>>) {
        match self.parse_result {
            Ok(value) => Ok(value),
            Err(error) => Err(JsonPopError::Parse(error)),
        }
    }
}

} // verus!
