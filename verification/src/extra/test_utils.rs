//! Sources that say whether they should parse, for tests of the parser.

use crate::error::JsonPopError;
use crate::extra::source::{ErrorHandling, Parsable, Parsed, Source};
use crate::parse_str;
use crate::value::Value;
use vstd::prelude::*;

verus! {

/// How a test of the parser can fail on its own account.
#[derive(Debug)]
pub enum TestError<'a> {
    /// A source that should not parse gave a value.
    InvalidSourceParsedOk(Value<'a>, &'a Source<'a>),
}

/// A source, and whether it should parse.
#[derive(Debug)]
pub enum Test<'a> {
    /// A source that is a document.
    TestValid(Source<'a>),
    /// A source that is no document.
    TestInvalid(Source<'a>),
}

impl<'a> Test<'a> {
    /// The source is expected not to parse.
    pub open spec fn spec_should_fail(&self) -> bool {
        self is TestInvalid
    }

    /// The source is expected not to parse.
    #[verifier::when_used_as_spec(spec_should_fail)]
    pub fn should_fail(&self) -> (fails: bool)
        ensures
            fails == (self is TestInvalid),
    {
        match self {
            Self::TestValid(_) => false,
            Self::TestInvalid(_) => true,
        }
    }
}

impl<'a> Parsable<'a> for Test<'a> {
    type SourceContext = Test<'a>;

    open spec fn spec_source(&self) -> Source<'a> {
        match self {
            Test::TestValid(source) => *source,
            Test::TestInvalid(source) => *source,
        }
    }

    fn parse(&'a self) -> (parsed: Parsed<'a, Self>)
        ensures
            parsed.source_ctxt == self,
    {
        let source = self.source();
        Parsed { source_ctxt: self, parse_result: parse_str(source.as_str()) }
    }

    fn source(&'a self) -> (source: &Source<'a>) {
        match self {
            Test::TestValid(source) => source,
            Test::TestInvalid(source) => source,
        }
    }
}

impl<'a> ErrorHandling<'a> for Parsed<'a, Test<'a>> {
    /// A source that should fail and does gives `Null`; one that should
    /// fail and parses gives the test error with the value and the
    /// source; any other gives its value or its parse error.
    open spec fn handled(self) -> Result<Value<'a>, JsonPopError<'a>> {
        match self.parse_result {
            Err(error) => if self.source_ctxt.should_fail() {
                Ok(Value::Null)
            } else {
                Err(JsonPopError::Parse(error))
            },
            Ok(value) => if self.source_ctxt.should_fail() {
                Err(
                    JsonPopError::TestError(
                        TestError::InvalidSourceParsedOk(value, &self.source_ctxt.spec_source()),
                    ),
                )
            } else {
                Ok(value)
            },
        }
    }

    fn handle_errors(self) -> (result: Result<Value<'a>, JsonPopError<'a>>) {
        let fails = self.source_ctxt.should_fail();
        match self.parse_result {
            Err(error) => if fails {
                Ok(Value::Null)
            } else {
                Err(JsonPopError::Parse(error))
            },
            Ok(value) => if fails {
                Err(
                    JsonPopError::TestError(
                        TestError::InvalidSourceParsedOk(value, self.source_ctxt.source()),
                    ),
                )
            } else {
                Ok(value)
            },
        }
    }
}

} // verus!
