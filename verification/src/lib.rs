//! A JSON front end: a tokenizer with two scanning modes, a value tree that
//! borrows its text from the input, and positioned errors with their
//! diagnostics.

pub mod error;
pub mod extra;
pub mod failure;
pub mod grammar;
pub mod lex;
pub mod parser;
pub mod round_trip;
pub mod scan;
pub mod span;
pub mod value;

use crate::lex::{lemma_step_progress, steps_left, tokens_of, TokenStream};
use crate::parser::{initial, parse_bytes, result_view, run, ParseResult, Parser};
use crate::value::{render, Value};
use vstd::prelude::*;
use vstd::string::StringSliceAdditionalSpecFns;
use vstd::utf8::encode_utf8;

verus! {

/// Parses a whole document: the value it denotes, or the first error in
/// the order of the input.
pub fn parse_str<'a>(bytes: &'a str) -> (result: ParseResult<'a>)
    ensures
        result_view(result) == parse_bytes(bytes.spec_bytes()),
{
    let mut stream = TokenStream::new(bytes);
    let mut parser = Parser::new();
    loop
        invariant
            stream.bytes() == bytes.spec_bytes(),
            0 <= stream.position() <= stream.bytes().len(),
            run(parser@, stream.remaining()) == run(initial(), tokens_of(bytes.spec_bytes())),
        decreases steps_left(stream.bytes(), stream.position(), stream.mode()),
    {
        let ghost left = stream.remaining();
        proof {
            lemma_step_progress(stream.bytes(), stream.position(), stream.mode());
        }
        match stream.next_item() {
            None => {
                return parser.finish();
            },
            Some(item) => {
                assert(left.drop_first() =~= stream.remaining());
                match parser.feed(item) {
                    Ok(next) => {
                        parser = next;
                    },
                    Err(error) => {
                        return Err(error);
                    },
                }
            },
        }
    }
}

/// The canonical text of a value, ready to be written out.
pub fn stringify<'a>(v: &'a Value<'a>) -> (text: String)
    ensures
        encode_utf8(text@) == render(v@),
{
    v.render()
}

} // verus!
