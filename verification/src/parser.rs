//! The grammar engine: a push-down machine that takes the items of the
//! token stream one by one and folds them into a value.
//!
//! ```text
//! value  := Number | string | "true" | "false" | "null" | object | array
//! string := "\"" String? "\""
//! object := "{" (pair ("," pair)*)? "}"
//! pair   := string ":" value
//! array  := "[" (value ("," value)*)? "]"
//! ```

use crate::error::CompilationError;
use crate::lex::{
    spanned_view, token_name, tokens_of, Spanned, SpannedModel, Token, TokenModel,
};
use crate::value::{pairs_view, values_view, Value, ValueModel};
use vstd::pervasive::unreached;
use vstd::prelude::*;
use vstd::string::StringSliceAdditionalSpecFns;

verus! {

/// Why an input is not a document.
#[derive(Debug, PartialEq)]
pub enum ParseError<'a> {
    /// No token could be made of the input at `location`.
    InvalidToken { location: usize },
    /// The input ended at `location` where one of `expected` had to follow.
    UnrecognizedEOF { location: usize, expected: Vec<String> },
    /// `token` stands where one of `expected` had to follow.
    UnrecognizedToken { token: (usize, Token<'a>, usize), expected: Vec<String> },
    /// `token` stands behind a complete document.
    ExtraToken { token: (usize, Token<'a>, usize) },
    /// The token stream, or the making of a value, reported `error`.
    User { error: CompilationError },
}

/// The model of a parse error.
pub enum ParseErrorModel {
    InvalidToken { location: usize },
    UnrecognizedEOF { location: usize, expected: Seq<Seq<char>> },
    UnrecognizedToken { token: (usize, TokenModel, usize), expected: Seq<Seq<char>> },
    ExtraToken { token: (usize, TokenModel, usize) },
    User { error: CompilationError },
}

/// The names in a list of strings.
pub open spec fn names_view(names: Seq<String>) -> Seq<Seq<char>> {
    Seq::new(names.len(), |i: int| names[i]@)
}

impl<'a> View for ParseError<'a> {
    type V = ParseErrorModel;

    open spec fn view(&self) -> ParseErrorModel {
        match self {
            ParseError::InvalidToken { location } => ParseErrorModel::InvalidToken {
                location: *location,
            },
            ParseError::UnrecognizedEOF { location, expected } => ParseErrorModel::UnrecognizedEOF {
                location: *location,
                expected: names_view(expected@),
            },
            ParseError::UnrecognizedToken { token, expected } => ParseErrorModel::UnrecognizedToken {
                token: (token.0, token.1@, token.2),
                expected: names_view(expected@),
            },
            ParseError::ExtraToken { token } => ParseErrorModel::ExtraToken {
                token: (token.0, token.1@, token.2),
            },
            ParseError::User { error } => ParseErrorModel::User { error: *error },
        }
    }
}

/// What `parse_str` returns.
pub type ParseResult<'a> = Result<Value<'a>, ParseError<'a>>;

/// The model of a parse result.
pub open spec fn result_view(result: ParseResult) -> Result<ValueModel, ParseErrorModel> {
    match result {
        Ok(value) => Ok(value@),
        Err(error) => Err(error@),
    }
}

/// What the machine waits for.
#[derive(Clone, Copy, Debug, PartialEq, Eq, Structural)]
pub enum Phase {
    /// A value: at the start of the document, behind a colon, and behind
    /// a comma in an array.
    Value,
    /// Behind `[`: a value, or `]`.
    FirstItem,
    /// Behind `{`: a key, or `}`.
    FirstKey,
    /// Behind a comma in an object: a key.
    Key,
    /// Behind a key: the colon.
    Colon,
    /// Behind a value in an array: a comma, or `]`.
    ArrayNext,
    /// Behind a value in an object: a comma, or `}`.
    ObjectNext,
    /// Behind the opening quote of a key: its body, or the closing quote.
    KeyStart,
    /// Behind the body of a key: the closing quote.
    KeyEnd,
    /// Behind the opening quote of a string value: its body, or the
    /// closing quote.
    StringStart,
    /// Behind the body of a string value: the closing quote.
    StringEnd,
    /// Nothing: the document is complete.
    Done,
}

/// An array or object that is still open.
pub enum FrameModel {
    /// An array and the items it holds so far.
    Array { items: Seq<ValueModel> },
    /// An object, the pairs it holds so far, and the key last read.
    Object { pairs: Seq<(Seq<u8>, ValueModel)>, key: Seq<u8> },
}

/// The state of the machine.
pub struct ParserState {
    /// The open arrays and objects, outermost first.
    pub stack: Seq<FrameModel>,
    pub phase: Phase,
    /// The body of the string literal that is being read.
    pub text: Seq<u8>,
    /// The document, once it is complete.
    pub result: Option<ValueModel>,
    /// Where the last token ended.
    pub end: usize,
}

/// The state before the first item.
pub open spec fn initial() -> ParserState {
    ParserState {
        stack: Seq::empty(),
        phase: Phase::Value,
        text: Seq::empty(),
        result: None,
        end: 0,
    }
}

/// The phase fits the stack: what is being read has a frame to go to.
pub open spec fn well_formed(state: ParserState) -> bool {
    &&& state.result is Some <==> state.phase is Done
    &&& state.phase is KeyEnd || state.phase is StringEnd || state.text.len() == 0
    &&& match state.phase {
        Phase::Value | Phase::StringStart | Phase::StringEnd => true,
        Phase::FirstItem | Phase::ArrayNext => state.stack.len() > 0 && state.stack.last() is Array,
        Phase::FirstKey | Phase::Key | Phase::Colon | Phase::ObjectNext | Phase::KeyStart
        | Phase::KeyEnd => state.stack.len() > 0 && state.stack.last() is Object,
        Phase::Done => state.stack.len() == 0,
    }
}

/// The state behind a complete value: the value goes into the innermost
/// open frame, or is the document where none is open.
pub open spec fn complete(state: ParserState, value: ValueModel) -> ParserState {
    if state.stack.len() == 0 {
        ParserState { phase: Phase::Done, result: Some(value), ..state }
    } else {
        match state.stack.last() {
            FrameModel::Array { items } => ParserState {
                stack: state.stack.drop_last().push(FrameModel::Array { items: items.push(value) }),
                phase: Phase::ArrayNext,
                ..state
            },
            FrameModel::Object { pairs, key } => ParserState {
                stack: state.stack.drop_last().push(
                    FrameModel::Object { pairs: pairs.push((key, value)), key },
                ),
                phase: Phase::ObjectNext,
                ..state
            },
        }
    }
}

/// The value that a frame holds when it is closed.
pub open spec fn frame_value(frame: FrameModel) -> ValueModel {
    match frame {
        FrameModel::Array { items } => ValueModel::Array(items),
        FrameModel::Object { pairs, key } => ValueModel::Object(pairs),
    }
}

/// The state behind a closing bracket: the innermost frame is complete.
pub open spec fn close(state: ParserState) -> ParserState {
    complete(
        ParserState { stack: state.stack.drop_last(), ..state },
        frame_value(state.stack.last()),
    )
}

/// The state behind an opening bracket.
pub open spec fn open(state: ParserState, frame: FrameModel, phase: Phase) -> ParserState {
    ParserState { stack: state.stack.push(frame), phase, ..state }
}

/// The state behind the closing quote of the key `key`.
pub open spec fn with_key(state: ParserState, key: Seq<u8>) -> ParserState {
    match state.stack.last() {
        FrameModel::Object { pairs, key: _ } => ParserState {
            stack: state.stack.drop_last().push(FrameModel::Object { pairs, key }),
            phase: Phase::Colon,
            ..state
        },
        FrameModel::Array { items } => state,
    }
}

/// The state behind `token`, or `None` where the grammar has no place
/// for it in this state.
pub open spec fn shift(state: ParserState, token: TokenModel) -> Option<ParserState> {
    match state.phase {
        Phase::Value | Phase::FirstItem => match token {
            TokenModel::Number(text) => Some(complete(state, ValueModel::Number(text))),
            TokenModel::True => Some(complete(state, ValueModel::Bool(true))),
            TokenModel::False => Some(complete(state, ValueModel::Bool(false))),
            TokenModel::Null => Some(complete(state, ValueModel::Null)),
            TokenModel::Quote => Some(ParserState { phase: Phase::StringStart, ..state }),
            TokenModel::LBrack => Some(
                open(state, FrameModel::Array { items: Seq::empty() }, Phase::FirstItem),
            ),
            TokenModel::LBrace => Some(
                open(
                    state,
                    FrameModel::Object { pairs: Seq::empty(), key: Seq::empty() },
                    Phase::FirstKey,
                ),
            ),
            TokenModel::RBrack => if state.phase is FirstItem {
                Some(close(state))
            } else {
                None
            },
            _ => None,
        },
        Phase::FirstKey | Phase::Key => match token {
            TokenModel::Quote => Some(ParserState { phase: Phase::KeyStart, ..state }),
            TokenModel::RBrace => if state.phase is FirstKey {
                Some(close(state))
            } else {
                None
            },
            _ => None,
        },
        Phase::Colon => match token {
            TokenModel::Colon => Some(ParserState { phase: Phase::Value, ..state }),
            _ => None,
        },
        Phase::ArrayNext => match token {
            TokenModel::Comma => Some(ParserState { phase: Phase::Value, ..state }),
            TokenModel::RBrack => Some(close(state)),
            _ => None,
        },
        Phase::ObjectNext => match token {
            TokenModel::Comma => Some(ParserState { phase: Phase::Key, ..state }),
            TokenModel::RBrace => Some(close(state)),
            _ => None,
        },
        Phase::KeyStart => match token {
            TokenModel::String(text) => Some(ParserState { phase: Phase::KeyEnd, text, ..state }),
            TokenModel::Quote => Some(with_key(state, Seq::empty())),
            _ => None,
        },
        Phase::KeyEnd => match token {
            TokenModel::Quote => Some(
                with_key(ParserState { text: Seq::empty(), ..state }, state.text),
            ),
            _ => None,
        },
        Phase::StringStart => match token {
            TokenModel::String(text) => Some(
                ParserState { phase: Phase::StringEnd, text, ..state },
            ),
            TokenModel::Quote => Some(complete(state, ValueModel::String(Seq::empty()))),
            _ => None,
        },
        Phase::StringEnd => match token {
            TokenModel::Quote => Some(
                complete(
                    ParserState { text: Seq::empty(), ..state },
                    ValueModel::String(state.text),
                ),
            ),
            _ => None,
        },
        Phase::Done => None,
    }
}

/// The grammar has a place for `token` in `phase`.
pub open spec fn has_place(phase: Phase, token: TokenModel) -> bool {
    match phase {
        Phase::Value => token is Number || token is Quote || token is True || token is False
            || token is Null || token is LBrace || token is LBrack,
        Phase::FirstItem => token is Number || token is Quote || token is True || token is False
            || token is Null || token is LBrace || token is LBrack || token is RBrack,
        Phase::FirstKey => token is Quote || token is RBrace,
        Phase::Key => token is Quote,
        Phase::Colon => token is Colon,
        Phase::ArrayNext => token is Comma || token is RBrack,
        Phase::ObjectNext => token is Comma || token is RBrace,
        Phase::KeyStart | Phase::StringStart => token is String || token is Quote,
        Phase::KeyEnd | Phase::StringEnd => token is Quote,
        Phase::Done => false,
    }
}

/// The machine takes a token exactly where the grammar has a place for
/// it.
pub proof fn lemma_has_place(state: ParserState, token: TokenModel)
    ensures
        shift(state, token) is Some <==> has_place(state.phase, token),
{
}

/// The number of kinds of token that a document is made of.
pub const TERMINALS: usize = 12;

/// One token of each kind that a document is made of, in the order in
/// which their names are listed.
pub open spec fn terminal(index: int) -> TokenModel {
    if index == 0 {
        TokenModel::String(Seq::empty())
    } else if index == 1 {
        TokenModel::Number(Seq::empty())
    } else if index == 2 {
        TokenModel::Quote
    } else if index == 3 {
        TokenModel::True
    } else if index == 4 {
        TokenModel::False
    } else if index == 5 {
        TokenModel::Null
    } else if index == 6 {
        TokenModel::LBrace
    } else if index == 7 {
        TokenModel::LBrack
    } else if index == 8 {
        TokenModel::Colon
    } else if index == 9 {
        TokenModel::Comma
    } else if index == 10 {
        TokenModel::RBrack
    } else {
        TokenModel::RBrace
    }
}

/// The names of those among the first `count` kinds of token that the
/// grammar has a place for in `phase`.
pub open spec fn expected_among(phase: Phase, count: nat) -> Seq<Seq<char>>
    decreases count,
{
    if count == 0 {
        Seq::empty()
    } else if has_place(phase, terminal(count - 1)) {
        expected_among(phase, (count - 1) as nat).push(token_name(terminal(count - 1)))
    } else {
        expected_among(phase, (count - 1) as nat)
    }
}

/// The names of the kinds of token that the grammar has a place for in
/// `phase`.
pub open spec fn expected(phase: Phase) -> Seq<Seq<char>> {
    expected_among(phase, TERMINALS as nat)
}

/// One step of the machine. An error of the stream is handed on as it
/// is. A token with a place in the grammar leads to the next state. Any
/// other token is extra behind a complete document, else unrecognized.
pub open spec fn feed(state: ParserState, item: SpannedModel) -> Result<
    ParserState,
    ParseErrorModel,
> {
    match item {
        Err(error) => Err(ParseErrorModel::User { error }),
        Ok((start, token, end)) => match shift(ParserState { end, ..state }, token) {
            Some(next) => Ok(next),
            None => if state.phase is Done {
                Err(ParseErrorModel::ExtraToken { token: (start, token, end) })
            } else {
                Err(
                    ParseErrorModel::UnrecognizedToken {
                        token: (start, token, end),
                        expected: expected(state.phase),
                    },
                )
            },
        },
    }
}

/// The end of the input: the document if it is complete, else the error
/// for an input that ended too early, located where the last token ended.
pub open spec fn finish(state: ParserState) -> Result<ValueModel, ParseErrorModel> {
    match state.result {
        Some(value) => Ok(value),
        None => Err(
            ParseErrorModel::UnrecognizedEOF {
                location: state.end,
                expected: expected(state.phase),
            },
        ),
    }
}

/// The state behind all of `items`, or the first error on the way.
pub open spec fn run(state: ParserState, items: Seq<SpannedModel>) -> Result<
    ParserState,
    ParseErrorModel,
>
    decreases items.len(),
{
    if items.len() == 0 {
        Ok(state)
    } else {
        match feed(state, items[0]) {
            Ok(next) => run(next, items.drop_first()),
            Err(error) => Err(error),
        }
    }
}

/// What a whole sequence of items parses to.
pub open spec fn parse_items(items: Seq<SpannedModel>) -> Result<ValueModel, ParseErrorModel> {
    match run(initial(), items) {
        Ok(state) => finish(state),
        Err(error) => Err(error),
    }
}

/// What a whole buffer parses to.
pub open spec fn parse_bytes(b: Seq<u8>) -> Result<ValueModel, ParseErrorModel> {
    parse_items(tokens_of(b))
}

/// Each step keeps the phase fitting the stack.
pub proof fn lemma_feed_well_formed(state: ParserState, item: SpannedModel)
    requires
        well_formed(state),
        feed(state, item) is Ok,
    ensures
        well_formed(feed(state, item)->Ok_0),
{
}

enum Frame<'a> {
    Array { items: Vec<Value<'a>> },
    Object { pairs: Vec<(&'a str, Value<'a>)>, key: &'a str },
}

impl<'a> View for Frame<'a> {
    type V = FrameModel;

    closed spec fn view(&self) -> FrameModel {
        match self {
            Frame::Array { items } => FrameModel::Array { items: values_view(items@) },
            Frame::Object { pairs, key } => FrameModel::Object {
                pairs: pairs_view(pairs@),
                key: key.spec_bytes(),
            },
        }
    }
}

spec fn frames_view(frames: Seq<Frame>) -> Seq<FrameModel> {
    Seq::new(frames.len(), |i: int| frames[i]@)
}

/// The grammar engine. It is fed the items of a token stream in their
/// order and asked for the document when the stream has ended.
pub struct Parser<'a> {
    stack: Vec<Frame<'a>>,
    phase: Phase,
    text: &'a str,
    result: Option<Value<'a>>,
    end: usize,
}

impl<'a> View for Parser<'a> {
    type V = ParserState;

    closed spec fn view(&self) -> ParserState {
        ParserState {
            stack: frames_view(self.stack@),
            phase: self.phase,
            text: self.text.spec_bytes(),
            result: match self.result {
                Some(value) => Some(value@),
                None => None,
            },
            end: self.end,
        }
    }
}

proof fn lemma_empty_text()
    ensures
        "".spec_bytes() == Seq::<u8>::empty(),
{
    reveal_strlit("");
    assert("".spec_bytes() =~= Seq::<u8>::empty());
}

/// One token of each kind that a document is made of.
fn terminal_token(index: usize) -> (token: Token<'static>)
    requires
        index < TERMINALS,
    ensures
        token@ == terminal(index as int),
{
    proof {
        lemma_empty_text();
    }
    if index == 0 {
        Token::String("")
    } else if index == 1 {
        Token::Number("")
    } else if index == 2 {
        Token::Quote
    } else if index == 3 {
        Token::True
    } else if index == 4 {
        Token::False
    } else if index == 5 {
        Token::Null
    } else if index == 6 {
        Token::LBrace
    } else if index == 7 {
        Token::LBrack
    } else if index == 8 {
        Token::Colon
    } else if index == 9 {
        Token::Comma
    } else if index == 10 {
        Token::RBrack
    } else {
        Token::RBrace
    }
}

/// The grammar has a place for `token` in `phase`.
pub fn takes(phase: Phase, token: Token) -> (yes: bool)
    ensures
        yes == has_place(phase, token@),
{
    match phase {
        Phase::Value => match token {
            Token::Number(_) | Token::Quote | Token::True | Token::False | Token::Null
            | Token::LBrace | Token::LBrack => true,
            _ => false,
        },
        Phase::FirstItem => match token {
            Token::Number(_) | Token::Quote | Token::True | Token::False | Token::Null
            | Token::LBrace | Token::LBrack | Token::RBrack => true,
            _ => false,
        },
        Phase::FirstKey => match token {
            Token::Quote | Token::RBrace => true,
            _ => false,
        },
        Phase::Key => match token {
            Token::Quote => true,
            _ => false,
        },
        Phase::Colon => match token {
            Token::Colon => true,
            _ => false,
        },
        Phase::ArrayNext => match token {
            Token::Comma | Token::RBrack => true,
            _ => false,
        },
        Phase::ObjectNext => match token {
            Token::Comma | Token::RBrace => true,
            _ => false,
        },
        Phase::KeyStart | Phase::StringStart => match token {
            Token::String(_) | Token::Quote => true,
            _ => false,
        },
        Phase::KeyEnd | Phase::StringEnd => match token {
            Token::Quote => true,
            _ => false,
        },
        Phase::Done => false,
    }
}

/// The names of the kinds of token that the grammar has a place for in
/// `phase`.
pub fn expected_names(phase: Phase) -> (names: Vec<String>)
    ensures
        names_view(names@) == expected(phase),
{
    let mut names: Vec<String> = Vec::new();
    let mut index: usize = 0;
    assert(names_view(names@) =~= expected_among(phase, 0));
    while index < TERMINALS
        invariant
            index <= TERMINALS,
            names_view(names@) == expected_among(phase, index as nat),
        decreases TERMINALS - index,
    {
        let token = terminal_token(index);
        let ghost before = names_view(names@);
        if takes(phase, token) {
            names.push(token.name().to_owned());
            assert(names_view(names@) =~= before.push(token_name(token@)));
        }
        index = index + 1;
    }
    names
}

/// The machine behind a complete value.
fn completed<'a>(stack: Vec<Frame<'a>>, text: &'a str, end: usize, value: Value<'a>) -> (next:
    Parser<'a>)
    requires
        text.spec_bytes().len() == 0,
    ensures
        next@ == complete(
            ParserState {
                stack: frames_view(stack@),
                phase: Phase::Value,
                text: text.spec_bytes(),
                result: None,
                end,
            },
            value@,
        ),
{
    let mut stack = stack;
    let ghost before = frames_view(stack@);
    match stack.pop() {
        None => {
            assert(frames_view(stack@) =~= before);
            Parser { stack, phase: Phase::Done, text, result: Some(value), end }
        },
        Some(Frame::Array { items }) => {
            let mut items = items;
            let ghost rest = frames_view(stack@);
            let ghost before_items = values_view(items@);
            assert(rest =~= before.drop_last());
            items.push(value);
            assert(values_view(items@) =~= before_items.push(value@));
            stack.push(Frame::Array { items });
            assert(frames_view(stack@) =~= rest.push(
                FrameModel::Array { items: before_items.push(value@) },
            ));
            Parser { stack, phase: Phase::ArrayNext, text, result: None, end }
        },
        Some(Frame::Object { pairs, key }) => {
            let mut pairs = pairs;
            let ghost rest = frames_view(stack@);
            let ghost before_pairs = pairs_view(pairs@);
            assert(rest =~= before.drop_last());
            pairs.push((key, value));
            assert(pairs_view(pairs@) =~= before_pairs.push((key.spec_bytes(), value@)));
            stack.push(Frame::Object { pairs, key });
            assert(frames_view(stack@) =~= rest.push(
                FrameModel::Object {
                    pairs: before_pairs.push((key.spec_bytes(), value@)),
                    key: key.spec_bytes(),
                },
            ));
            Parser { stack, phase: Phase::ObjectNext, text, result: None, end }
        },
    }
}

/// The machine behind a closing bracket.
fn closed<'a>(stack: Vec<Frame<'a>>, text: &'a str, end: usize) -> (next: Parser<'a>)
    requires
        text.spec_bytes().len() == 0,
        stack@.len() > 0,
    ensures
        next@ == close(
            ParserState {
                stack: frames_view(stack@),
                phase: Phase::Value,
                text: text.spec_bytes(),
                result: None,
                end,
            },
        ),
{
    let mut stack = stack;
    let ghost before = frames_view(stack@);
    let frame = stack.pop();
    assert(frames_view(stack@) =~= before.drop_last());
    match frame {
        Some(Frame::Array { items }) => {
            let value = Value::Array(items);
            proof {
                crate::value::lemma_array_view(value);
            }
            completed(stack, text, end, value)
        },
        Some(Frame::Object { pairs, key }) => {
            let value = Value::Object(pairs);
            proof {
                crate::value::lemma_object_view(value);
            }
            completed(stack, text, end, value)
        },
        None => unreached(),
    }
}

/// The machine behind the closing quote of the key `key`.
fn keyed<'a>(stack: Vec<Frame<'a>>, text: &'a str, end: usize, key: &'a str) -> (next: Parser<'a>)
    requires
        text.spec_bytes().len() == 0,
        stack@.len() > 0,
        stack@.last() is Object,
    ensures
        next@ == with_key(
            ParserState {
                stack: frames_view(stack@),
                phase: Phase::Value,
                text: text.spec_bytes(),
                result: None,
                end,
            },
            key.spec_bytes(),
        ),
{
    let mut stack = stack;
    let ghost before = frames_view(stack@);
    match stack.pop() {
        Some(Frame::Object { pairs, key: _ }) => {
            let ghost rest = frames_view(stack@);
            assert(rest =~= before.drop_last());
            stack.push(Frame::Object { pairs, key });
            assert(frames_view(stack@) =~= rest.push(
                FrameModel::Object { pairs: pairs_view(pairs@), key: key.spec_bytes() },
            ));
            Parser { stack, phase: Phase::Colon, text, result: None, end }
        },
        _ => unreached(),
    }
}

/// The machine behind an opening bracket.
fn opened<'a>(stack: Vec<Frame<'a>>, text: &'a str, end: usize, frame: Frame<'a>, phase: Phase) -> (next:
    Parser<'a>)
    requires
        text.spec_bytes().len() == 0,
        (phase is FirstItem && frame is Array) || (phase is FirstKey && frame is Object),
    ensures
        next@ == open(
            ParserState {
                stack: frames_view(stack@),
                phase: Phase::Value,
                text: text.spec_bytes(),
                result: None,
                end,
            },
            frame@,
            phase,
        ),
{
    let mut stack = stack;
    let ghost before = frames_view(stack@);
    stack.push(frame);
    assert(frames_view(stack@) =~= before.push(frame@));
    Parser { stack, phase, text, result: None, end }
}

impl<'a> Parser<'a> {
    #[verifier::type_invariant]
    spec fn inv(self) -> bool {
        well_formed(self@)
    }

    /// A machine before the first item.
    pub fn new() -> (parser: Self)
        ensures
            parser@ == initial(),
    {
        proof {
            lemma_empty_text();
        }
        let parser = Parser { stack: Vec::new(), phase: Phase::Value, text: "", result: None, end: 0 };
        assert(parser@.stack =~= Seq::empty());
        parser
    }

    /// Takes one item of the stream: the machine in its next state, or
    /// the error that ends the parse.
    pub fn feed(self, item: Spanned<'a>) -> (next: Result<Parser<'a>, ParseError<'a>>)
        ensures
            match feed(self@, spanned_view(item)) {
                Ok(state) => next is Ok && next->Ok_0@ == state,
                Err(error) => next is Err && next->Err_0@ == error,
            },
    {
        proof {
            use_type_invariant(&self);
            lemma_empty_text();
        }
        let (start, token, end) = match item {
            Ok(triple) => triple,
            Err(error) => {
                return Err(ParseError::User { error });
            },
        };
        let Parser { stack, phase, text, result, end: _ } = self;
        assert(frames_view(stack@).len() == stack@.len());
        assert(stack@.len() > 0 ==> frames_view(stack@).last() == stack@.last()@);
        if !takes(phase, token) {
            return Err(
                match phase {
                    Phase::Done => ParseError::ExtraToken { token: (start, token, end) },
                    _ => ParseError::UnrecognizedToken {
                        token: (start, token, end),
                        expected: expected_names(phase),
                    },
                },
            );
        }
        Ok(
            match token {
                Token::Number(number) => completed(stack, text, end, Value::Number(number)),
                Token::True => completed(stack, text, end, Value::Bool(true)),
                Token::False => completed(stack, text, end, Value::Bool(false)),
                Token::Null => completed(stack, text, end, Value::Null),
                Token::LBrack => {
                    let frame = Frame::Array { items: Vec::new() };
                    assert(frame@ == FrameModel::Array { items: Seq::empty() }) by {
                        assert(values_view(Seq::<Value>::empty()) =~= Seq::empty());
                    }
                    opened(stack, text, end, frame, Phase::FirstItem)
                },
                Token::LBrace => {
                    let frame = Frame::Object { pairs: Vec::new(), key: "" };
                    assert(frame@ == FrameModel::Object { pairs: Seq::empty(), key: Seq::empty() })
                        by {
                        assert(pairs_view(Seq::<(&str, Value)>::empty()) =~= Seq::empty());
                    }
                    opened(stack, text, end, frame, Phase::FirstKey)
                },
                Token::RBrack | Token::RBrace => closed(stack, text, end),
                Token::Colon => Parser { stack, phase: Phase::Value, text, result: None, end },
                Token::Comma => match phase {
                    Phase::ArrayNext => Parser {
                        stack,
                        phase: Phase::Value,
                        text,
                        result: None,
                        end,
                    },
                    _ => Parser { stack, phase: Phase::Key, text, result: None, end },
                },
                Token::String(body) => match phase {
                    Phase::KeyStart => Parser {
                        stack,
                        phase: Phase::KeyEnd,
                        text: body,
                        result: None,
                        end,
                    },
                    _ => Parser { stack, phase: Phase::StringEnd, text: body, result: None, end },
                },
                Token::Quote => match phase {
                    Phase::Value | Phase::FirstItem => Parser {
                        stack,
                        phase: Phase::StringStart,
                        text,
                        result: None,
                        end,
                    },
                    Phase::FirstKey | Phase::Key => Parser {
                        stack,
                        phase: Phase::KeyStart,
                        text,
                        result: None,
                        end,
                    },
                    Phase::KeyStart => keyed(stack, text, end, ""),
                    Phase::KeyEnd => keyed(stack, "", end, text),
                    Phase::StringStart => completed(stack, text, end, Value::String("")),
                    _ => completed(stack, "", end, Value::String(text)),
                },
                Token::Error | Token::EndOfInput => unreached(),
            },
        )
    }

    /// Ends the parse: the document if it is complete, else the error
    /// for an input that ended too early.
    pub fn finish(self) -> (result: ParseResult<'a>)
        ensures
            result_view(result) == finish(self@),
    {
        let Parser { stack, phase, text, result, end } = self;
        match result {
            Some(value) => Ok(value),
            None => Err(
                ParseError::UnrecognizedEOF { location: end, expected: expected_names(phase) },
            ),
        }
    }
}

} // verus!
