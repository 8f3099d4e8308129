//! Tokens and the stream that produces them.

use crate::error::CompilationError;
use crate::scan::{
    at_boundary, char_end, content_end, has_word, hex_end, is_whitespace,
    lemma_boundary_after_ascii, lemma_boundary_at_start, lemma_boundary_is_char_boundary,
    lemma_content_end_bounds, lemma_continuation_end_bounds, lemma_hex_end_bounds,
    lemma_number_end_bounds, lemma_whitespace_end_bounds, number_end, scan_char, scan_content,
    scan_hex, scan_number, skip_whitespace, whitespace_end, BACKSLASH, COLON, COMMA, LEFT_BRACE,
    LEFT_BRACKET, QUOTE, RIGHT_BRACE, RIGHT_BRACKET,
};
use crate::span::Span;
use vstd::prelude::*;
use vstd::string::StringSliceAdditionalSpecFns;
use vstd::utf8::{encode_utf8_valid_utf8, valid_utf8};

verus! {

/// A classified lexeme. `Number` and `String` borrow their text from the
/// input, undecoded.
#[derive(Debug, PartialEq, Copy, Clone)]
pub enum Token<'a> {
    /// No recogniser matched.
    Error,
    True,
    False,
    Null,
    Colon,
    Comma,
    LBrace,
    RBrace,
    LBrack,
    RBrack,
    /// A number literal, as written.
    Number(&'a str),
    /// The body of a string literal between its quotes, escapes as written.
    String(&'a str),
    /// The quote that opens or closes a string literal.
    Quote,
    /// The end of the input, seen outside a string literal.
    EndOfInput,
}

/// What a token is, with its text as bytes.
pub enum TokenModel {
    Error,
    True,
    False,
    Null,
    Colon,
    Comma,
    LBrace,
    RBrace,
    LBrack,
    RBrack,
    Number(Seq<u8>),
    String(Seq<u8>),
    Quote,
    EndOfInput,
}

impl<'a> View for Token<'a> {
    type V = TokenModel;

    open spec fn view(&self) -> TokenModel {
        match *self {
            Token::Error => TokenModel::Error,
            Token::True => TokenModel::True,
            Token::False => TokenModel::False,
            Token::Null => TokenModel::Null,
            Token::Colon => TokenModel::Colon,
            Token::Comma => TokenModel::Comma,
            Token::LBrace => TokenModel::LBrace,
            Token::RBrace => TokenModel::RBrace,
            Token::LBrack => TokenModel::LBrack,
            Token::RBrack => TokenModel::RBrack,
            Token::Number(text) => TokenModel::Number(text.spec_bytes()),
            Token::String(text) => TokenModel::String(text.spec_bytes()),
            Token::Quote => TokenModel::Quote,
            Token::EndOfInput => TokenModel::EndOfInput,
        }
    }
}

/// One item of the token stream, as the parser takes it: a token between
/// its two offsets, or the error found in its place.
pub type Spanned<'a> = Result<(usize, Token<'a>, usize), CompilationError>;

/// The model of a stream item.
pub type SpannedModel = Result<(usize, TokenModel, usize), CompilationError>;

/// The model of a stream item.
pub open spec fn spanned_view(item: Spanned) -> SpannedModel {
    match item {
        Ok((start, token, end)) => Ok((start, token@, end)),
        Err(error) => Err(error),
    }
}

/// The stream item for `token` found at `span`.
pub open spec fn lalr_triple(token: TokenModel, span: Span) -> SpannedModel {
    if token is Error {
        Err(CompilationError::LexicalError { span })
    } else {
        Ok((span.start, token, span.end))
    }
}

/// The name of a token in the grammar: a fixed token as it is written,
/// between quotes, a number or the body of a string by its kind.
pub open spec fn token_name(token: TokenModel) -> Seq<char> {
    match token {
        TokenModel::Error => "Error"@,
        TokenModel::True => "\"true\""@,
        TokenModel::False => "\"false\""@,
        TokenModel::Null => "\"null\""@,
        TokenModel::Colon => "\":\""@,
        TokenModel::Comma => "\",\""@,
        TokenModel::LBrace => "\"{\""@,
        TokenModel::RBrace => "\"}\""@,
        TokenModel::LBrack => "\"[\""@,
        TokenModel::RBrack => "\"]\""@,
        TokenModel::Number(text) => "Number"@,
        TokenModel::String(text) => "String"@,
        TokenModel::Quote => "\"\\\"\""@,
        TokenModel::EndOfInput => "EndOfInput"@,
    }
}

impl<'a> Token<'a> {
    /// The name of the token in the grammar.
    pub fn name(&self) -> (name: &'static str)
        ensures
            name@ == token_name(self@),
    {
        match self {
            Token::Error => "Error",
            Token::True => "\"true\"",
            Token::False => "\"false\"",
            Token::Null => "\"null\"",
            Token::Colon => "\":\"",
            Token::Comma => "\",\"",
            Token::LBrace => "\"{\"",
            Token::RBrace => "\"}\"",
            Token::LBrack => "\"[\"",
            Token::RBrack => "\"]\"",
            Token::Number(_) => "Number",
            Token::String(_) => "String",
            Token::Quote => "\"\\\"\"",
            Token::EndOfInput => "EndOfInput",
        }
    }

    /// Turns a token and its span into a stream item: `Error` becomes a
    /// lexical error over the span, any other token keeps its place.
    pub fn to_lalr_triple(pair: (Token<'a>, Span)) -> (item: Spanned<'a>)
        ensures
            spanned_view(item) == lalr_triple(pair.0@, pair.1),
            item matches Ok(triple) ==> triple.1 == pair.0,
    {
        let (token, span) = pair;
        match token {
            Token::Error => Err(CompilationError::LexicalError { span }),
            _ => Ok((span.start, token, span.end)),
        }
    }
}

/// The stream item for a number literal whose conversion failed: the
/// numerical error over the literal's span.
pub open spec fn checked(item: SpannedModel, converts: bool) -> SpannedModel {
    match item {
        Ok((start, TokenModel::Number(text), end)) => if converts {
            item
        } else {
            Err(CompilationError::NumericalError { span: Span { start, end } })
        },
        _ => item,
    }
}

/// Hands a stream item on to the parser once the caller has tried to
/// convert it: a number literal that did not convert becomes the
/// numerical error over its span, anything else stays as it is.
pub fn number_checked<'a>(item: Spanned<'a>, converts: bool) -> (out: Spanned<'a>)
    ensures
        spanned_view(out) == checked(spanned_view(item), converts),
        out is Ok ==> out == item,
{
    match item {
        Ok((start, Token::Number(text), end)) => if converts {
            item
        } else {
            Err(CompilationError::NumericalError { span: Span::new(start, end) })
        },
        _ => item,
    }
}

/// Which of the two recognisers is scanning.
#[derive(Clone, Copy, Debug, PartialEq, Eq, Structural)]
pub enum LexMode {
    /// Between tokens, outside any string literal.
    Top,
    /// Inside the string literal whose opening quote stands at `open`.
    Quoted { open: usize },
}

/// The bytes of `true`.
pub open spec fn word_true() -> Seq<u8> {
    seq![0x74u8, 0x72u8, 0x75u8, 0x65u8]
}

/// The bytes of `false`.
pub open spec fn word_false() -> Seq<u8> {
    seq![0x66u8, 0x61u8, 0x6cu8, 0x73u8, 0x65u8]
}

/// The bytes of `null`.
pub open spec fn word_null() -> Seq<u8> {
    seq![0x6eu8, 0x75u8, 0x6cu8, 0x6cu8]
}

/// The token that begins at `p` outside a string literal, and the offset
/// at which it ends, where `p` holds no whitespace. At the end of the
/// buffer the token is `EndOfInput`. Where nothing matches, the token is
/// `Error` and covers one character.
pub open spec fn top_token(b: Seq<u8>, p: int) -> (TokenModel, int) {
    let c = b[p];
    if p >= b.len() {
        (TokenModel::EndOfInput, p)
    } else if c == LEFT_BRACE {
        (TokenModel::LBrace, p + 1)
    } else if c == RIGHT_BRACE {
        (TokenModel::RBrace, p + 1)
    } else if c == LEFT_BRACKET {
        (TokenModel::LBrack, p + 1)
    } else if c == RIGHT_BRACKET {
        (TokenModel::RBrack, p + 1)
    } else if c == COLON {
        (TokenModel::Colon, p + 1)
    } else if c == COMMA {
        (TokenModel::Comma, p + 1)
    } else if c == QUOTE {
        (TokenModel::Quote, p + 1)
    } else if has_word(b, p, word_true()) {
        (TokenModel::True, p + 4)
    } else if has_word(b, p, word_false()) {
        (TokenModel::False, p + 5)
    } else if has_word(b, p, word_null()) {
        (TokenModel::Null, p + 4)
    } else if number_end(b, p) is Some {
        (TokenModel::Number(b.subrange(p, number_end(b, p)->0)), number_end(b, p)->0)
    } else {
        (TokenModel::Error, char_end(b, p))
    }
}

/// The end of the bytes that a malformed escape at `p` takes with it,
/// where `b[p]` is a backslash that begins no escape sequence: behind `u`
/// the hex digits that follow it, else the character behind the
/// backslash, or the backslash alone at the end of the buffer.
pub open spec fn bad_escape_end(b: Seq<u8>, p: int) -> int {
    if p + 1 >= b.len() {
        p + 1
    } else if b[p + 1] == 0x75 {
        hex_end(b, p + 2, 3)
    } else {
        char_end(b, p + 1)
    }
}

/// The span that the lexical error for a malformed escape at `p` carries:
/// from the `u` of a short `\u` escape, else from the backslash.
pub open spec fn bad_escape_span(b: Seq<u8>, p: int) -> Span {
    if p + 1 < b.len() && b[p + 1] == 0x75 {
        Span { start: (p + 1) as usize, end: bad_escape_end(b, p) as usize }
    } else {
        Span { start: p as usize, end: bad_escape_end(b, p) as usize }
    }
}

/// One step of the stream: the item it yields, if the input has not
/// ended, and the offset and mode from which the next step goes on.
pub struct Step {
    pub item: Option<SpannedModel>,
    pub pos: int,
    pub mode: LexMode,
}

/// The step taken outside a string literal: whitespace is skipped, then
/// one token is taken. The end of the input ends the stream. An opening
/// quote switches to `Quoted`.
pub open spec fn top_step(b: Seq<u8>, pos: int) -> Step {
    let p = whitespace_end(b, pos);
    let (token, end) = top_token(b, p);
    if token is EndOfInput {
        Step { item: None, pos: p, mode: LexMode::Top }
    } else {
        Step {
            item: Some(lalr_triple(token, Span { start: p as usize, end: end as usize })),
            pos: end,
            mode: if token is Quote {
                LexMode::Quoted { open: p as usize }
            } else {
                LexMode::Top
            },
        }
    }
}

/// The step taken inside the string literal that opened at `open`. The
/// closing quote switches back to `Top`; so does the end of the input,
/// which yields the error for an unterminated literal. A control
/// character or a malformed escape yields a lexical error, and the scan
/// goes on behind it.
pub open spec fn quoted_step(b: Seq<u8>, pos: int, open: usize) -> Step {
    if pos >= b.len() {
        Step {
            item: Some(
                Err(
                    CompilationError::UnterminatedStringLiteral {
                        span: Span { start: open, end: b.len() as usize },
                    },
                ),
            ),
            pos: pos,
            mode: LexMode::Top,
        }
    } else if b[pos] == QUOTE {
        Step {
            item: Some(Ok((pos as usize, TokenModel::Quote, (pos + 1) as usize))),
            pos: pos + 1,
            mode: LexMode::Top,
        }
    } else if content_end(b, pos) > pos {
        Step {
            item: Some(
                Ok(
                    (
                        pos as usize,
                        TokenModel::String(b.subrange(pos, content_end(b, pos))),
                        content_end(b, pos) as usize,
                    ),
                ),
            ),
            pos: content_end(b, pos),
            mode: LexMode::Quoted { open },
        }
    } else if b[pos] == BACKSLASH {
        Step {
            item: Some(Err(CompilationError::LexicalError { span: bad_escape_span(b, pos) })),
            pos: bad_escape_end(b, pos),
            mode: LexMode::Quoted { open },
        }
    } else {
        Step {
            item: Some(
                Err(
                    CompilationError::LexicalError {
                        span: Span { start: pos as usize, end: (pos + 1) as usize },
                    },
                ),
            ),
            pos: pos + 1,
            mode: LexMode::Quoted { open },
        }
    }
}

/// One step of the stream from offset `pos` in mode `mode`.
pub open spec fn lex_step(b: Seq<u8>, pos: int, mode: LexMode) -> Step {
    match mode {
        LexMode::Top => top_step(b, pos),
        LexMode::Quoted { open } => quoted_step(b, pos, open),
    }
}

/// What decreases from one step to the next: the bytes left, and behind
/// them the mode, since the end of the input inside a string literal takes
/// one step of its own.
pub open spec fn steps_left(b: Seq<u8>, pos: int, mode: LexMode) -> int {
    2 * (b.len() - pos) + if mode is Quoted {
        1int
    } else {
        0int
    }
}

/// A step stays inside the buffer, and one that yields an item makes
/// progress.
pub proof fn lemma_step_progress(b: Seq<u8>, pos: int, mode: LexMode)
    requires
        0 <= pos <= b.len(),
    ensures
        pos <= lex_step(b, pos, mode).pos <= b.len(),
        lex_step(b, pos, mode).item is Some ==> 0 <= steps_left(
            b,
            lex_step(b, pos, mode).pos,
            lex_step(b, pos, mode).mode,
        ) < steps_left(b, pos, mode),
        lex_step(b, pos, mode).item is None ==> lex_step(b, pos, mode).pos == b.len() && mode is Top,
{
    match mode {
        LexMode::Top => {
            lemma_whitespace_end_bounds(b, pos);
            let p = whitespace_end(b, pos);
            if p < b.len() {
                lemma_continuation_end_bounds(b, p + 1);
                if number_end(b, p) is Some {
                    lemma_number_end_bounds(b, p);
                }
            }
        },
        LexMode::Quoted { open } => {
            if pos < b.len() {
                lemma_content_end_bounds(b, pos);
                if pos + 1 < b.len() {
                    lemma_continuation_end_bounds(b, pos + 2);
                    lemma_hex_end_bounds(b, pos + 2, 3);
                }
            }
        },
    }
}

/// In well-formed UTF-8 whitespace ends on the first byte of a character
/// if it began on one.
pub proof fn lemma_whitespace_end_boundary(b: Seq<u8>, pos: int)
    requires
        valid_utf8(b),
        0 <= pos <= b.len(),
        at_boundary(b, pos),
    ensures
        at_boundary(b, whitespace_end(b, pos)),
    decreases b.len() - pos,
{
    if pos < b.len() && is_whitespace(b[pos]) {
        lemma_boundary_after_ascii(b, pos);
        lemma_whitespace_end_boundary(b, pos + 1);
    }
}

/// In well-formed UTF-8 a step that begins on the first byte of a
/// character ends on one, and so does the span of its item.
pub proof fn lemma_step_boundary(b: Seq<u8>, pos: int, mode: LexMode)
    requires
        valid_utf8(b),
        0 <= pos <= b.len(),
        at_boundary(b, pos),
    ensures
        at_boundary(b, lex_step(b, pos, mode).pos),
        mode is Top ==> at_boundary(b, whitespace_end(b, pos)),
{
    lemma_step_progress(b, pos, mode);
    match mode {
        LexMode::Top => {
            lemma_whitespace_end_bounds(b, pos);
            lemma_whitespace_end_boundary(b, pos);
            let p = whitespace_end(b, pos);
            if p < b.len() {
                lemma_continuation_end_bounds(b, p + 1);
                if number_end(b, p) is Some {
                    lemma_number_end_bounds(b, p);
                    lemma_boundary_after_ascii(b, number_end(b, p)->0 - 1);
                }
                if has_word(b, p, word_true()) {
                    assert(b[p + 3] == b.subrange(p, p + 4)[3]);
                    lemma_boundary_after_ascii(b, p + 3);
                }
                if has_word(b, p, word_false()) {
                    assert(b[p + 4] == b.subrange(p, p + 5)[4]);
                    lemma_boundary_after_ascii(b, p + 4);
                }
                if has_word(b, p, word_null()) {
                    assert(b[p + 3] == b.subrange(p, p + 4)[3]);
                    lemma_boundary_after_ascii(b, p + 3);
                }
                if b[p] <= 0x7f {
                    lemma_boundary_after_ascii(b, p);
                }
            }
        },
        LexMode::Quoted { open } => {
            if pos < b.len() {
                lemma_content_end_bounds(b, pos);
                if b[pos] <= 0x7f {
                    lemma_boundary_after_ascii(b, pos);
                }
                if pos + 1 < b.len() {
                    lemma_continuation_end_bounds(b, pos + 2);
                    lemma_hex_end_bounds(b, pos + 2, 3);
                    if b[pos] == BACKSLASH && b[pos + 1] == 0x75 {
                        let e = hex_end(b, pos + 2, 3);
                        assert(b[e - 1] <= 0x7f) by {
                            if e > pos + 2 {
                                assert(crate::scan::is_hex_digit(b[e - 1]));
                            }
                        }
                        lemma_boundary_after_ascii(b, e - 1);
                    }
                }
            }
        },
    }
}

/// The span of a stream item: that of its token, or the one that its
/// error carries.
pub open spec fn item_span(item: SpannedModel) -> Span {
    match item {
        Ok((start, token, end)) => Span { start, end },
        Err(error) => error.span(),
    }
}

/// The span of an item is never empty and lies inside the buffer. It
/// ends where the next step begins, and it begins no earlier than this
/// step, but for the error of an unterminated literal, which reaches
/// back to the opening quote.
pub proof fn lemma_step_span(b: Seq<u8>, pos: int, mode: LexMode)
    requires
        0 <= pos <= b.len() <= usize::MAX,
        mode matches LexMode::Quoted { open } ==> open < pos,
        lex_step(b, pos, mode).item is Some,
    ensures
        item_span(lex_step(b, pos, mode).item->0).start < item_span(
            lex_step(b, pos, mode).item->0,
        ).end == lex_step(b, pos, mode).pos <= b.len(),
        lex_step(b, pos, mode).item->0 matches Err(
            CompilationError::UnterminatedStringLiteral { .. },
        ) || pos <= item_span(lex_step(b, pos, mode).item->0).start,
        lex_step(b, pos, mode).mode matches LexMode::Quoted { open } ==> open < lex_step(
            b,
            pos,
            mode,
        ).pos,
{
    lemma_step_progress(b, pos, mode);
    match mode {
        LexMode::Top => {
            lemma_whitespace_end_bounds(b, pos);
            let p = whitespace_end(b, pos);
            lemma_continuation_end_bounds(b, p + 1);
            if number_end(b, p) is Some {
                lemma_number_end_bounds(b, p);
            }
        },
        LexMode::Quoted { open } => {
            if pos < b.len() {
                lemma_content_end_bounds(b, pos);
                if pos + 1 < b.len() {
                    lemma_continuation_end_bounds(b, pos + 2);
                    lemma_hex_end_bounds(b, pos + 2, 3);
                }
            }
        },
    }
}

/// The items that the stream yields from offset `pos` in mode `mode` to
/// the end of the input.
pub open spec fn items_from(b: Seq<u8>, pos: int, mode: LexMode) -> Seq<SpannedModel>
    decreases steps_left(b, pos, mode),
    when 0 <= pos <= b.len()
{
    let step = lex_step(b, pos, mode);
    match step.item {
        None => Seq::empty(),
        Some(item) => {
            proof {
                lemma_step_progress(b, pos, mode);
            }
            seq![item] + items_from(b, step.pos, step.mode)
        },
    }
}

/// In well-formed UTF-8 the span of an item begins and ends on the first
/// byte of a character, or at the end of the buffer: the buffer can be
/// sliced at it.
pub proof fn lemma_step_span_boundary(b: Seq<u8>, pos: int, mode: LexMode)
    requires
        valid_utf8(b),
        0 <= pos <= b.len() <= usize::MAX,
        at_boundary(b, pos),
        mode matches LexMode::Quoted { open } ==> open < pos && at_boundary(b, open as int),
        lex_step(b, pos, mode).item is Some,
    ensures
        at_boundary(b, item_span(lex_step(b, pos, mode).item->0).start as int),
        at_boundary(b, item_span(lex_step(b, pos, mode).item->0).end as int),
        lex_step(b, pos, mode).mode matches LexMode::Quoted { open } ==> at_boundary(
            b,
            open as int,
        ),
{
    lemma_step_span(b, pos, mode);
    lemma_step_boundary(b, pos, mode);
    match mode {
        LexMode::Top => {
            lemma_whitespace_end_bounds(b, pos);
        },
        LexMode::Quoted { open } => {
            if pos < b.len() && b[pos] == BACKSLASH {
                lemma_boundary_after_ascii(b, pos);
            }
        },
    }
}

/// The stream is finite: it yields at most one item for each byte that
/// is left, and one more for a string literal that is left open.
pub proof fn lemma_stream_finite(b: Seq<u8>, pos: int, mode: LexMode)
    requires
        0 <= pos <= b.len(),
    ensures
        items_from(b, pos, mode).len() <= b.len() - pos + 1,
        mode is Top && pos == b.len() ==> items_from(b, pos, mode).len() == 0,
    decreases steps_left(b, pos, mode),
{
    let step = lex_step(b, pos, mode);
    lemma_step_progress(b, pos, mode);
    if step.item is Some {
        lemma_stream_finite(b, step.pos, step.mode);
        if mode is Top {
            lemma_whitespace_end_bounds(b, pos);
            let p = whitespace_end(b, pos);
            lemma_continuation_end_bounds(b, p + 1);
            if number_end(b, p) is Some {
                lemma_number_end_bounds(b, p);
            }
        } else if pos < b.len() {
            lemma_content_end_bounds(b, pos);
            if pos + 1 < b.len() {
                lemma_continuation_end_bounds(b, pos + 2);
                lemma_hex_end_bounds(b, pos + 2, 3);
            }
        }
    }
}

/// The items of the whole input.
pub open spec fn tokens_of(b: Seq<u8>) -> Seq<SpannedModel> {
    items_from(b, 0, LexMode::Top)
}

/// The text of `source` between two offsets that are character
/// boundaries.
fn slice<'a>(source: &'a str, start: usize, end: usize) -> (text: &'a str)
    requires
        start <= end <= source.spec_bytes().len(),
        at_boundary(source.spec_bytes(), start as int),
        at_boundary(source.spec_bytes(), end as int),
    ensures
        text.spec_bytes() == source.spec_bytes().subrange(start as int, end as int),
{
    let ghost b = source.spec_bytes();
    proof {
        encode_utf8_valid_utf8(source@);
        lemma_boundary_is_char_boundary(b, end as int);
    }
    let (head, _) = source.split_at(end);
    proof {
        encode_utf8_valid_utf8(head@);
        assert(at_boundary(head.spec_bytes(), start as int));
        lemma_boundary_is_char_boundary(head.spec_bytes(), start as int);
    }
    let (_, text) = head.split_at(start);
    assert(text.spec_bytes() =~= b.subrange(start as int, end as int));
    text
}

/// The buffer holds `true` at `pos`.
fn has_true(bytes: &[u8], pos: usize) -> (yes: bool)
    requires
        pos <= bytes@.len(),
    ensures
        yes == has_word(bytes@, pos as int, word_true()),
{
    let yes = bytes.len() - pos >= 4 && bytes[pos] == 0x74 && bytes[pos + 1] == 0x72 && bytes[pos
        + 2] == 0x75 && bytes[pos + 3] == 0x65;
    proof {
        if pos + 4 <= bytes@.len() {
            let w = bytes@.subrange(pos as int, pos + 4);
            assert(w[0] == bytes@[pos as int] && w[1] == bytes@[pos + 1] && w[2] == bytes@[pos + 2]
                && w[3] == bytes@[pos + 3]);
            if yes {
                assert(w =~= word_true());
            }
        }
    }
    yes
}

/// The buffer holds `false` at `pos`.
fn has_false(bytes: &[u8], pos: usize) -> (yes: bool)
    requires
        pos <= bytes@.len(),
    ensures
        yes == has_word(bytes@, pos as int, word_false()),
{
    let yes = bytes.len() - pos >= 5 && bytes[pos] == 0x66 && bytes[pos + 1] == 0x61 && bytes[pos
        + 2] == 0x6c && bytes[pos + 3] == 0x73 && bytes[pos + 4] == 0x65;
    proof {
        if pos + 5 <= bytes@.len() {
            let w = bytes@.subrange(pos as int, pos + 5);
            assert(w[0] == bytes@[pos as int] && w[1] == bytes@[pos + 1] && w[2] == bytes@[pos + 2]
                && w[3] == bytes@[pos + 3] && w[4] == bytes@[pos + 4]);
            if yes {
                assert(w =~= word_false());
            }
        }
    }
    yes
}

/// The buffer holds `null` at `pos`.
fn has_null(bytes: &[u8], pos: usize) -> (yes: bool)
    requires
        pos <= bytes@.len(),
    ensures
        yes == has_word(bytes@, pos as int, word_null()),
{
    let yes = bytes.len() - pos >= 4 && bytes[pos] == 0x6e && bytes[pos + 1] == 0x75 && bytes[pos
        + 2] == 0x6c && bytes[pos + 3] == 0x6c;
    proof {
        if pos + 4 <= bytes@.len() {
            let w = bytes@.subrange(pos as int, pos + 4);
            assert(w[0] == bytes@[pos as int] && w[1] == bytes@[pos + 1] && w[2] == bytes@[pos + 2]
                && w[3] == bytes@[pos + 3]);
            if yes {
                assert(w =~= word_null());
            }
        }
    }
    yes
}

/// The token that begins at `pos` outside a string literal, and the
/// offset at which it ends.
fn scan_top<'a>(source: &'a str, pos: usize) -> (found: (Token<'a>, usize))
    requires
        pos <= source.spec_bytes().len(),
        at_boundary(source.spec_bytes(), pos as int),
    ensures
        (found.0@, found.1 as int) == top_token(source.spec_bytes(), pos as int),
        pos <= found.1 <= source.spec_bytes().len(),
{
    let bytes = source.as_bytes();
    if pos >= bytes.len() {
        return (Token::EndOfInput, pos);
    }
    let c = bytes[pos];
    proof {
        lemma_continuation_end_bounds(bytes@, pos + 1);
    }
    if c == LEFT_BRACE {
        (Token::LBrace, pos + 1)
    } else if c == RIGHT_BRACE {
        (Token::RBrace, pos + 1)
    } else if c == LEFT_BRACKET {
        (Token::LBrack, pos + 1)
    } else if c == RIGHT_BRACKET {
        (Token::RBrack, pos + 1)
    } else if c == COLON {
        (Token::Colon, pos + 1)
    } else if c == COMMA {
        (Token::Comma, pos + 1)
    } else if c == QUOTE {
        (Token::Quote, pos + 1)
    } else if has_true(bytes, pos) {
        (Token::True, pos + 4)
    } else if has_false(bytes, pos) {
        (Token::False, pos + 5)
    } else if has_null(bytes, pos) {
        (Token::Null, pos + 4)
    } else {
        match scan_number(bytes, pos) {
            Some(end) => {
                proof {
                    encode_utf8_valid_utf8(source@);
                    lemma_number_end_bounds(bytes@, pos as int);
                    lemma_boundary_after_ascii(bytes@, end - 1);
                }
                (Token::Number(slice(source, pos, end)), end)
            },
            None => (Token::Error, scan_char(bytes, pos)),
        }
    }
}

/// The mode-switching token stream over one input buffer: a single
/// forward pass that yields each token between its offsets, or the error
/// found in its place.
pub struct TokenStream<'a> {
    source: &'a str,
    pos: usize,
    mode: LexMode,
}

impl<'a> TokenStream<'a> {
    #[verifier::type_invariant]
    spec fn inv(self) -> bool {
        self.pos <= self.source.spec_bytes().len() && at_boundary(
            self.source.spec_bytes(),
            self.pos as int,
        )
    }

    /// The bytes of the buffer that the stream reads.
    pub closed spec fn bytes(self) -> Seq<u8> {
        self.source.spec_bytes()
    }

    /// The offset from which the next step scans.
    pub closed spec fn position(self) -> int {
        self.pos as int
    }

    /// The mode in which the next step scans.
    pub closed spec fn mode(self) -> LexMode {
        self.mode
    }

    /// The items that the stream has yet to yield.
    pub open spec fn remaining(self) -> Seq<SpannedModel> {
        items_from(self.bytes(), self.position(), self.mode())
    }

    /// A stream at the start of `source`, outside any string literal.
    pub fn new(source: &'a str) -> (stream: Self)
        ensures
            stream.bytes() == source.spec_bytes(),
            stream.position() == 0,
            stream.mode() == LexMode::Top,
    {
        proof {
            encode_utf8_valid_utf8(source@);
            lemma_boundary_at_start(source.spec_bytes());
        }
        TokenStream { source, pos: 0, mode: LexMode::Top }
    }

    /// Takes one step: `None` at the end of the input, else the next item.
    pub fn next_item(&mut self) -> (item: Option<Spanned<'a>>)
        ensures
            final(self).bytes() == old(self).bytes(),
            0 <= old(self).position() <= final(self).position() <= old(self).bytes().len(),
            match item {
                Some(found) => Some(spanned_view(found)),
                None => None,
            } == lex_step(old(self).bytes(), old(self).position(), old(self).mode()).item,
            final(self).position() == lex_step(
                old(self).bytes(),
                old(self).position(),
                old(self).mode(),
            ).pos,
            final(self).mode() == lex_step(
                old(self).bytes(),
                old(self).position(),
                old(self).mode(),
            ).mode,
    {
        let source = self.source;
        let bytes = source.as_bytes();
        let len = bytes.len();
        let pos = self.pos;
        proof {
            use_type_invariant(&*self);
            encode_utf8_valid_utf8(source@);
            lemma_step_progress(bytes@, pos as int, self.mode);
            lemma_step_boundary(bytes@, pos as int, self.mode);
        }
        match self.mode {
            LexMode::Top => {
                let start = skip_whitespace(bytes, pos);
                let (token, end) = scan_top(source, start);
                if let Token::EndOfInput = token {
                    self.pos = start;
                    return None;
                }
                if let Token::Quote = token {
                    self.mode = LexMode::Quoted { open: start };
                }
                self.pos = end;
                Some(Token::to_lalr_triple((token, Span::new(start, end))))
            },
            LexMode::Quoted { open } => {
                if pos >= len {
                    self.mode = LexMode::Top;
                    return Some(
                        Err(
                            CompilationError::UnterminatedStringLiteral {
                                span: Span::new(open, len),
                            },
                        ),
                    );
                }
                let c = bytes[pos];
                if c == QUOTE {
                    self.mode = LexMode::Top;
                    self.pos = pos + 1;
                    return Some(Ok((pos, Token::Quote, pos + 1)));
                }
                let end = scan_content(bytes, pos);
                if end > pos {
                    proof {
                        lemma_content_end_bounds(bytes@, pos as int);
                    }
                    self.pos = end;
                    return Some(Ok((pos, Token::String(slice(source, pos, end)), end)));
                }
                if c != BACKSLASH {
                    self.pos = pos + 1;
                    return Some(
                        Err(CompilationError::LexicalError { span: Span::new(pos, pos + 1) }),
                    );
                }
                if len - pos < 2 {
                    self.pos = pos + 1;
                    return Some(
                        Err(CompilationError::LexicalError { span: Span::new(pos, pos + 1) }),
                    );
                }
                if bytes[pos + 1] == 0x75 {
                    let end = scan_hex(bytes, pos + 2, 3);
                    self.pos = end;
                    return Some(
                        Err(CompilationError::LexicalError { span: Span::new(pos + 1, end) }),
                    );
                }
                let end = scan_char(bytes, pos + 1);
                self.pos = end;
                Some(Err(CompilationError::LexicalError { span: Span::new(pos, end) }))
            },
        }
    }
}

/// The models of a sequence of stream items.
pub open spec fn items_view(items: Seq<Spanned>) -> Seq<SpannedModel> {
    Seq::new(items.len(), |i: int| spanned_view(items[i]))
}

/// All the items of `source`, in their order.
pub fn tokenize<'a>(source: &'a str) -> (items: Vec<Spanned<'a>>)
    ensures
        items_view(items@) == tokens_of(source.spec_bytes()),
{
    let mut stream = TokenStream::new(source);
    let mut items: Vec<Spanned<'a>> = Vec::new();
    assert(items_view(items@) + stream.remaining() =~= tokens_of(source.spec_bytes()));
    loop
        invariant
            stream.bytes() == source.spec_bytes(),
            0 <= stream.position() <= stream.bytes().len(),
            items_view(items@) + stream.remaining() == tokens_of(source.spec_bytes()),
        decreases steps_left(stream.bytes(), stream.position(), stream.mode()),
    {
        let ghost taken = items_view(items@);
        let ghost left = stream.remaining();
        proof {
            lemma_step_progress(stream.bytes(), stream.position(), stream.mode());
        }
        match stream.next_item() {
            None => {
                assert(taken + left =~= taken);
                return items;
            },
            Some(item) => {
                items.push(item);
                assert(items_view(items@) =~= taken.push(spanned_view(item)));
                assert(taken.push(spanned_view(item)) + stream.remaining() =~= taken + left);
            },
        }
    }
}

} // verus!
