//! How a parse fails: the first problem in the order of the input is the
//! error of the parse.

use crate::error::CompilationError;
use crate::extra::diagnostic::primary_span;
use crate::lex::{
    bad_escape_span, items_from, lemma_step_boundary, lemma_step_progress, lemma_step_span,
    lemma_step_span_boundary, lex_step, steps_left, tokens_of, LexMode, SpannedModel,
};
use crate::round_trip::{lemma_parse_step, parse_from};
use crate::parser::{
    expected, feed, initial, parse_bytes, parse_items, run, ParseErrorModel, ParserState, Phase,
};
use crate::scan::{at_boundary, content_end, lemma_boundary_at_start, BACKSLASH, QUOTE, SPACE};
use vstd::utf8::valid_utf8;
use crate::span::Span;
use crate::value::ValueModel;
use vstd::prelude::*;

verus! {

/// The machine takes two sequences of items in a row as it takes the
/// first and then, from where that left it, the second.
pub proof fn lemma_run_concat(
    state: ParserState,
    first: Seq<SpannedModel>,
    second: Seq<SpannedModel>,
)
    ensures
        run(state, first + second) == match run(state, first) {
            Ok(middle) => run(middle, second),
            Err(error) => Err(error),
        },
    decreases first.len(),
{
    if first.len() == 0 {
        assert(first + second =~= second);
    } else {
        assert((first + second)[0] == first[0]);
        assert((first + second).drop_first() =~= first.drop_first() + second);
        match feed(state, first[0]) {
            Ok(next) => {
                lemma_run_concat(next, first.drop_first(), second);
            },
            Err(error) => {},
        }
    }
}

/// The machine takes every one of `items`: none of them is an error of
/// the stream, and each has its place in the grammar.
pub open spec fn accepted(items: Seq<SpannedModel>) -> bool {
    run(initial(), items) is Ok
}

/// An error of the stream behind items that the machine takes is the
/// error of the parse, whatever follows it.
pub proof fn lemma_first_error(
    before: Seq<SpannedModel>,
    error: CompilationError,
    after: Seq<SpannedModel>,
)
    requires
        accepted(before),
    ensures
        parse_items(before + seq![Err(error)] + after) == Err::<ValueModel, ParseErrorModel>(
            ParseErrorModel::User { error },
        ),
{
    let found: SpannedModel = Err(error);
    let rest = seq![found] + after;
    assert(before + seq![found] + after =~= before + rest);
    lemma_run_concat(initial(), before, rest);
    assert(rest[0] == found);
}

/// An error of the stream, wherever it stands, lets no parse succeed.
pub proof fn lemma_error_fails(
    before: Seq<SpannedModel>,
    error: CompilationError,
    after: Seq<SpannedModel>,
)
    ensures
        parse_items(before + seq![Err(error)] + after) is Err,
{
    let found: SpannedModel = Err(error);
    let rest = seq![found] + after;
    assert(before + seq![found] + after =~= before + rest);
    lemma_run_concat(initial(), before, rest);
    assert(rest[0] == found);
}

/// An input without any token fails where it ends: nothing was taken,
/// and a value was expected.
pub proof fn lemma_no_token(b: Seq<u8>)
    requires
        lex_step(b, 0, LexMode::Top).item is None,
    ensures
        parse_bytes(b) == Err::<ValueModel, ParseErrorModel>(
            ParseErrorModel::UnrecognizedEOF { location: 0, expected: expected(Phase::Value) },
        ),
{
    assert(tokens_of(b) =~= Seq::empty());
}

/// The empty input fails where it ends: nothing was taken, and a value
/// was expected.
pub proof fn lemma_empty_input()
    ensures
        parse_bytes(Seq::empty()) == Err::<ValueModel, ParseErrorModel>(
            ParseErrorModel::UnrecognizedEOF { location: 0, expected: expected(Phase::Value) },
        ),
{
    lemma_no_token(Seq::empty());
}

/// The stream that starts at offset `pos` in mode `mode` begins a step
/// at offset `at` in mode `then`.
pub open spec fn reaches(b: Seq<u8>, pos: int, mode: LexMode, at: int, then: LexMode) -> bool
    decreases steps_left(b, pos, mode),
    when 0 <= pos <= b.len()
{
    if pos == at && mode == then {
        true
    } else {
        match lex_step(b, pos, mode).item {
            None => false,
            Some(item) => {
                proof {
                    lemma_step_progress(b, pos, mode);
                }
                reaches(b, lex_step(b, pos, mode).pos, lex_step(b, pos, mode).mode, at, then)
            },
        }
    }
}

/// The items that the stream yields on its way from offset `pos` in
/// mode `mode` to the step that begins at offset `at` in mode `then`.
pub open spec fn items_before(
    b: Seq<u8>,
    pos: int,
    mode: LexMode,
    at: int,
    then: LexMode,
) -> Seq<SpannedModel>
    decreases steps_left(b, pos, mode),
    when 0 <= pos <= b.len()
{
    if pos == at && mode == then {
        Seq::empty()
    } else {
        match lex_step(b, pos, mode).item {
            None => Seq::empty(),
            Some(item) => {
                proof {
                    lemma_step_progress(b, pos, mode);
                }
                seq![item] + items_before(
                    b,
                    lex_step(b, pos, mode).pos,
                    lex_step(b, pos, mode).mode,
                    at,
                    then,
                )
            },
        }
    }
}

/// The items of the stream are those in front of a step that it reaches,
/// and then those from that step on.
pub proof fn lemma_reaches_splits(b: Seq<u8>, pos: int, mode: LexMode, at: int, then: LexMode)
    requires
        0 <= pos <= b.len(),
        reaches(b, pos, mode, at, then),
    ensures
        items_from(b, pos, mode) == items_before(b, pos, mode, at, then) + items_from(b, at, then),
        pos <= at <= b.len(),
    decreases steps_left(b, pos, mode),
{
    if pos == at && mode == then {
        assert(items_before(b, pos, mode, at, then) + items_from(b, at, then) =~= items_from(
            b,
            at,
            then,
        ));
    } else {
        let step = lex_step(b, pos, mode);
        lemma_step_progress(b, pos, mode);
        lemma_reaches_splits(b, step.pos, step.mode, at, then);
        let head = seq![step.item->0];
        let middle = items_before(b, step.pos, step.mode, at, then);
        let tail = items_from(b, at, then);
        assert(head + (middle + tail) =~= (head + middle) + tail);
    }
}

/// The string literal in which a step begins was opened by a quote in
/// front of that step.
pub proof fn lemma_reaches_open(
    b: Seq<u8>,
    pos: int,
    mode: LexMode,
    at: int,
    open: usize,
)
    requires
        0 <= pos <= b.len() <= usize::MAX,
        reaches(b, pos, mode, at, LexMode::Quoted { open }),
        mode matches LexMode::Quoted { open: opened } ==> opened < pos && b[opened as int] == QUOTE,
    ensures
        open < at,
        b[open as int] == QUOTE,
    decreases steps_left(b, pos, mode),
{
    if pos == at && mode == (LexMode::Quoted { open }) {
    } else {
        let step = lex_step(b, pos, mode);
        lemma_step_progress(b, pos, mode);
        if mode is Top {
            crate::scan::lemma_whitespace_end_bounds(b, pos);
        }
        lemma_reaches_open(b, step.pos, step.mode, at, open);
    }
}

/// Where the input ends inside a string literal, the last item of the
/// stream is the error for the unterminated literal: its span starts at
/// the quote that opened the literal and ends where the input ends. The
/// parse fails, and it fails with that error if the machine takes every
/// item in front of it.
pub proof fn lemma_unterminated_string(b: Seq<u8>, open: usize)
    requires
        b.len() <= usize::MAX,
        reaches(b, 0, LexMode::Top, b.len() as int, LexMode::Quoted { open }),
    ensures
        open < b.len(),
        b[open as int] == QUOTE,
        tokens_of(b) == items_before(
            b,
            0,
            LexMode::Top,
            b.len() as int,
            LexMode::Quoted { open },
        ).push(
            Err(
                CompilationError::UnterminatedStringLiteral {
                    span: Span { start: open, end: b.len() as usize },
                },
            ),
        ),
        parse_bytes(b) is Err,
        accepted(items_before(b, 0, LexMode::Top, b.len() as int, LexMode::Quoted { open }))
            ==> parse_bytes(b) == Err::<ValueModel, ParseErrorModel>(
            ParseErrorModel::User {
                error: CompilationError::UnterminatedStringLiteral {
                    span: Span { start: open, end: b.len() as usize },
                },
            },
        ),
{
    let n = b.len() as int;
    let inside = LexMode::Quoted { open };
    let before = items_before(b, 0, LexMode::Top, n, inside);
    let error = CompilationError::UnterminatedStringLiteral {
        span: Span { start: open, end: n as usize },
    };
    lemma_reaches_open(b, 0, LexMode::Top, n, open);
    lemma_reaches_splits(b, 0, LexMode::Top, n, inside);
    let last = items_from(b, n, inside);
    let found: SpannedModel = Err(error);
    assert(lex_step(b, n, inside).item == Some(found));
    assert(items_from(b, n, LexMode::Top) =~= Seq::empty());
    assert(last =~= seq![Err(error)]);
    assert(before + last =~= before.push(Err(error)));
    assert(before + seq![Err(error)] + Seq::empty() =~= before.push(Err(error)));
    lemma_error_fails(before, error, Seq::empty());
    if accepted(before) {
        lemma_first_error(before, error, Seq::empty());
    }
}

/// A byte inside a string literal is out of place: it is no quote, and
/// neither a safe character nor an escape sequence begins there.
pub open spec fn out_of_place(b: Seq<u8>, at: int) -> bool {
    0 <= at < b.len() && b[at] != QUOTE && content_end(b, at) == at
}

/// The span of the lexical error for what is out of place at `at`: a
/// control character alone, a malformed escape as far as it was read.
pub open spec fn offending(b: Seq<u8>, at: int) -> Span {
    if b[at] == BACKSLASH {
        bad_escape_span(b, at)
    } else {
        Span { start: at as usize, end: (at + 1) as usize }
    }
}

/// The item for a lexical error with the span `span`.
pub open spec fn lexical_error(span: Span) -> SpannedModel {
    Err(CompilationError::LexicalError { span })
}

/// Where a step inside a string literal begins at a byte that is out of
/// place, the stream yields a lexical error whose span covers what
/// offends and no more: for a control character that one byte. The parse
/// fails, and it fails with that error if the machine takes every item in
/// front of it.
pub proof fn lemma_out_of_place(b: Seq<u8>, at: int, open: usize)
    requires
        reaches(b, 0, LexMode::Top, at, LexMode::Quoted { open }),
        out_of_place(b, at),
    ensures
        b[at] < SPACE ==> offending(b, at) == (Span { start: at as usize, end: (at + 1) as usize }),
        tokens_of(b) == items_before(b, 0, LexMode::Top, at, LexMode::Quoted { open })
            + items_from(b, at, LexMode::Quoted { open }),
        items_from(b, at, LexMode::Quoted { open })[0] == lexical_error(offending(b, at)),
        parse_bytes(b) is Err,
        accepted(items_before(b, 0, LexMode::Top, at, LexMode::Quoted { open })) ==> parse_bytes(b)
            == Err::<ValueModel, ParseErrorModel>(
            ParseErrorModel::User {
                error: CompilationError::LexicalError { span: offending(b, at) },
            },
        ),
{
    let inside = LexMode::Quoted { open };
    let before = items_before(b, 0, LexMode::Top, at, inside);
    let error = CompilationError::LexicalError { span: offending(b, at) };
    lemma_reaches_splits(b, 0, LexMode::Top, at, inside);
    lemma_step_progress(b, at, inside);
    let step = lex_step(b, at, inside);
    let found: SpannedModel = Err(error);
    assert(step.item == Some(found));
    let after = items_from(b, step.pos, step.mode);
    assert(items_from(b, at, inside) =~= seq![Err(error)] + after);
    assert(before + items_from(b, at, inside) =~= before + seq![Err(error)] + after);
    lemma_error_fails(before, error, after);
    if accepted(before) {
        lemma_first_error(before, error, after);
    }
}

/// What the rest of a buffer fails with is anchored inside the buffer:
/// the span of its diagnostic begins no later than it ends, and ends no
/// later than the buffer.
proof fn lemma_failure_within(b: Seq<u8>, pos: int, mode: LexMode, state: ParserState)
    requires
        0 <= pos <= b.len() <= usize::MAX,
        state.end <= pos,
        mode matches LexMode::Quoted { open } ==> open < pos,
        parse_from(b, pos, mode, state) is Err,
    ensures
        primary_span(parse_from(b, pos, mode, state)->Err_0).within(b.len() as int),
    decreases steps_left(b, pos, mode),
{
    lemma_parse_step(b, pos, mode, state);
    lemma_step_progress(b, pos, mode);
    let step = lex_step(b, pos, mode);
    match step.item {
        None => {},
        Some(item) => {
            lemma_step_span(b, pos, mode);
            match feed(state, item) {
                Ok(next) => {
                    lemma_failure_within(b, step.pos, step.mode, next);
                },
                Err(error) => {},
            }
        },
    }
}

/// The error of a parse is anchored inside the buffer: the span of its
/// diagnostic begins no later than it ends, and ends no later than the
/// buffer.
pub proof fn lemma_error_within(b: Seq<u8>)
    requires
        b.len() <= usize::MAX,
        parse_bytes(b) is Err,
    ensures
        primary_span(parse_bytes(b)->Err_0).within(b.len() as int),
{
    assert(parse_bytes(b) == parse_from(b, 0, LexMode::Top, initial())) by {
        reveal(parse_from);
    }
    lemma_failure_within(b, 0, LexMode::Top, initial());
}

/// What the rest of a buffer of well-formed UTF-8 fails with is anchored
/// on characters.
proof fn lemma_failure_on_characters(b: Seq<u8>, pos: int, mode: LexMode, state: ParserState)
    requires
        valid_utf8(b),
        0 <= pos <= b.len() <= usize::MAX,
        at_boundary(b, pos),
        at_boundary(b, state.end as int),
        mode matches LexMode::Quoted { open } ==> open < pos && at_boundary(b, open as int),
        parse_from(b, pos, mode, state) is Err,
    ensures
        at_boundary(b, primary_span(parse_from(b, pos, mode, state)->Err_0).start as int),
        at_boundary(b, primary_span(parse_from(b, pos, mode, state)->Err_0).end as int),
    decreases steps_left(b, pos, mode),
{
    lemma_parse_step(b, pos, mode, state);
    lemma_step_progress(b, pos, mode);
    let step = lex_step(b, pos, mode);
    match step.item {
        None => {},
        Some(item) => {
            lemma_step_span(b, pos, mode);
            lemma_step_span_boundary(b, pos, mode);
            lemma_step_boundary(b, pos, mode);
            match feed(state, item) {
                Ok(next) => {
                    lemma_failure_on_characters(b, step.pos, step.mode, next);
                },
                Err(error) => {},
            }
        },
    }
}

/// The error of parsing a buffer of well-formed UTF-8 is anchored on
/// characters: the span of its diagnostic begins and ends on the first
/// byte of a character or at the end of the buffer, so that the buffer
/// can be sliced at it.
pub proof fn lemma_error_on_characters(b: Seq<u8>)
    requires
        valid_utf8(b),
        b.len() <= usize::MAX,
        parse_bytes(b) is Err,
    ensures
        at_boundary(b, primary_span(parse_bytes(b)->Err_0).start as int),
        at_boundary(b, primary_span(parse_bytes(b)->Err_0).end as int),
{
    assert(parse_bytes(b) == parse_from(b, 0, LexMode::Top, initial())) by {
        reveal(parse_from);
    }
    lemma_boundary_at_start(b);
    lemma_failure_on_characters(b, 0, LexMode::Top, initial());
}

} // verus!
