//! The canonical text of a value parses back to the value.

use crate::lex::{
    items_from, lemma_step_progress, lex_step, steps_left, top_token, word_false, word_null,
    word_true, LexMode, SpannedModel, Step, TokenModel,
};
use crate::parser::{
    close, complete, feed, finish, frame_value, initial, lemma_feed_well_formed, open, parse_bytes,
    run, well_formed, with_key, FrameModel, ParseErrorModel, ParserState, Phase,
};
use crate::scan::{
    ends_number, has_word, holds, is_number, is_string_body, is_whitespace, lemma_body_in_context,
    lemma_content_end_bounds, lemma_content_is_body, lemma_number_end_bounds,
    lemma_number_in_context, lemma_number_is_number, lemma_whitespace_end_bounds, number_end,
    whitespace_end, COLON, COMMA, LEFT_BRACE, LEFT_BRACKET, QUOTE, RIGHT_BRACE, RIGHT_BRACKET,
    SPACE,
};
use crate::value::{render, render_items, render_pair, render_pairs, separator, ValueModel};
use vstd::prelude::*;

verus! {

/// What the rest of a buffer parses to: the stream goes on from offset
/// `pos` in mode `mode`, the machine from `state`.
#[verifier::opaque]
pub open spec fn parse_from(b: Seq<u8>, pos: int, mode: LexMode, state: ParserState) -> Result<
    ValueModel,
    ParseErrorModel,
> {
    match run(state, items_from(b, pos, mode)) {
        Ok(last) => finish(last),
        Err(error) => Err(error),
    }
}

/// The rest of a buffer parses to what is left after one step of the
/// stream and one of the machine.
pub proof fn lemma_parse_step(b: Seq<u8>, pos: int, mode: LexMode, state: ParserState)
    requires
        0 <= pos <= b.len(),
    ensures
        parse_from(b, pos, mode, state) == match lex_step(b, pos, mode).item {
            None => finish(state),
            Some(item) => match feed(state, item) {
                Ok(next) => parse_from(
                    b,
                    lex_step(b, pos, mode).pos,
                    lex_step(b, pos, mode).mode,
                    next,
                ),
                Err(error) => Err(error),
            },
        },
{
    reveal(parse_from);
    let step = lex_step(b, pos, mode);
    let items = items_from(b, pos, mode);
    lemma_step_progress(b, pos, mode);
    match step.item {
        None => {
            assert(items =~= Seq::empty());
        },
        Some(item) => {
            let rest = items_from(b, step.pos, step.mode);
            assert(items == seq![item] + rest);
            assert(items[0] == item);
            assert(items.drop_first() =~= rest);
        },
    }
}

/// Whitespace in front of the stream changes nothing.
pub proof fn lemma_parse_whitespace(b: Seq<u8>, pos: int, state: ParserState)
    requires
        0 <= pos < b.len(),
        is_whitespace(b[pos]),
    ensures
        parse_from(b, pos, LexMode::Top, state) == parse_from(b, pos + 1, LexMode::Top, state),
{
    assert(lex_step(b, pos, LexMode::Top) == lex_step(b, pos + 1, LexMode::Top));
    lemma_parse_step(b, pos, LexMode::Top, state);
    lemma_parse_step(b, pos + 1, LexMode::Top, state);
}

/// Every number in the value is a number literal, every string and every
/// key the body of a string literal.
pub open spec fn well_formed_value(value: ValueModel) -> bool
    decreases value,
{
    match value {
        ValueModel::Number(text) => is_number(text),
        ValueModel::String(text) => is_string_body(text),
        ValueModel::Object(pairs) => forall|i: int|
            0 <= i < pairs.len() ==> is_string_body((#[trigger] pairs[i]).0) && well_formed_value(
                pairs[i].1,
            ),
        ValueModel::Bool(flag) => true,
        ValueModel::Null => true,
        ValueModel::Array(items) => forall|i: int|
            0 <= i < items.len() ==> well_formed_value(#[trigger] items[i]),
    }
}

/// The machine can take a value: it waits for one, and is reading no
/// string.
pub open spec fn takes_value(state: ParserState) -> bool {
    (state.phase is Value || state.phase is FirstItem) && state.text.len() == 0
}

/// The state behind the value `value` whose last token ended at `end`.
pub open spec fn behind(state: ParserState, value: ValueModel, end: int) -> ParserState {
    ParserState { end: end as usize, ..complete(state, value) }
}

/// The state inside an array that was opened in the state `outer` and
/// holds `items`.
pub open spec fn in_array(
    outer: ParserState,
    items: Seq<ValueModel>,
    phase: Phase,
    end: int,
) -> ParserState {
    ParserState {
        stack: outer.stack.push(FrameModel::Array { items }),
        phase,
        end: end as usize,
        ..outer
    }
}

/// The state inside an object that was opened in the state `outer`,
/// holds `pairs`, and has read the key `key` last.
pub open spec fn in_object(
    outer: ParserState,
    pairs: Seq<(Seq<u8>, ValueModel)>,
    key: Seq<u8>,
    phase: Phase,
    end: int,
) -> ParserState {
    ParserState {
        stack: outer.stack.push(FrameModel::Object { pairs, key }),
        phase,
        end: end as usize,
        ..outer
    }
}

/// The item for `token` between `start` and `end`.
pub open spec fn item(start: int, token: TokenModel, end: int) -> SpannedModel {
    Ok((start as usize, token, end as usize))
}

/// The byte that is the punctuation token `token`.
pub open spec fn punctuation(token: TokenModel) -> u8 {
    match token {
        TokenModel::LBrace => LEFT_BRACE,
        TokenModel::RBrace => RIGHT_BRACE,
        TokenModel::LBrack => LEFT_BRACKET,
        TokenModel::RBrack => RIGHT_BRACKET,
        TokenModel::Colon => COLON,
        _ => COMMA,
    }
}

/// A byte of punctuation is read as its token, outside a string.
proof fn lemma_lex_punctuation(b: Seq<u8>, p: int, token: TokenModel)
    requires
        0 <= p < b.len(),
        token is LBrace || token is RBrace || token is LBrack || token is RBrack || token is Colon
            || token is Comma,
        b[p] == punctuation(token),
    ensures
        lex_step(b, p, LexMode::Top) == (Step {
            item: Some(item(p, token, p + 1)),
            pos: p + 1,
            mode: LexMode::Top,
        }),
{
}

/// A value in an array goes into the array.
proof fn lemma_array_takes(
    outer: ParserState,
    items: Seq<ValueModel>,
    phase: Phase,
    at: int,
    value: ValueModel,
    end: int,
)
    ensures
        behind(in_array(outer, items, phase, at), value, end) == in_array(
            outer,
            items.push(value),
            Phase::ArrayNext,
            end,
        ),
{
    let state = in_array(outer, items, phase, at);
    assert(state.stack.drop_last() =~= outer.stack);
}

/// A value behind a key goes into the object, under that key.
proof fn lemma_object_takes(
    outer: ParserState,
    pairs: Seq<(Seq<u8>, ValueModel)>,
    key: Seq<u8>,
    phase: Phase,
    at: int,
    value: ValueModel,
    end: int,
)
    ensures
        behind(in_object(outer, pairs, key, phase, at), value, end) == in_object(
            outer,
            pairs.push((key, value)),
            key,
            Phase::ObjectNext,
            end,
        ),
{
    let state = in_object(outer, pairs, key, phase, at);
    assert(state.stack.drop_last() =~= outer.stack);
}

proof fn lemma_enter_array(b: Seq<u8>, p: int, outer: ParserState)
    requires
        0 <= p < b.len(),
        b[p] == LEFT_BRACKET,
        takes_value(outer),
    ensures
        parse_from(b, p, LexMode::Top, outer) == parse_from(
            b,
            p + 1,
            LexMode::Top,
            in_array(outer, Seq::empty(), Phase::FirstItem, p + 1),
        ),
{
    lemma_lex_punctuation(b, p, TokenModel::LBrack);
    lemma_parse_step(b, p, LexMode::Top, outer);
}

proof fn lemma_enter_object(b: Seq<u8>, p: int, outer: ParserState)
    requires
        0 <= p < b.len(),
        b[p] == LEFT_BRACE,
        takes_value(outer),
    ensures
        parse_from(b, p, LexMode::Top, outer) == parse_from(
            b,
            p + 1,
            LexMode::Top,
            in_object(outer, Seq::empty(), Seq::empty(), Phase::FirstKey, p + 1),
        ),
{
    lemma_lex_punctuation(b, p, TokenModel::LBrace);
    lemma_parse_step(b, p, LexMode::Top, outer);
}

proof fn lemma_leave_array(
    b: Seq<u8>,
    p: int,
    outer: ParserState,
    items: Seq<ValueModel>,
    phase: Phase,
    at: int,
)
    requires
        0 <= p < b.len(),
        b[p] == RIGHT_BRACKET,
        phase is FirstItem || phase is ArrayNext,
    ensures
        parse_from(b, p, LexMode::Top, in_array(outer, items, phase, at)) == parse_from(
            b,
            p + 1,
            LexMode::Top,
            behind(outer, ValueModel::Array(items), p + 1),
        ),
{
    let state = in_array(outer, items, phase, at);
    lemma_lex_punctuation(b, p, TokenModel::RBrack);
    lemma_parse_step(b, p, LexMode::Top, state);
    assert(state.stack.drop_last() =~= outer.stack);
}

proof fn lemma_leave_object(
    b: Seq<u8>,
    p: int,
    outer: ParserState,
    pairs: Seq<(Seq<u8>, ValueModel)>,
    key: Seq<u8>,
    phase: Phase,
    at: int,
)
    requires
        0 <= p < b.len(),
        b[p] == RIGHT_BRACE,
        phase is FirstKey || phase is ObjectNext,
    ensures
        parse_from(b, p, LexMode::Top, in_object(outer, pairs, key, phase, at)) == parse_from(
            b,
            p + 1,
            LexMode::Top,
            behind(outer, ValueModel::Object(pairs), p + 1),
        ),
{
    let state = in_object(outer, pairs, key, phase, at);
    lemma_lex_punctuation(b, p, TokenModel::RBrace);
    lemma_parse_step(b, p, LexMode::Top, state);
    assert(state.stack.drop_last() =~= outer.stack);
}

/// A comma and a space behind an item lead to the next item.
proof fn lemma_next_item(b: Seq<u8>, p: int, outer: ParserState, items: Seq<ValueModel>, at: int)
    requires
        holds(b, p, separator()),
    ensures
        parse_from(b, p, LexMode::Top, in_array(outer, items, Phase::ArrayNext, at)) == parse_from(
            b,
            p + 2,
            LexMode::Top,
            in_array(outer, items, Phase::Value, p + 1),
        ),
{
    let state = in_array(outer, items, Phase::ArrayNext, at);
    assert(b[p] == separator()[0]);
    assert(b[p + 1] == separator()[1]);
    lemma_lex_punctuation(b, p, TokenModel::Comma);
    lemma_parse_step(b, p, LexMode::Top, state);
    lemma_parse_whitespace(b, p + 1, in_array(outer, items, Phase::Value, p + 1));
}

/// A comma and a space behind a pair lead to the next key.
proof fn lemma_next_pair(
    b: Seq<u8>,
    p: int,
    outer: ParserState,
    pairs: Seq<(Seq<u8>, ValueModel)>,
    key: Seq<u8>,
    at: int,
)
    requires
        holds(b, p, separator()),
    ensures
        parse_from(b, p, LexMode::Top, in_object(outer, pairs, key, Phase::ObjectNext, at))
            == parse_from(
            b,
            p + 2,
            LexMode::Top,
            in_object(outer, pairs, key, Phase::Key, p + 1),
        ),
{
    let state = in_object(outer, pairs, key, Phase::ObjectNext, at);
    assert(b[p] == separator()[0]);
    assert(b[p + 1] == separator()[1]);
    lemma_lex_punctuation(b, p, TokenModel::Comma);
    lemma_parse_step(b, p, LexMode::Top, state);
    lemma_parse_whitespace(b, p + 1, in_object(outer, pairs, key, Phase::Key, p + 1));
}

/// A colon and a space behind a key lead to its value.
proof fn lemma_colon(
    b: Seq<u8>,
    p: int,
    outer: ParserState,
    pairs: Seq<(Seq<u8>, ValueModel)>,
    key: Seq<u8>,
    at: int,
)
    requires
        holds(b, p, seq![COLON, SPACE]),
    ensures
        parse_from(b, p, LexMode::Top, in_object(outer, pairs, key, Phase::Colon, at))
            == parse_from(
            b,
            p + 2,
            LexMode::Top,
            in_object(outer, pairs, key, Phase::Value, p + 1),
        ),
{
    let state = in_object(outer, pairs, key, Phase::Colon, at);
    assert(b[p] == seq![COLON, SPACE][0]);
    assert(b[p + 1] == seq![COLON, SPACE][1]);
    lemma_lex_punctuation(b, p, TokenModel::Colon);
    lemma_parse_step(b, p, LexMode::Top, state);
    lemma_parse_whitespace(b, p + 1, in_object(outer, pairs, key, Phase::Value, p + 1));
}

proof fn lemma_parse_number(b: Seq<u8>, p: int, state: ParserState, text: Seq<u8>)
    requires
        is_number(text),
        holds(b, p, text),
        ends_number(b, p + text.len()),
        takes_value(state),
    ensures
        parse_from(b, p, LexMode::Top, state) == parse_from(
            b,
            p + text.len(),
            LexMode::Top,
            behind(state, ValueModel::Number(text), p + text.len()),
        ),
{
    lemma_number_end_bounds(text, 0);
    lemma_number_in_context(b, p, text);
    assert(b[p] == text[0]);
    assert(word_true()[0] == 0x74 && word_false()[0] == 0x66 && word_null()[0] == 0x6e);
    assert(has_word(b, p, word_true()) ==> b.subrange(p, p + 4)[0] == 0x74);
    assert(has_word(b, p, word_false()) ==> b.subrange(p, p + 5)[0] == 0x66);
    assert(has_word(b, p, word_null()) ==> b.subrange(p, p + 4)[0] == 0x6e);
    assert(b.subrange(p, p + text.len()) =~= text);
    assert(top_token(b, p) == (TokenModel::Number(text), p + text.len()));
    lemma_parse_step(b, p, LexMode::Top, state);
}

proof fn lemma_parse_keyword(b: Seq<u8>, p: int, state: ParserState, value: ValueModel)
    requires
        value is Bool || value is Null,
        holds(b, p, render(value)),
        takes_value(state),
    ensures
        parse_from(b, p, LexMode::Top, state) == parse_from(
            b,
            p + render(value).len(),
            LexMode::Top,
            behind(state, value, p + render(value).len()),
        ),
{
    let word = render(value);
    assert(word[0] == b[p]);
    assert(b.subrange(p, p + word.len()) =~= word);
    assert(word_true()[0] == 0x74 && word_false()[0] == 0x66 && word_null()[0] == 0x6e);
    assert(has_word(b, p, word_true()) ==> b.subrange(p, p + 4)[0] == 0x74);
    assert(has_word(b, p, word_false()) ==> b.subrange(p, p + 5)[0] == 0x66);
    lemma_parse_step(b, p, LexMode::Top, state);
}

/// The text of a string literal with the body `body`.
pub open spec fn quoted(body: Seq<u8>) -> Seq<u8> {
    seq![QUOTE] + body + seq![QUOTE]
}

/// A string literal in the buffer is read in two or three steps: the
/// quote, the body if there is one, and the quote.
proof fn lemma_lex_quoted(b: Seq<u8>, p: int, body: Seq<u8>)
    requires
        is_string_body(body),
        holds(b, p, quoted(body)),
    ensures
        lex_step(b, p, LexMode::Top) == (Step {
            item: Some(item(p, TokenModel::Quote, p + 1)),
            pos: p + 1,
            mode: LexMode::Quoted { open: p as usize },
        }),
        body.len() > 0 ==> lex_step(b, p + 1, LexMode::Quoted { open: p as usize }) == (Step {
            item: Some(item(p + 1, TokenModel::String(body), p + 1 + body.len())),
            pos: p + 1 + body.len(),
            mode: LexMode::Quoted { open: p as usize },
        }),
        lex_step(b, p + 1 + body.len(), LexMode::Quoted { open: p as usize }) == (Step {
            item: Some(item(p + 1 + body.len(), TokenModel::Quote, p + 2 + body.len())),
            pos: p + 2 + body.len(),
            mode: LexMode::Top,
        }),
{
    let text = quoted(body);
    let n = body.len() as int;
    assert(text[0] == QUOTE && b[p] == text[0]);
    assert(text[n + 1] == QUOTE && b[p + (n + 1)] == text[n + 1]);
    if n > 0 {
        assert forall|j: int| 0 <= j < n implies b[p + 1 + j] == #[trigger] body[j] by {
            assert(text[j + 1] == body[j]);
            assert(b[p + (j + 1)] == text[j + 1]);
        }
        assert(holds(b, p + 1, body));
        lemma_body_in_context(b, p + 1, body, 0);
        assert(b[p + 1] == body[0]);
        assert(b.subrange(p + 1, p + 1 + n) =~= body);
    }
}

proof fn lemma_parse_string(b: Seq<u8>, p: int, state: ParserState, body: Seq<u8>)
    requires
        is_string_body(body),
        holds(b, p, quoted(body)),
        takes_value(state),
    ensures
        parse_from(b, p, LexMode::Top, state) == parse_from(
            b,
            p + body.len() + 2,
            LexMode::Top,
            behind(state, ValueModel::String(body), p + body.len() + 2),
        ),
{
    let n = body.len() as int;
    let inside = LexMode::Quoted { open: p as usize };
    lemma_lex_quoted(b, p, body);
    lemma_parse_step(b, p, LexMode::Top, state);
    let first = feed(state, item(p, TokenModel::Quote, p + 1))->Ok_0;
    assert(state.text =~= Seq::empty());
    if n == 0 {
        assert(body =~= Seq::empty());
        lemma_parse_step(b, p + 1, inside, first);
    } else {
        lemma_parse_step(b, p + 1, inside, first);
        let second = feed(first, item(p + 1, TokenModel::String(body), p + 1 + n))->Ok_0;
        lemma_parse_step(b, p + 1 + n, inside, second);
    }
}

/// A key in the buffer takes the machine from where it waits for a key
/// to where it waits for the colon.
proof fn lemma_parse_key(
    b: Seq<u8>,
    p: int,
    outer: ParserState,
    pairs: Seq<(Seq<u8>, ValueModel)>,
    old_key: Seq<u8>,
    phase: Phase,
    at: int,
    key: Seq<u8>,
)
    requires
        is_string_body(key),
        holds(b, p, quoted(key)),
        phase is FirstKey || phase is Key,
        outer.text.len() == 0,
    ensures
        parse_from(b, p, LexMode::Top, in_object(outer, pairs, old_key, phase, at)) == parse_from(
            b,
            p + key.len() + 2,
            LexMode::Top,
            in_object(outer, pairs, key, Phase::Colon, p + key.len() + 2),
        ),
{
    let state = in_object(outer, pairs, old_key, phase, at);
    let n = key.len() as int;
    let inside = LexMode::Quoted { open: p as usize };
    lemma_lex_quoted(b, p, key);
    lemma_parse_step(b, p, LexMode::Top, state);
    let first = feed(state, item(p, TokenModel::Quote, p + 1))->Ok_0;
    assert(outer.text =~= Seq::empty());
    assert(state.stack.drop_last() =~= outer.stack);
    if n == 0 {
        assert(key =~= Seq::empty());
        lemma_parse_step(b, p + 1, inside, first);
    } else {
        lemma_parse_step(b, p + 1, inside, first);
        let second = feed(first, item(p + 1, TokenModel::String(key), p + 1 + n))->Ok_0;
        lemma_parse_step(b, p + 1 + n, inside, second);
    }
}

/// A buffer that holds two texts in a row holds each of them.
proof fn lemma_holds_split(b: Seq<u8>, p: int, first: Seq<u8>, second: Seq<u8>)
    requires
        holds(b, p, first + second),
    ensures
        holds(b, p, first),
        holds(b, p + first.len(), second),
{
    let both = first + second;
    assert forall|j: int| 0 <= j < first.len() implies b[p + j] == #[trigger] first[j] by {
        assert(both[j] == first[j]);
    }
    assert forall|j: int| 0 <= j < second.len() implies b[p + first.len() + j]
        == #[trigger] second[j] by {
        assert(both[first.len() + j] == second[j]);
        assert(b[p + (first.len() + j)] == both[first.len() + j]);
    }
}

/// A buffer that holds three texts in a row holds each of them.
proof fn lemma_holds_three(b: Seq<u8>, p: int, first: Seq<u8>, second: Seq<u8>, third: Seq<u8>)
    requires
        holds(b, p, first + second + third),
    ensures
        holds(b, p, first),
        holds(b, p + first.len(), second),
        holds(b, p + first.len() + second.len(), third),
{
    lemma_holds_split(b, p, first + second, third);
    lemma_holds_split(b, p, first, second);
}

/// The byte behind a text that is followed by a comma or a closing
/// bracket cannot continue a number.
proof fn lemma_ends_number(b: Seq<u8>, q: int)
    requires
        0 <= q < b.len(),
        b[q] == COMMA || b[q] == RIGHT_BRACKET || b[q] == RIGHT_BRACE,
    ensures
        ends_number(b, q),
{
}

/// The canonical text of a value, wherever a buffer holds it in front of
/// something that cannot continue a number, takes the machine from where
/// it waits for a value to behind that value.
pub proof fn lemma_parse_rendered(b: Seq<u8>, p: int, state: ParserState, value: ValueModel)
    requires
        well_formed_value(value),
        holds(b, p, render(value)),
        ends_number(b, p + render(value).len()),
        takes_value(state),
    ensures
        parse_from(b, p, LexMode::Top, state) == parse_from(
            b,
            p + render(value).len(),
            LexMode::Top,
            behind(state, value, p + render(value).len()),
        ),
    decreases value, 0nat,
{
    match value {
        ValueModel::Number(text) => {
            lemma_parse_number(b, p, state, text);
        },
        ValueModel::String(body) => {
            lemma_parse_string(b, p, state, body);
        },
        ValueModel::Bool(flag) => {
            lemma_parse_keyword(b, p, state, value);
        },
        ValueModel::Null => {
            lemma_parse_keyword(b, p, state, value);
        },
        ValueModel::Array(items) => {
            let inner = render_items(items, items.len());
            let m = inner.len() as int;
            lemma_holds_three(b, p, seq![LEFT_BRACKET], inner, seq![RIGHT_BRACKET]);
            assert(b[p] == seq![LEFT_BRACKET][0]);
            assert(b[p + 1 + m] == seq![RIGHT_BRACKET][0]);
            lemma_enter_array(b, p, state);
            if items.len() == 0 {
                assert(items =~= Seq::empty());
                lemma_leave_array(b, p + 1, state, Seq::empty(), Phase::FirstItem, p + 1);
            } else {
                lemma_ends_number(b, p + 1 + m);
                lemma_parse_items(b, p + 1, state, items, items.len());
                assert(items.take(items.len() as int) =~= items);
                lemma_leave_array(b, p + 1 + m, state, items, Phase::ArrayNext, p + 1 + m);
            }
        },
        ValueModel::Object(pairs) => {
            let inner = render_pairs(pairs, pairs.len());
            let m = inner.len() as int;
            lemma_holds_three(b, p, seq![LEFT_BRACE], inner, seq![RIGHT_BRACE]);
            assert(b[p] == seq![LEFT_BRACE][0]);
            assert(b[p + 1 + m] == seq![RIGHT_BRACE][0]);
            lemma_enter_object(b, p, state);
            if pairs.len() == 0 {
                assert(pairs =~= Seq::empty());
                lemma_leave_object(
                    b,
                    p + 1,
                    state,
                    Seq::empty(),
                    Seq::empty(),
                    Phase::FirstKey,
                    p + 1,
                );
            } else {
                lemma_ends_number(b, p + 1 + m);
                lemma_parse_pairs(b, p + 1, state, pairs, pairs.len());
                assert(pairs.take(pairs.len() as int) =~= pairs);
                lemma_leave_object(
                    b,
                    p + 1 + m,
                    state,
                    pairs,
                    pairs[pairs.len() - 1].0,
                    Phase::ObjectNext,
                    p + 1 + m,
                );
            }
        },
    }
}

/// The canonical text of the first `count` items of an array takes the
/// machine from behind the opening bracket to behind the last of them.
proof fn lemma_parse_items(
    b: Seq<u8>,
    q: int,
    outer: ParserState,
    items: Seq<ValueModel>,
    count: nat,
)
    requires
        1 <= count <= items.len(),
        forall|i: int| 0 <= i < items.len() ==> well_formed_value(#[trigger] items[i]),
        holds(b, q, render_items(items, count)),
        ends_number(b, q + render_items(items, count).len()),
        outer.text.len() == 0,
    ensures
        parse_from(b, q, LexMode::Top, in_array(outer, Seq::empty(), Phase::FirstItem, q))
            == parse_from(
            b,
            q + render_items(items, count).len(),
            LexMode::Top,
            in_array(
                outer,
                items.take(count as int),
                Phase::ArrayNext,
                q + render_items(items, count).len(),
            ),
        ),
    decreases items, count,
{
    let last = items[count - 1];
    let end = q + render_items(items, count).len();
    if count == 1 {
        let start = in_array(outer, Seq::empty(), Phase::FirstItem, q);
        lemma_parse_rendered(b, q, start, last);
        lemma_array_takes(outer, Seq::empty(), Phase::FirstItem, q, last, end);
        assert(items.take(1) =~= Seq::empty().push(last));
    } else {
        let before = render_items(items, (count - 1) as nat);
        let m = before.len() as int;
        lemma_holds_three(b, q, before, separator(), render(last));
        assert(b[q + m] == separator()[0]);
        lemma_ends_number(b, q + m);
        lemma_parse_items(b, q, outer, items, (count - 1) as nat);
        let taken = items.take(count - 1);
        lemma_next_item(b, q + m, outer, taken, q + m);
        let waiting = in_array(outer, taken, Phase::Value, q + m + 1);
        lemma_parse_rendered(b, q + m + 2, waiting, last);
        lemma_array_takes(outer, taken, Phase::Value, q + m + 1, last, end);
        assert(items.take(count as int) =~= taken.push(last));
    }
}

/// The canonical text of the first `count` pairs of an object takes the
/// machine from behind the opening bracket to behind the last of them.
proof fn lemma_parse_pairs(
    b: Seq<u8>,
    q: int,
    outer: ParserState,
    pairs: Seq<(Seq<u8>, ValueModel)>,
    count: nat,
)
    requires
        1 <= count <= pairs.len(),
        forall|i: int|
            0 <= i < pairs.len() ==> is_string_body((#[trigger] pairs[i]).0) && well_formed_value(
                pairs[i].1,
            ),
        holds(b, q, render_pairs(pairs, count)),
        ends_number(b, q + render_pairs(pairs, count).len()),
        outer.text.len() == 0,
    ensures
        parse_from(
            b,
            q,
            LexMode::Top,
            in_object(outer, Seq::empty(), Seq::empty(), Phase::FirstKey, q),
        ) == parse_from(
            b,
            q + render_pairs(pairs, count).len(),
            LexMode::Top,
            in_object(
                outer,
                pairs.take(count as int),
                pairs[count - 1].0,
                Phase::ObjectNext,
                q + render_pairs(pairs, count).len(),
            ),
        ),
    decreases pairs, count,
{
    let key = pairs[count - 1].0;
    let value = pairs[count - 1].1;
    let text = render(value);
    let end = q + render_pairs(pairs, count).len();
    assert(render_pair(key, text) =~= quoted(key) + seq![COLON, SPACE] + text);
    if count == 1 {
        lemma_holds_three(b, q, quoted(key), seq![COLON, SPACE], text);
        let k = q + key.len() + 2;
        lemma_parse_key(b, q, outer, Seq::empty(), Seq::empty(), Phase::FirstKey, q, key);
        lemma_colon(b, k, outer, Seq::empty(), key, k);
        let waiting = in_object(outer, Seq::empty(), key, Phase::Value, k + 1);
        lemma_parse_rendered(b, k + 2, waiting, value);
        lemma_object_takes(outer, Seq::empty(), key, Phase::Value, k + 1, value, end);
        assert(pairs.take(1) =~= Seq::empty().push((key, value)));
    } else {
        let before = render_pairs(pairs, (count - 1) as nat);
        let m = before.len() as int;
        lemma_holds_three(b, q, before, separator(), render_pair(key, text));
        assert(b[q + m] == separator()[0]);
        lemma_ends_number(b, q + m);
        lemma_parse_pairs(b, q, outer, pairs, (count - 1) as nat);
        let taken = pairs.take(count - 1);
        let old_key = pairs[count - 2].0;
        lemma_next_pair(b, q + m, outer, taken, old_key, q + m);
        let s = q + m + 2;
        lemma_holds_three(b, s, quoted(key), seq![COLON, SPACE], text);
        let k = s + key.len() + 2;
        lemma_parse_key(b, s, outer, taken, old_key, Phase::Key, q + m + 1, key);
        lemma_colon(b, k, outer, taken, key, k);
        let waiting = in_object(outer, taken, key, Phase::Value, k + 1);
        lemma_parse_rendered(b, k + 2, waiting, value);
        lemma_object_takes(outer, taken, key, Phase::Value, k + 1, value, end);
        assert(pairs.take(count as int) =~= taken.push((key, value)));
    }
}

/// A number token is a number literal, a string token the body of a
/// string literal.
pub open spec fn well_formed_token(token: TokenModel) -> bool {
    match token {
        TokenModel::Number(text) => is_number(text),
        TokenModel::String(text) => is_string_body(text),
        _ => true,
    }
}

/// The tokens of the stream are well formed.
pub proof fn lemma_step_token(b: Seq<u8>, pos: int, mode: LexMode)
    requires
        0 <= pos <= b.len(),
    ensures
        lex_step(b, pos, mode).item matches Some(Ok(triple)) ==> well_formed_token(triple.1),
{
    match mode {
        LexMode::Top => {
            lemma_whitespace_end_bounds(b, pos);
            let p = whitespace_end(b, pos);
            if p < b.len() && number_end(b, p) is Some {
                lemma_number_is_number(b, p);
            }
        },
        LexMode::Quoted { open } => {
            if pos < b.len() {
                lemma_content_end_bounds(b, pos);
                lemma_content_is_body(b, pos, pos);
            }
        },
    }
}

/// Every value in the frame is well formed, and so are its keys.
pub open spec fn well_formed_frame(frame: FrameModel) -> bool {
    match frame {
        FrameModel::Array { items } => well_formed_value(ValueModel::Array(items)),
        FrameModel::Object { pairs, key } => is_string_body(key) && well_formed_value(
            ValueModel::Object(pairs),
        ),
    }
}

/// Everything that the machine holds is well formed.
pub open spec fn holds_well_formed(state: ParserState) -> bool {
    &&& is_string_body(state.text)
    &&& forall|i: int| 0 <= i < state.stack.len() ==> well_formed_frame(#[trigger] state.stack[i])
    &&& state.result matches Some(value) ==> well_formed_value(value)
}

proof fn lemma_complete_keeps(state: ParserState, value: ValueModel)
    requires
        holds_well_formed(state),
        well_formed_value(value),
    ensures
        holds_well_formed(complete(state, value)),
{
    let next = complete(state, value);
    if state.stack.len() > 0 {
        let top = state.stack.last();
        assert(well_formed_frame(top));
        match top {
            FrameModel::Array { items } => {
                let longer = items.push(value);
                let whole = ValueModel::Array(items);
                assert(well_formed_value(whole) && whole->Array_0 == items);
                assert(forall|i: int|
                    0 <= i < items.len() ==> well_formed_value(#[trigger] items[i]));
                assert forall|i: int| 0 <= i < longer.len() implies well_formed_value(
                    #[trigger] longer[i],
                ) by {
                    if i < items.len() {
                        assert(longer[i] == items[i]);
                    }
                }
                assert(well_formed_frame(FrameModel::Array { items: longer }));
            },
            FrameModel::Object { pairs, key } => {
                let longer = pairs.push((key, value));
                let whole = ValueModel::Object(pairs);
                assert(well_formed_value(whole) && whole->Object_0 == pairs);
                assert(forall|i: int|
                    0 <= i < pairs.len() ==> is_string_body((#[trigger] pairs[i]).0)
                        && well_formed_value(pairs[i].1));
                assert forall|i: int| 0 <= i < longer.len() implies is_string_body(
                    (#[trigger] longer[i]).0,
                ) && well_formed_value(longer[i].1) by {
                    if i < pairs.len() {
                        assert(longer[i] == pairs[i]);
                    }
                }
                assert(well_formed_frame(FrameModel::Object { pairs: longer, key }));
            },
        }
        assert forall|i: int| 0 <= i < next.stack.len() implies well_formed_frame(
            #[trigger] next.stack[i],
        ) by {
            if i < next.stack.len() - 1 {
                assert(next.stack[i] == state.stack[i]);
            }
        }
    }
}

proof fn lemma_close_keeps(state: ParserState)
    requires
        holds_well_formed(state),
        state.stack.len() > 0,
    ensures
        holds_well_formed(close(state)),
{
    let rest = ParserState { stack: state.stack.drop_last(), ..state };
    let top = state.stack.last();
    assert(well_formed_frame(top));
    assert forall|i: int| 0 <= i < rest.stack.len() implies well_formed_frame(
        #[trigger] rest.stack[i],
    ) by {
        assert(rest.stack[i] == state.stack[i]);
    }
    lemma_complete_keeps(rest, frame_value(top));
}

proof fn lemma_open_keeps(state: ParserState, frame: FrameModel, phase: Phase)
    requires
        holds_well_formed(state),
        well_formed_frame(frame),
    ensures
        holds_well_formed(open(state, frame, phase)),
{
    let next = open(state, frame, phase);
    assert forall|i: int| 0 <= i < next.stack.len() implies well_formed_frame(
        #[trigger] next.stack[i],
    ) by {
        if i < state.stack.len() {
            assert(next.stack[i] == state.stack[i]);
        }
    }
}

proof fn lemma_key_keeps(state: ParserState, key: Seq<u8>)
    requires
        holds_well_formed(state),
        is_string_body(key),
        state.stack.len() > 0,
    ensures
        holds_well_formed(with_key(state, key)),
{
    let next = with_key(state, key);
    assert(well_formed_frame(state.stack.last()));
    assert forall|i: int| 0 <= i < next.stack.len() implies well_formed_frame(
        #[trigger] next.stack[i],
    ) by {
        if i < next.stack.len() - 1 {
            assert(next.stack[i] == state.stack[i]);
        }
    }
}

/// A step of the machine keeps what it holds well formed, if the token
/// it takes is.
pub proof fn lemma_feed_keeps(state: ParserState, item: SpannedModel)
    requires
        well_formed(state),
        holds_well_formed(state),
        item matches Ok(triple) ==> well_formed_token(triple.1),
        feed(state, item) is Ok,
    ensures
        holds_well_formed(feed(state, item)->Ok_0),
{
    let (start, token, end) = item->Ok_0;
    let at = ParserState { end, ..state };
    let none = ParserState { text: Seq::empty(), ..at };
    assert(is_string_body(Seq::<u8>::empty()));
    assert(holds_well_formed(at));
    assert(holds_well_formed(none));
    match state.phase {
        Phase::Value | Phase::FirstItem => {
            match token {
                TokenModel::Number(text) => lemma_complete_keeps(at, ValueModel::Number(text)),
                TokenModel::True => lemma_complete_keeps(at, ValueModel::Bool(true)),
                TokenModel::False => lemma_complete_keeps(at, ValueModel::Bool(false)),
                TokenModel::Null => lemma_complete_keeps(at, ValueModel::Null),
                TokenModel::LBrack => lemma_open_keeps(
                    at,
                    FrameModel::Array { items: Seq::empty() },
                    Phase::FirstItem,
                ),
                TokenModel::LBrace => lemma_open_keeps(
                    at,
                    FrameModel::Object { pairs: Seq::empty(), key: Seq::empty() },
                    Phase::FirstKey,
                ),
                TokenModel::RBrack => lemma_close_keeps(at),
                _ => {},
            }
        },
        Phase::FirstKey | Phase::Key => {
            match token {
                TokenModel::RBrace => lemma_close_keeps(at),
                _ => {},
            }
        },
        Phase::Colon => {},
        Phase::ArrayNext => {
            match token {
                TokenModel::RBrack => lemma_close_keeps(at),
                _ => {},
            }
        },
        Phase::ObjectNext => {
            match token {
                TokenModel::RBrace => lemma_close_keeps(at),
                _ => {},
            }
        },
        Phase::KeyStart => {
            match token {
                TokenModel::Quote => lemma_key_keeps(at, Seq::empty()),
                _ => {},
            }
        },
        Phase::KeyEnd => {
            match token {
                TokenModel::Quote => lemma_key_keeps(none, state.text),
                _ => {},
            }
        },
        Phase::StringStart => {
            match token {
                TokenModel::Quote => lemma_complete_keeps(at, ValueModel::String(Seq::empty())),
                _ => {},
            }
        },
        Phase::StringEnd => {
            match token {
                TokenModel::Quote => lemma_complete_keeps(none, ValueModel::String(state.text)),
                _ => {},
            }
        },
        Phase::Done => {},
    }
}

/// What the rest of a buffer parses to is well formed, if what the
/// machine holds already is.
pub proof fn lemma_parse_well_formed(b: Seq<u8>, pos: int, mode: LexMode, state: ParserState)
    requires
        0 <= pos <= b.len(),
        well_formed(state),
        holds_well_formed(state),
        parse_from(b, pos, mode, state) is Ok,
    ensures
        well_formed_value(parse_from(b, pos, mode, state)->Ok_0),
    decreases steps_left(b, pos, mode),
{
    lemma_parse_step(b, pos, mode, state);
    lemma_step_progress(b, pos, mode);
    lemma_step_token(b, pos, mode);
    let step = lex_step(b, pos, mode);
    match step.item {
        None => {},
        Some(item) => {
            let next = feed(state, item)->Ok_0;
            lemma_feed_well_formed(state, item);
            lemma_feed_keeps(state, item);
            lemma_parse_well_formed(b, step.pos, step.mode, next);
        },
    }
}

/// A document parses to a well-formed value.
pub proof fn lemma_document_well_formed(document: Seq<u8>)
    requires
        parse_bytes(document) is Ok,
    ensures
        well_formed_value(parse_bytes(document)->Ok_0),
{
    reveal(parse_from);
    assert(parse_bytes(document) == parse_from(document, 0, LexMode::Top, initial()));
    assert(is_string_body(Seq::<u8>::empty()));
    lemma_parse_well_formed(document, 0, LexMode::Top, initial());
}

/// The canonical text of a well-formed value parses to that value.
pub proof fn lemma_parse_render(value: ValueModel)
    requires
        well_formed_value(value),
    ensures
        parse_bytes(render(value)) == Ok::<ValueModel, ParseErrorModel>(value),
{
    let text = render(value);
    let n = text.len() as int;
    lemma_parse_rendered(text, 0, initial(), value);
    lemma_parse_step(text, n, LexMode::Top, behind(initial(), value, n));
    assert(parse_bytes(text) == parse_from(text, 0, LexMode::Top, initial())) by {
        reveal(parse_from);
    }
}

/// Rendering is a round trip: the canonical text of the value of a
/// document parses to the same value.
pub proof fn lemma_render_round_trip(document: Seq<u8>)
    requires
        parse_bytes(document) is Ok,
    ensures
        parse_bytes(render(parse_bytes(document)->Ok_0)) == parse_bytes(document),
{
    lemma_document_well_formed(document);
    lemma_parse_render(parse_bytes(document)->Ok_0);
}

} // verus!
