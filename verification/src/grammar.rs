//! The grammar, and that the machine accepts the documents of the
//! grammar and nothing else.
//!
//! ```text
//! value  := Number | string | "true" | "false" | "null" | object | array
//! string := "\"" String? "\""
//! object := "{" (pair ("," pair)*)? "}"
//! pair   := string ":" value
//! array  := "[" (value ("," value)*)? "]"
//! ```

use crate::lex::{
    items_from, lemma_step_progress, lex_step, steps_left, tokens_of, LexMode, SpannedModel,
    TokenModel,
};
use crate::parser::{
    close, complete, feed, frame_value, initial, parse_bytes, parse_items, run, shift, FrameModel,
    ParseErrorModel, ParserState, Phase,
};
use crate::round_trip::{in_array, in_object, takes_value};
use crate::value::ValueModel;
use vstd::prelude::*;

verus! {

/// The tokens of a string literal with the body `body`: two quotes, and
/// between them the body if it is not empty.
pub open spec fn string_tokens(body: Seq<u8>) -> Seq<TokenModel> {
    if body.len() == 0 {
        seq![TokenModel::Quote, TokenModel::Quote]
    } else {
        seq![TokenModel::Quote, TokenModel::String(body), TokenModel::Quote]
    }
}

/// The tokens of the document that denotes `value`.
pub open spec fn value_tokens(value: ValueModel) -> Seq<TokenModel>
    decreases value, 0nat,
{
    match value {
        ValueModel::Number(text) => seq![TokenModel::Number(text)],
        ValueModel::String(body) => string_tokens(body),
        ValueModel::Object(pairs) => seq![TokenModel::LBrace] + pairs_tokens(pairs, pairs.len())
            + seq![TokenModel::RBrace],
        ValueModel::Bool(flag) => if flag {
            seq![TokenModel::True]
        } else {
            seq![TokenModel::False]
        },
        ValueModel::Null => seq![TokenModel::Null],
        ValueModel::Array(items) => seq![TokenModel::LBrack] + items_tokens(items, items.len())
            + seq![TokenModel::RBrack],
    }
}

/// The tokens of the first `count` items of an array, a comma between
/// one and the next.
pub open spec fn items_tokens(items: Seq<ValueModel>, count: nat) -> Seq<TokenModel>
    decreases items, count,
{
    if count == 0 || count > items.len() {
        Seq::empty()
    } else if count == 1 {
        value_tokens(items[0])
    } else {
        items_tokens(items, (count - 1) as nat) + seq![TokenModel::Comma] + value_tokens(
            items[count - 1],
        )
    }
}

/// The tokens of one pair of an object.
pub open spec fn pair_tokens(key: Seq<u8>, value: Seq<TokenModel>) -> Seq<TokenModel> {
    string_tokens(key) + seq![TokenModel::Colon] + value
}

/// The tokens of the first `count` pairs of an object, a comma between
/// one and the next.
pub open spec fn pairs_tokens(pairs: Seq<(Seq<u8>, ValueModel)>, count: nat) -> Seq<TokenModel>
    decreases pairs, count,
{
    if count == 0 || count > pairs.len() {
        Seq::empty()
    } else if count == 1 {
        pair_tokens(pairs[0].0, value_tokens(pairs[0].1))
    } else {
        pairs_tokens(pairs, (count - 1) as nat) + seq![TokenModel::Comma] + pair_tokens(
            pairs[count - 1].0,
            value_tokens(pairs[count - 1].1),
        )
    }
}

/// The state in which the machine has taken all of `tokens`, if the
/// grammar has a place for each.
pub open spec fn take_tokens(state: ParserState, tokens: Seq<TokenModel>) -> Option<ParserState>
    decreases tokens.len(),
{
    if tokens.len() == 0 {
        Some(state)
    } else {
        match shift(state, tokens[0]) {
            Some(next) => take_tokens(next, tokens.drop_first()),
            None => None,
        }
    }
}

/// The machine takes a token and then the rest.
pub proof fn lemma_take_one(state: ParserState, token: TokenModel, rest: Seq<TokenModel>)
    ensures
        take_tokens(state, seq![token] + rest) == match shift(state, token) {
            Some(next) => take_tokens(next, rest),
            None => None,
        },
{
    let all = seq![token] + rest;
    assert(all[0] == token);
    assert(all.drop_first() =~= rest);
}

/// The machine takes two sequences of tokens in a row as it takes the
/// first and then, from where that left it, the second.
pub proof fn lemma_take_concat(
    state: ParserState,
    first: Seq<TokenModel>,
    second: Seq<TokenModel>,
)
    ensures
        take_tokens(state, first + second) == match take_tokens(state, first) {
            Some(middle) => take_tokens(middle, second),
            None => None,
        },
    decreases first.len(),
{
    if first.len() == 0 {
        assert(first + second =~= second);
    } else {
        assert((first + second)[0] == first[0]);
        assert((first + second).drop_first() =~= first.drop_first() + second);
        match shift(state, first[0]) {
            Some(next) => {
                lemma_take_concat(next, first.drop_first(), second);
            },
            None => {},
        }
    }
}

/// The state inside an array, with the offset of the last token left as
/// it was in `outer`.
pub open spec fn array_of(outer: ParserState, items: Seq<ValueModel>, phase: Phase) -> ParserState {
    in_array(outer, items, phase, outer.end as int)
}

/// The state inside an object, with the offset of the last token left
/// as it was in `outer`.
pub open spec fn object_of(
    outer: ParserState,
    pairs: Seq<(Seq<u8>, ValueModel)>,
    key: Seq<u8>,
    phase: Phase,
) -> ParserState {
    in_object(outer, pairs, key, phase, outer.end as int)
}

proof fn lemma_array_completes(
    outer: ParserState,
    items: Seq<ValueModel>,
    phase: Phase,
    value: ValueModel,
)
    ensures
        complete(array_of(outer, items, phase), value) == array_of(
            outer,
            items.push(value),
            Phase::ArrayNext,
        ),
{
    assert(array_of(outer, items, phase).stack.drop_last() =~= outer.stack);
}

proof fn lemma_object_completes(
    outer: ParserState,
    pairs: Seq<(Seq<u8>, ValueModel)>,
    key: Seq<u8>,
    phase: Phase,
    value: ValueModel,
)
    ensures
        complete(object_of(outer, pairs, key, phase), value) == object_of(
            outer,
            pairs.push((key, value)),
            key,
            Phase::ObjectNext,
        ),
{
    assert(object_of(outer, pairs, key, phase).stack.drop_last() =~= outer.stack);
}

proof fn lemma_array_closes(outer: ParserState, items: Seq<ValueModel>, phase: Phase)
    requires
        phase is FirstItem || phase is ArrayNext,
    ensures
        shift(array_of(outer, items, phase), TokenModel::RBrack) == Some(
            complete(outer, ValueModel::Array(items)),
        ),
{
    assert(array_of(outer, items, phase).stack.drop_last() =~= outer.stack);
}

proof fn lemma_object_closes(
    outer: ParserState,
    pairs: Seq<(Seq<u8>, ValueModel)>,
    key: Seq<u8>,
    phase: Phase,
)
    requires
        phase is FirstKey || phase is ObjectNext,
    ensures
        shift(object_of(outer, pairs, key, phase), TokenModel::RBrace) == Some(
            complete(outer, ValueModel::Object(pairs)),
        ),
{
    assert(object_of(outer, pairs, key, phase).stack.drop_last() =~= outer.stack);
}

/// The tokens of a string literal take the machine from where it waits
/// for a value to behind the string.
proof fn lemma_takes_string(state: ParserState, body: Seq<u8>, rest: Seq<TokenModel>)
    requires
        takes_value(state),
    ensures
        take_tokens(state, string_tokens(body) + rest) == take_tokens(
            complete(state, ValueModel::String(body)),
            rest,
        ),
{
    assert(state.text =~= Seq::empty());
    let first = ParserState { phase: Phase::StringStart, ..state };
    if body.len() == 0 {
        assert(body =~= Seq::empty());
        assert(string_tokens(body) + rest =~= seq![TokenModel::Quote] + (seq![TokenModel::Quote]
            + rest));
        lemma_take_one(state, TokenModel::Quote, seq![TokenModel::Quote] + rest);
        lemma_take_one(first, TokenModel::Quote, rest);
    } else {
        let tail = seq![TokenModel::String(body)] + (seq![TokenModel::Quote] + rest);
        assert(string_tokens(body) + rest =~= seq![TokenModel::Quote] + tail);
        lemma_take_one(state, TokenModel::Quote, tail);
        lemma_take_one(first, TokenModel::String(body), seq![TokenModel::Quote] + rest);
        let second = ParserState { phase: Phase::StringEnd, text: body, ..state };
        lemma_take_one(second, TokenModel::Quote, rest);
    }
}

/// The tokens of a key take the machine from where it waits for a key to
/// where it waits for the colon.
proof fn lemma_takes_key(
    outer: ParserState,
    pairs: Seq<(Seq<u8>, ValueModel)>,
    old_key: Seq<u8>,
    phase: Phase,
    key: Seq<u8>,
    rest: Seq<TokenModel>,
)
    requires
        phase is FirstKey || phase is Key,
        outer.text.len() == 0,
    ensures
        take_tokens(object_of(outer, pairs, old_key, phase), string_tokens(key) + rest)
            == take_tokens(object_of(outer, pairs, key, Phase::Colon), rest),
{
    let state = object_of(outer, pairs, old_key, phase);
    assert(outer.text =~= Seq::empty());
    assert(state.stack.drop_last() =~= outer.stack);
    let first = ParserState { phase: Phase::KeyStart, ..state };
    if key.len() == 0 {
        assert(key =~= Seq::empty());
        assert(string_tokens(key) + rest =~= seq![TokenModel::Quote] + (seq![TokenModel::Quote]
            + rest));
        lemma_take_one(state, TokenModel::Quote, seq![TokenModel::Quote] + rest);
        lemma_take_one(first, TokenModel::Quote, rest);
    } else {
        let tail = seq![TokenModel::String(key)] + (seq![TokenModel::Quote] + rest);
        assert(string_tokens(key) + rest =~= seq![TokenModel::Quote] + tail);
        lemma_take_one(state, TokenModel::Quote, tail);
        lemma_take_one(first, TokenModel::String(key), seq![TokenModel::Quote] + rest);
        let second = ParserState { phase: Phase::KeyEnd, text: key, ..state };
        lemma_take_one(second, TokenModel::Quote, rest);
    }
}

/// The tokens of a value take the machine from where it waits for a
/// value to behind that value.
pub proof fn lemma_takes_value(state: ParserState, value: ValueModel, rest: Seq<TokenModel>)
    requires
        takes_value(state),
    ensures
        take_tokens(state, value_tokens(value) + rest) == take_tokens(complete(state, value), rest),
    decreases value, 0nat,
{
    match value {
        ValueModel::Number(text) => {
            lemma_take_one(state, TokenModel::Number(text), rest);
        },
        ValueModel::String(body) => {
            lemma_takes_string(state, body, rest);
        },
        ValueModel::Bool(flag) => {
            if flag {
                lemma_take_one(state, TokenModel::True, rest);
            } else {
                lemma_take_one(state, TokenModel::False, rest);
            }
        },
        ValueModel::Null => {
            lemma_take_one(state, TokenModel::Null, rest);
        },
        ValueModel::Array(items) => {
            let inner = items_tokens(items, items.len());
            let closing = seq![TokenModel::RBrack] + rest;
            assert(value_tokens(value) + rest =~= seq![TokenModel::LBrack] + (inner + closing));
            lemma_take_one(state, TokenModel::LBrack, inner + closing);
            let opened = array_of(state, Seq::empty(), Phase::FirstItem);
            assert(shift(state, TokenModel::LBrack) == Some(opened));
            if items.len() == 0 {
                assert(items =~= Seq::empty());
                assert(inner + closing =~= closing);
                lemma_array_closes(state, Seq::empty(), Phase::FirstItem);
                lemma_take_one(opened, TokenModel::RBrack, rest);
            } else {
                lemma_takes_items(state, items, items.len(), closing);
                assert(items.take(items.len() as int) =~= items);
                lemma_array_closes(state, items, Phase::ArrayNext);
                lemma_take_one(array_of(state, items, Phase::ArrayNext), TokenModel::RBrack, rest);
            }
        },
        ValueModel::Object(pairs) => {
            let inner = pairs_tokens(pairs, pairs.len());
            let closing = seq![TokenModel::RBrace] + rest;
            assert(value_tokens(value) + rest =~= seq![TokenModel::LBrace] + (inner + closing));
            lemma_take_one(state, TokenModel::LBrace, inner + closing);
            let opened = object_of(state, Seq::empty(), Seq::empty(), Phase::FirstKey);
            assert(shift(state, TokenModel::LBrace) == Some(opened));
            if pairs.len() == 0 {
                assert(pairs =~= Seq::empty());
                assert(inner + closing =~= closing);
                lemma_object_closes(state, Seq::empty(), Seq::empty(), Phase::FirstKey);
                lemma_take_one(opened, TokenModel::RBrace, rest);
            } else {
                lemma_takes_pairs(state, pairs, pairs.len(), closing);
                assert(pairs.take(pairs.len() as int) =~= pairs);
                let last_key = pairs[pairs.len() - 1].0;
                lemma_object_closes(state, pairs, last_key, Phase::ObjectNext);
                lemma_take_one(
                    object_of(state, pairs, last_key, Phase::ObjectNext),
                    TokenModel::RBrace,
                    rest,
                );
            }
        },
    }
}

/// The tokens of the first `count` items of an array take the machine
/// from behind the opening bracket to behind the last of them.
proof fn lemma_takes_items(
    outer: ParserState,
    items: Seq<ValueModel>,
    count: nat,
    rest: Seq<TokenModel>,
)
    requires
        1 <= count <= items.len(),
        outer.text.len() == 0,
    ensures
        take_tokens(
            array_of(outer, Seq::empty(), Phase::FirstItem),
            items_tokens(items, count) + rest,
        ) == take_tokens(array_of(outer, items.take(count as int), Phase::ArrayNext), rest),
    decreases items, count,
{
    let last = items[count - 1];
    if count == 1 {
        let start = array_of(outer, Seq::empty(), Phase::FirstItem);
        lemma_takes_value(start, last, rest);
        lemma_array_completes(outer, Seq::empty(), Phase::FirstItem, last);
        assert(items.take(1) =~= Seq::empty().push(last));
    } else {
        let before = items_tokens(items, (count - 1) as nat);
        let tail = value_tokens(last) + rest;
        assert(items_tokens(items, count) + rest =~= before + (seq![TokenModel::Comma] + tail));
        lemma_takes_items(outer, items, (count - 1) as nat, seq![TokenModel::Comma] + tail);
        let taken = items.take(count - 1);
        lemma_take_one(array_of(outer, taken, Phase::ArrayNext), TokenModel::Comma, tail);
        let waiting = array_of(outer, taken, Phase::Value);
        lemma_takes_value(waiting, last, rest);
        lemma_array_completes(outer, taken, Phase::Value, last);
        assert(items.take(count as int) =~= taken.push(last));
    }
}

/// The tokens of the first `count` pairs of an object take the machine
/// from behind the opening bracket to behind the last of them.
proof fn lemma_takes_pairs(
    outer: ParserState,
    pairs: Seq<(Seq<u8>, ValueModel)>,
    count: nat,
    rest: Seq<TokenModel>,
)
    requires
        1 <= count <= pairs.len(),
        outer.text.len() == 0,
    ensures
        take_tokens(
            object_of(outer, Seq::empty(), Seq::empty(), Phase::FirstKey),
            pairs_tokens(pairs, count) + rest,
        ) == take_tokens(
            object_of(outer, pairs.take(count as int), pairs[count - 1].0, Phase::ObjectNext),
            rest,
        ),
    decreases pairs, count,
{
    let key = pairs[count - 1].0;
    let value = pairs[count - 1].1;
    let tail = value_tokens(value) + rest;
    let pair = pair_tokens(key, value_tokens(value));
    assert(pair + rest =~= string_tokens(key) + (seq![TokenModel::Colon] + tail));
    if count == 1 {
        lemma_takes_key(
            outer,
            Seq::empty(),
            Seq::empty(),
            Phase::FirstKey,
            key,
            seq![TokenModel::Colon] + tail,
        );
        lemma_take_one(object_of(outer, Seq::empty(), key, Phase::Colon), TokenModel::Colon, tail);
        let waiting = object_of(outer, Seq::empty(), key, Phase::Value);
        lemma_takes_value(waiting, value, rest);
        lemma_object_completes(outer, Seq::empty(), key, Phase::Value, value);
        assert(pairs.take(1) =~= Seq::empty().push((key, value)));
    } else {
        let before = pairs_tokens(pairs, (count - 1) as nat);
        assert(pairs_tokens(pairs, count) + rest =~= before + (seq![TokenModel::Comma] + (pair
            + rest)));
        lemma_takes_pairs(outer, pairs, (count - 1) as nat, seq![TokenModel::Comma] + (pair + rest));
        let taken = pairs.take(count - 1);
        let old_key = pairs[count - 2].0;
        lemma_take_one(
            object_of(outer, taken, old_key, Phase::ObjectNext),
            TokenModel::Comma,
            pair + rest,
        );
        lemma_takes_key(outer, taken, old_key, Phase::Key, key, seq![TokenModel::Colon] + tail);
        lemma_take_one(object_of(outer, taken, key, Phase::Colon), TokenModel::Colon, tail);
        let waiting = object_of(outer, taken, key, Phase::Value);
        lemma_takes_value(waiting, value, rest);
        lemma_object_completes(outer, taken, key, Phase::Value, value);
        assert(pairs.take(count as int) =~= taken.push((key, value)));
    }
}

/// The comma that stands behind `count` items or pairs when another
/// follows: none behind none.
pub open spec fn comma_behind(count: nat) -> Seq<TokenModel> {
    if count > 0 {
        seq![TokenModel::Comma]
    } else {
        Seq::empty()
    }
}

/// The tokens that opened a frame and filled it up to where its next
/// value begins.
pub open spec fn frame_tokens(frame: FrameModel) -> Seq<TokenModel> {
    match frame {
        FrameModel::Array { items } => seq![TokenModel::LBrack] + items_tokens(items, items.len())
            + comma_behind(items.len()),
        FrameModel::Object { pairs, key } => seq![TokenModel::LBrace] + pairs_tokens(
            pairs,
            pairs.len(),
        ) + comma_behind(pairs.len()) + string_tokens(key) + seq![TokenModel::Colon],
    }
}

/// The tokens of the outermost `count` frames, each up to where its
/// next value begins.
pub open spec fn stack_tokens(stack: Seq<FrameModel>, count: nat) -> Seq<TokenModel>
    decreases count,
{
    if count == 0 || count > stack.len() {
        Seq::empty()
    } else {
        stack_tokens(stack, (count - 1) as nat) + frame_tokens(stack[count - 1])
    }
}

/// The tokens of the innermost frame as far as the phase says that it
/// was read.
pub open spec fn top_tokens(state: ParserState) -> Seq<TokenModel> {
    match state.stack.last() {
        FrameModel::Array { items } => seq![TokenModel::LBrack] + items_tokens(items, items.len()),
        FrameModel::Object { pairs, key } => {
            let read = seq![TokenModel::LBrace] + pairs_tokens(pairs, pairs.len());
            match state.phase {
                Phase::Key => read + seq![TokenModel::Comma],
                Phase::KeyStart => read + comma_behind(pairs.len()) + seq![TokenModel::Quote],
                Phase::KeyEnd => read + comma_behind(pairs.len()) + seq![
                    TokenModel::Quote,
                    TokenModel::String(state.text),
                ],
                Phase::Colon => read + comma_behind(pairs.len()) + string_tokens(key),
                _ => read,
            }
        },
    }
}

/// The tokens that the machine has taken to come to `state`.
pub open spec fn trace(state: ParserState) -> Seq<TokenModel> {
    let outer = stack_tokens(state.stack, state.stack.len());
    match state.phase {
        Phase::Value => outer,
        Phase::StringStart => outer + seq![TokenModel::Quote],
        Phase::StringEnd => outer + seq![TokenModel::Quote, TokenModel::String(state.text)],
        Phase::Done => value_tokens(state.result->0),
        _ => stack_tokens(state.stack, (state.stack.len() - 1) as nat) + top_tokens(state),
    }
}

/// The phase fits what the innermost frame holds, and a string that is
/// being read has a body.
pub open spec fn coherent(state: ParserState) -> bool {
    &&& crate::parser::well_formed(state)
    &&& match state.phase {
        Phase::FirstItem => state.stack.last()->items.len() == 0,
        Phase::ArrayNext => state.stack.last()->items.len() > 0,
        Phase::FirstKey => state.stack.last()->pairs.len() == 0,
        Phase::Key | Phase::ObjectNext => state.stack.last()->pairs.len() > 0,
        Phase::KeyEnd | Phase::StringEnd => state.text.len() > 0,
        _ => true,
    }
}

/// A string token has a body: the token of an empty string literal is
/// never made.
pub open spec fn has_body(token: TokenModel) -> bool {
    token matches TokenModel::String(body) ==> body.len() > 0
}

proof fn lemma_items_tokens_agree(first: Seq<ValueModel>, second: Seq<ValueModel>, count: nat)
    requires
        count <= first.len(),
        count <= second.len(),
        forall|i: int| 0 <= i < count ==> first[i] == second[i],
    ensures
        items_tokens(first, count) == items_tokens(second, count),
    decreases count,
{
    if count > 1 {
        lemma_items_tokens_agree(first, second, (count - 1) as nat);
    }
}

proof fn lemma_pairs_tokens_agree(
    first: Seq<(Seq<u8>, ValueModel)>,
    second: Seq<(Seq<u8>, ValueModel)>,
    count: nat,
)
    requires
        count <= first.len(),
        count <= second.len(),
        forall|i: int| 0 <= i < count ==> first[i] == second[i],
    ensures
        pairs_tokens(first, count) == pairs_tokens(second, count),
    decreases count,
{
    if count > 1 {
        lemma_pairs_tokens_agree(first, second, (count - 1) as nat);
    }
}

proof fn lemma_stack_tokens_agree(first: Seq<FrameModel>, second: Seq<FrameModel>, count: nat)
    requires
        count <= first.len(),
        count <= second.len(),
        forall|i: int| 0 <= i < count ==> first[i] == second[i],
    ensures
        stack_tokens(first, count) == stack_tokens(second, count),
    decreases count,
{
    if count > 0 {
        lemma_stack_tokens_agree(first, second, (count - 1) as nat);
    }
}

/// The tokens of the items of an array with one more item.
proof fn lemma_items_tokens_push(items: Seq<ValueModel>, value: ValueModel)
    ensures
        items_tokens(items.push(value), items.len() + 1) == items_tokens(items, items.len())
            + comma_behind(items.len()) + value_tokens(value),
{
    let longer = items.push(value);
    let n = items.len();
    if n == 0 {
        assert(items_tokens(items, 0) + comma_behind(0) + value_tokens(value) =~= value_tokens(
            value,
        ));
    } else {
        lemma_items_tokens_agree(longer, items, n);
    }
}

/// The tokens of the pairs of an object with one more pair.
proof fn lemma_pairs_tokens_push(
    pairs: Seq<(Seq<u8>, ValueModel)>,
    key: Seq<u8>,
    value: ValueModel,
)
    ensures
        pairs_tokens(pairs.push((key, value)), pairs.len() + 1) == pairs_tokens(pairs, pairs.len())
            + comma_behind(pairs.len()) + string_tokens(key) + seq![TokenModel::Colon]
            + value_tokens(value),
{
    let longer = pairs.push((key, value));
    let n = pairs.len();
    let pair = pair_tokens(key, value_tokens(value));
    if n == 0 {
        assert(pairs_tokens(pairs, 0) + comma_behind(0) + string_tokens(key) + seq![
            TokenModel::Colon,
        ] + value_tokens(value) =~= pair);
    } else {
        lemma_pairs_tokens_agree(longer, pairs, n);
        assert(pairs_tokens(pairs, n) + seq![TokenModel::Comma] + pair =~= pairs_tokens(pairs, n)
            + comma_behind(n) + string_tokens(key) + seq![TokenModel::Colon] + value_tokens(
            value,
        ));
    }
}

/// Behind a value the machine has taken what it had taken when the
/// value began, and the tokens of the value.
proof fn lemma_trace_complete(state: ParserState, value: ValueModel)
    ensures
        trace(complete(state, value)) == stack_tokens(state.stack, state.stack.len())
            + value_tokens(value),
{
    let n = state.stack.len();
    let next = complete(state, value);
    if n == 0 {
        assert(stack_tokens(state.stack, 0) + value_tokens(value) =~= value_tokens(value));
    } else {
        let below = stack_tokens(state.stack, (n - 1) as nat);
        lemma_stack_tokens_agree(next.stack, state.stack, (n - 1) as nat);
        match state.stack.last() {
            FrameModel::Array { items } => {
                lemma_items_tokens_push(items, value);
                assert(trace(next) =~= below + (seq![TokenModel::LBrack] + items_tokens(
                    items.push(value),
                    items.len() + 1,
                )));
                assert(trace(next) =~= below + frame_tokens(state.stack.last()) + value_tokens(
                    value,
                ));
            },
            FrameModel::Object { pairs, key } => {
                lemma_pairs_tokens_push(pairs, key, value);
                assert(trace(next) =~= below + (seq![TokenModel::LBrace] + pairs_tokens(
                    pairs.push((key, value)),
                    pairs.len() + 1,
                )));
                assert(trace(next) =~= below + frame_tokens(state.stack.last()) + value_tokens(
                    value,
                ));
            },
        }
    }
}

/// Where the machine waits for a value, it has taken the tokens of its
/// frames, each up to where its next value begins.
proof fn lemma_trace_waiting(state: ParserState)
    requires
        coherent(state),
        state.phase is Value || state.phase is FirstItem,
    ensures
        trace(state) == stack_tokens(state.stack, state.stack.len()),
{
    if state.phase is FirstItem {
        let n = state.stack.len();
        let items = state.stack.last()->items;
        assert(items =~= Seq::empty());
        assert(trace(state) =~= stack_tokens(state.stack, n));
    }
}

/// Behind a closing bracket the machine has taken what it had taken
/// when the frame was opened, and the tokens of the frame's value.
proof fn lemma_trace_close(state: ParserState)
    requires
        coherent(state),
        state.phase is FirstItem || state.phase is ArrayNext || state.phase is FirstKey
            || state.phase is ObjectNext,
    ensures
        trace(close(state)) == trace(state).push(
            if state.stack.last() is Array {
                TokenModel::RBrack
            } else {
                TokenModel::RBrace
            },
        ),
        coherent(close(state)),
{
    let n = state.stack.len();
    let rest = ParserState { stack: state.stack.drop_last(), ..state };
    let value = frame_value(state.stack.last());
    lemma_trace_complete(rest, value);
    lemma_stack_tokens_agree(rest.stack, state.stack, (n - 1) as nat);
    let below = stack_tokens(state.stack, (n - 1) as nat);
    match state.stack.last() {
        FrameModel::Array { items } => {
            assert(trace(state) =~= below + (seq![TokenModel::LBrack] + items_tokens(
                items,
                items.len(),
            )));
            assert(trace(close(state)) =~= trace(state).push(TokenModel::RBrack));
        },
        FrameModel::Object { pairs, key } => {
            assert(trace(state) =~= below + (seq![TokenModel::LBrace] + pairs_tokens(
                pairs,
                pairs.len(),
            )));
            assert(trace(close(state)) =~= trace(state).push(TokenModel::RBrace));
        },
    }
}

/// Behind a value the machine is coherent.
proof fn lemma_complete_coherent(state: ParserState, value: ValueModel)
    requires
        state.text.len() == 0,
        state.result is None,
    ensures
        coherent(complete(state, value)),
{
}

proof fn lemma_step_value(state: ParserState, token: TokenModel)
    requires
        coherent(state),
        state.phase is Value || state.phase is FirstItem,
        shift(state, token) is Some,
    ensures
        trace(shift(state, token)->0) == trace(state).push(token),
        coherent(shift(state, token)->0),
{
    let next = shift(state, token)->0;
    let n = state.stack.len();
    lemma_trace_waiting(state);
    let outer = stack_tokens(state.stack, n);
    match token {
        TokenModel::Number(text) => {
            lemma_trace_complete(state, ValueModel::Number(text));
            lemma_complete_coherent(state, ValueModel::Number(text));
            assert(outer + seq![token] =~= outer.push(token));
        },
        TokenModel::True => {
            lemma_trace_complete(state, ValueModel::Bool(true));
            lemma_complete_coherent(state, ValueModel::Bool(true));
            assert(outer + seq![token] =~= outer.push(token));
        },
        TokenModel::False => {
            lemma_trace_complete(state, ValueModel::Bool(false));
            lemma_complete_coherent(state, ValueModel::Bool(false));
            assert(outer + seq![token] =~= outer.push(token));
        },
        TokenModel::Null => {
            lemma_trace_complete(state, ValueModel::Null);
            lemma_complete_coherent(state, ValueModel::Null);
            assert(outer + seq![token] =~= outer.push(token));
        },
        TokenModel::Quote => {
            assert(trace(next) =~= outer.push(token));
        },
        TokenModel::LBrack => {
            lemma_stack_tokens_agree(next.stack, state.stack, n);
            assert(top_tokens(next) =~= seq![TokenModel::LBrack]);
            assert(trace(next) =~= outer.push(token));
        },
        TokenModel::LBrace => {
            lemma_stack_tokens_agree(next.stack, state.stack, n);
            assert(top_tokens(next) =~= seq![TokenModel::LBrace]);
            assert(trace(next) =~= outer.push(token));
        },
        TokenModel::RBrack => {
            lemma_trace_close(state);
        },
        _ => {},
    }
}

proof fn lemma_step_next(state: ParserState, token: TokenModel)
    requires
        coherent(state),
        state.phase is ArrayNext || state.phase is ObjectNext,
        shift(state, token) is Some,
    ensures
        trace(shift(state, token)->0) == trace(state).push(token),
        coherent(shift(state, token)->0),
{
    let next = shift(state, token)->0;
    let n = state.stack.len();
    let below = stack_tokens(state.stack, (n - 1) as nat);
    match token {
        TokenModel::Comma => {
            match state.stack.last() {
                FrameModel::Array { items } => {
                    assert(trace(next) =~= below + (seq![TokenModel::LBrack] + items_tokens(
                        items,
                        items.len(),
                    ) + seq![TokenModel::Comma]));
                    assert(trace(next) =~= trace(state).push(token));
                },
                FrameModel::Object { pairs, key } => {
                    assert(trace(next) =~= trace(state).push(token));
                },
            }
        },
        _ => {
            lemma_trace_close(state);
        },
    }
}

proof fn lemma_step_key(state: ParserState, token: TokenModel)
    requires
        coherent(state),
        state.phase is FirstKey || state.phase is Key,
        shift(state, token) is Some,
    ensures
        trace(shift(state, token)->0) == trace(state).push(token),
        coherent(shift(state, token)->0),
{
    let next = shift(state, token)->0;
    match token {
        TokenModel::Quote => {
            assert(trace(next) =~= trace(state).push(token));
        },
        _ => {
            lemma_trace_close(state);
        },
    }
}

proof fn lemma_step_key_body(state: ParserState, token: TokenModel)
    requires
        coherent(state),
        state.phase is KeyStart || state.phase is KeyEnd,
        shift(state, token) is Some,
        has_body(token),
    ensures
        trace(shift(state, token)->0) == trace(state).push(token),
        coherent(shift(state, token)->0),
{
    let next = shift(state, token)->0;
    let n = state.stack.len();
    lemma_stack_tokens_agree(next.stack, state.stack, (n - 1) as nat);
    let below = stack_tokens(state.stack, (n - 1) as nat);
    let pairs = state.stack.last()->pairs;
    let read = seq![TokenModel::LBrace] + pairs_tokens(pairs, pairs.len()) + comma_behind(
        pairs.len(),
    );
    match token {
        TokenModel::Quote => {
            if state.phase is KeyStart {
                assert(trace(next) =~= below + (read + seq![TokenModel::Quote, TokenModel::Quote]));
                assert(trace(state) =~= below + (read + seq![TokenModel::Quote]));
            } else {
                assert(trace(next) =~= below + (read + seq![
                    TokenModel::Quote,
                    TokenModel::String(state.text),
                    TokenModel::Quote,
                ]));
                assert(trace(state) =~= below + (read + seq![
                    TokenModel::Quote,
                    TokenModel::String(state.text),
                ]));
            }
            assert(trace(next) =~= trace(state).push(token));
        },
        _ => {
            assert(trace(next) =~= trace(state).push(token));
        },
    }
}

proof fn lemma_step_colon(state: ParserState, token: TokenModel)
    requires
        coherent(state),
        state.phase is Colon,
        shift(state, token) is Some,
    ensures
        trace(shift(state, token)->0) == trace(state).push(token),
        coherent(shift(state, token)->0),
{
    let next = shift(state, token)->0;
    assert(trace(next) =~= trace(state).push(token));
}

proof fn lemma_step_string(state: ParserState, token: TokenModel)
    requires
        coherent(state),
        state.phase is StringStart || state.phase is StringEnd,
        shift(state, token) is Some,
        has_body(token),
    ensures
        trace(shift(state, token)->0) == trace(state).push(token),
        coherent(shift(state, token)->0),
{
    let next = shift(state, token)->0;
    let outer = stack_tokens(state.stack, state.stack.len());
    match token {
        TokenModel::Quote => {
            if state.phase is StringStart {
                lemma_trace_complete(state, ValueModel::String(Seq::empty()));
                lemma_complete_coherent(state, ValueModel::String(Seq::empty()));
                assert(outer + seq![TokenModel::Quote, TokenModel::Quote] =~= (outer + seq![
                    TokenModel::Quote,
                ]).push(token));
            } else {
                let cleared = ParserState { text: Seq::empty(), ..state };
                lemma_trace_complete(cleared, ValueModel::String(state.text));
                lemma_complete_coherent(cleared, ValueModel::String(state.text));
                assert(outer + seq![
                    TokenModel::Quote,
                    TokenModel::String(state.text),
                    TokenModel::Quote,
                ] =~= (outer + seq![TokenModel::Quote, TokenModel::String(state.text)]).push(
                    token,
                ));
            }
        },
        _ => {
            assert(trace(next) =~= trace(state).push(token));
        },
    }
}

/// Each token that the machine takes is added to what it has taken, and
/// leaves it coherent.
pub proof fn lemma_step_trace(state: ParserState, token: TokenModel)
    requires
        coherent(state),
        shift(state, token) is Some,
        has_body(token),
    ensures
        trace(shift(state, token)->0) == trace(state).push(token),
        coherent(shift(state, token)->0),
{
    match state.phase {
        Phase::Value | Phase::FirstItem => lemma_step_value(state, token),
        Phase::ArrayNext | Phase::ObjectNext => lemma_step_next(state, token),
        Phase::FirstKey | Phase::Key => lemma_step_key(state, token),
        Phase::KeyStart | Phase::KeyEnd => lemma_step_key_body(state, token),
        Phase::Colon => lemma_step_colon(state, token),
        Phase::StringStart | Phase::StringEnd => lemma_step_string(state, token),
        Phase::Done => {},
    }
}

/// What the machine has taken is what it had taken, and the tokens it
/// was given.
pub proof fn lemma_take_trace(state: ParserState, tokens: Seq<TokenModel>)
    requires
        coherent(state),
        take_tokens(state, tokens) is Some,
        forall|i: int| 0 <= i < tokens.len() ==> has_body(#[trigger] tokens[i]),
    ensures
        trace(take_tokens(state, tokens)->0) == trace(state) + tokens,
        coherent(take_tokens(state, tokens)->0),
    decreases tokens.len(),
{
    if tokens.len() == 0 {
        assert(trace(state) + tokens =~= trace(state));
    } else {
        let next = shift(state, tokens[0])->0;
        let rest = tokens.drop_first();
        lemma_step_trace(state, tokens[0]);
        assert forall|i: int| 0 <= i < rest.len() implies has_body(#[trigger] rest[i]) by {
            assert(rest[i] == tokens[i + 1]);
        }
        lemma_take_trace(next, rest);
        assert(trace(state).push(tokens[0]) + rest =~= trace(state) + tokens);
    }
}

/// The items are tokens, one for each of `tokens` and equal to it,
/// wherever they stand in the input.
pub open spec fn spells(items: Seq<SpannedModel>, tokens: Seq<TokenModel>) -> bool {
    items.len() == tokens.len() && forall|i: int|
        0 <= i < items.len() ==> ((#[trigger] items[i]) matches Ok(triple) && triple.1
            == tokens[i])
}

/// The state without the offset of the last token.
pub open spec fn unplaced(state: ParserState) -> ParserState {
    ParserState { end: 0, ..state }
}

/// Where the last token ended has no part in what the machine does with
/// the next.
proof fn lemma_shift_same(first: ParserState, second: ParserState, token: TokenModel)
    requires
        unplaced(first) == unplaced(second),
    ensures
        shift(first, token) is Some <==> shift(second, token) is Some,
        shift(first, token) is Some ==> unplaced(shift(first, token)->0) == unplaced(
            shift(second, token)->0,
        ) && shift(first, token)->0.end == first.end,
{
}

/// Where the last token ended has no part in what the machine does with
/// the tokens that follow.
proof fn lemma_take_same(first: ParserState, second: ParserState, tokens: Seq<TokenModel>)
    requires
        unplaced(first) == unplaced(second),
    ensures
        take_tokens(first, tokens) is Some <==> take_tokens(second, tokens) is Some,
        take_tokens(first, tokens) is Some ==> unplaced(take_tokens(first, tokens)->0) == unplaced(
            take_tokens(second, tokens)->0,
        ),
    decreases tokens.len(),
{
    if tokens.len() > 0 {
        lemma_shift_same(first, second, tokens[0]);
        if shift(first, tokens[0]) is Some {
            lemma_take_same(
                shift(first, tokens[0])->0,
                shift(second, tokens[0])->0,
                tokens.drop_first(),
            );
        }
    }
}

/// The machine takes items as it takes the tokens that they spell.
proof fn lemma_run_spelled(state: ParserState, items: Seq<SpannedModel>, tokens: Seq<TokenModel>)
    requires
        spells(items, tokens),
    ensures
        run(state, items) is Ok <==> take_tokens(state, tokens) is Some,
        run(state, items) is Ok ==> unplaced(run(state, items)->Ok_0) == unplaced(
            take_tokens(state, tokens)->0,
        ),
    decreases items.len(),
{
    if items.len() > 0 {
        let (start, token, end) = items[0]->Ok_0;
        assert(token == tokens[0]);
        let placed = ParserState { end, ..state };
        lemma_shift_same(placed, state, token);
        if shift(placed, token) is Some {
            let next = shift(placed, token)->0;
            let other = shift(state, token)->0;
            let rest = items.drop_first();
            let rest_tokens = tokens.drop_first();
            assert forall|i: int| 0 <= i < rest.len() implies ((#[trigger] rest[i]) matches Ok(
                triple,
            ) && triple.1 == rest_tokens[i]) by {
                assert(rest[i] == items[i + 1]);
                assert(rest_tokens[i] == tokens[i + 1]);
            }
            lemma_run_spelled(next, rest, rest_tokens);
            lemma_take_same(next, other, rest_tokens);
        }
    }
}

/// The machine takes nothing behind an error of the stream.
proof fn lemma_run_all_tokens(state: ParserState, items: Seq<SpannedModel>)
    requires
        run(state, items) is Ok,
    ensures
        forall|i: int| 0 <= i < items.len() ==> (#[trigger] items[i]) is Ok,
    decreases items.len(),
{
    if items.len() > 0 {
        let rest = items.drop_first();
        lemma_run_all_tokens(feed(state, items[0])->Ok_0, rest);
        assert forall|i: int| 0 <= i < items.len() implies (#[trigger] items[i]) is Ok by {
            if i > 0 {
                assert(rest[i - 1] == items[i]);
            }
        }
    }
}

/// The tokens of a sequence of items, with `Error` in the place of an
/// error of the stream.
pub open spec fn tokens_in(items: Seq<SpannedModel>) -> Seq<TokenModel> {
    Seq::new(
        items.len(),
        |i: int|
            match items[i] {
                Ok(triple) => triple.1,
                Err(error) => TokenModel::Error,
            },
    )
}

/// Items that spell the tokens of a value parse to that value.
pub proof fn lemma_spelled_parses(items: Seq<SpannedModel>, value: ValueModel)
    requires
        spells(items, value_tokens(value)),
    ensures
        parse_items(items) == Ok::<ValueModel, ParseErrorModel>(value),
{
    let tokens = value_tokens(value);
    lemma_takes_value(initial(), value, Seq::empty());
    assert(tokens + Seq::empty() =~= tokens);
    lemma_run_spelled(initial(), items, tokens);
}

/// Items that parse to a value spell the tokens of that value, if none
/// of them is the token of an empty string body.
pub proof fn lemma_parsed_spells(items: Seq<SpannedModel>, value: ValueModel)
    requires
        parse_items(items) == Ok::<ValueModel, ParseErrorModel>(value),
        forall|i: int|
            0 <= i < items.len() ==> ((#[trigger] items[i]) matches Ok(triple) ==> has_body(
                triple.1,
            )),
    ensures
        spells(items, value_tokens(value)),
{
    let tokens = tokens_in(items);
    lemma_run_all_tokens(initial(), items);
    assert(spells(items, tokens));
    lemma_run_spelled(initial(), items, tokens);
    assert forall|i: int| 0 <= i < tokens.len() implies has_body(#[trigger] tokens[i]) by {
        assert(items[i] is Ok);
    }
    assert(stack_tokens(initial().stack, 0) =~= Seq::empty());
    lemma_take_trace(initial(), tokens);
    assert(trace(initial()) + tokens =~= tokens);
}

/// A sequence of items without the token of an empty string body parses
/// to a value exactly if it spells the tokens of that value.
pub proof fn lemma_grammar(items: Seq<SpannedModel>, value: ValueModel)
    requires
        forall|i: int|
            0 <= i < items.len() ==> ((#[trigger] items[i]) matches Ok(triple) ==> has_body(
                triple.1,
            )),
    ensures
        parse_items(items) == Ok::<ValueModel, ParseErrorModel>(value) <==> spells(
            items,
            value_tokens(value),
        ),
{
    if parse_items(items) == Ok::<ValueModel, ParseErrorModel>(value) {
        lemma_parsed_spells(items, value);
    }
    if spells(items, value_tokens(value)) {
        lemma_spelled_parses(items, value);
    }
}

/// The stream makes no token of an empty string body.
pub proof fn lemma_stream_has_bodies(b: Seq<u8>, pos: int, mode: LexMode)
    requires
        0 <= pos <= b.len(),
    ensures
        forall|i: int|
            0 <= i < items_from(b, pos, mode).len() ==> ((#[trigger] items_from(
                b,
                pos,
                mode,
            )[i]) matches Ok(triple) ==> has_body(triple.1)),
    decreases steps_left(b, pos, mode),
{
    let step = lex_step(b, pos, mode);
    let items = items_from(b, pos, mode);
    lemma_step_progress(b, pos, mode);
    match step.item {
        None => {},
        Some(item) => {
            let rest = items_from(b, step.pos, step.mode);
            lemma_stream_has_bodies(b, step.pos, step.mode);
            assert(items == seq![item] + rest);
            if mode is Top {
                crate::scan::lemma_whitespace_end_bounds(b, pos);
                let p = crate::scan::whitespace_end(b, pos);
                if crate::scan::number_end(b, p) is Some {
                    crate::scan::lemma_number_end_bounds(b, p);
                }
            }
            assert forall|i: int| 0 <= i < items.len() implies ((#[trigger] items[i]) matches Ok(
                triple,
            ) ==> has_body(triple.1)) by {
                if i > 0 {
                    assert(items[i] == rest[i - 1]);
                }
            }
        },
    }
}

/// A buffer is a document that denotes `value` exactly if the stream
/// makes of it, without an error, the tokens of `value`.
pub proof fn lemma_document_grammar(b: Seq<u8>, value: ValueModel)
    ensures
        parse_bytes(b) == Ok::<ValueModel, ParseErrorModel>(value) <==> spells(
            tokens_of(b),
            value_tokens(value),
        ),
{
    lemma_stream_has_bodies(b, 0, LexMode::Top);
    lemma_grammar(tokens_of(b), value);
}

} // verus!
