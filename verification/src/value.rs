//! The value tree. Every text in it is a slice of the input buffer.

use crate::lex::{word_false, word_null, word_true};
use crate::scan::{COMMA, COLON, LEFT_BRACE, LEFT_BRACKET, QUOTE, RIGHT_BRACE, RIGHT_BRACKET, SPACE};
use vstd::prelude::*;
use vstd::string::{is_ascii_spec_bytes, StringExecFns, StringSliceAdditionalSpecFns};
use vstd::utf8::encode_utf8;

verus! {

/// A JSON value that borrows its text from the input: a number as it was
/// written, a string as the body between its quotes with its escapes
/// undecoded. An object keeps its pairs in the order of the input, equal
/// keys included.
#[derive(Debug, PartialEq)]
pub enum Value<'a> {
    Number(&'a str),
    String(&'a str),
    Object(Vec<(&'a str, Value<'a>)>),
    Bool(bool),
    Null,
    Array(Vec<Value<'a>>),
}

/// What a value is, with its texts as bytes.
pub enum ValueModel {
    Number(Seq<u8>),
    String(Seq<u8>),
    Object(Seq<(Seq<u8>, ValueModel)>),
    Bool(bool),
    Null,
    Array(Seq<ValueModel>),
}

/// The pairs of `keys` and `values`, taken side by side.
pub open spec fn zip(keys: Seq<Seq<u8>>, values: Seq<ValueModel>) -> Seq<(Seq<u8>, ValueModel)> {
    Seq::new(keys.len(), |i: int| (keys[i], values[i]))
}

impl<'a> View for Value<'a> {
    type V = ValueModel;

    open spec fn view(&self) -> ValueModel
        decreases self,
    {
        match self {
            Value::Number(text) => ValueModel::Number(text.spec_bytes()),
            Value::String(text) => ValueModel::String(text.spec_bytes()),
            Value::Object(pairs) => ValueModel::Object(
                zip(
                    Seq::new(pairs@.len(), |i: int| pairs@[i].0.spec_bytes()),
                    Seq::new(
                        pairs@.len(),
                        |i: int|
                            if 0 <= i < pairs@.len() {
                                pairs@[i].1.view()
                            } else {
                                ValueModel::Null
                            },
                    ),
                ),
            ),
            Value::Bool(flag) => ValueModel::Bool(*flag),
            Value::Null => ValueModel::Null,
            Value::Array(items) => ValueModel::Array(
                Seq::new(
                    items@.len(),
                    |i: int|
                        if 0 <= i < items@.len() {
                            items@[i].view()
                        } else {
                            ValueModel::Null
                        },
                ),
            ),
        }
    }
}

/// The models of a sequence of values.
pub open spec fn values_view(items: Seq<Value>) -> Seq<ValueModel> {
    Seq::new(items.len(), |i: int| items[i]@)
}

/// The models of a sequence of pairs.
pub open spec fn pairs_view(pairs: Seq<(&str, Value)>) -> Seq<(Seq<u8>, ValueModel)> {
    Seq::new(pairs.len(), |i: int| (pairs[i].0.spec_bytes(), pairs[i].1@))
}

/// The model of an array holds the models of its items.
pub proof fn lemma_array_view(value: Value)
    requires
        value is Array,
    ensures
        value@ == ValueModel::Array(values_view(value->Array_0@)),
{
    assert(value@->Array_0.len() == value->Array_0@.len());
    assert(value@->Array_0 =~= values_view(value->Array_0@));
}

/// The model of an object holds the models of its pairs.
pub proof fn lemma_object_view(value: Value)
    requires
        value is Object,
    ensures
        value@ == ValueModel::Object(pairs_view(value->Object_0@)),
{
    assert(value@->Object_0 =~= pairs_view(value->Object_0@));
}

/// What stands between two items of an array or two pairs of an object:
/// a comma and a space.
pub open spec fn separator() -> Seq<u8> {
    seq![COMMA, SPACE]
}

/// The canonical text of a value. A number stands as it was written, a
/// string between two quotes with its body as it was written, a pair as
/// `"key": value`, the items of an array and the pairs of an object one
/// comma and one space apart.
pub open spec fn render(value: ValueModel) -> Seq<u8>
    decreases value, 0nat,
{
    match value {
        ValueModel::Number(text) => text,
        ValueModel::String(text) => seq![QUOTE] + text + seq![QUOTE],
        ValueModel::Object(pairs) => seq![LEFT_BRACE] + render_pairs(pairs, pairs.len())
            + seq![RIGHT_BRACE],
        ValueModel::Bool(flag) => if flag {
            word_true()
        } else {
            word_false()
        },
        ValueModel::Null => word_null(),
        ValueModel::Array(items) => seq![LEFT_BRACKET] + render_items(items, items.len())
            + seq![RIGHT_BRACKET],
    }
}

/// The canonical text of the first `count` items of an array.
pub open spec fn render_items(items: Seq<ValueModel>, count: nat) -> Seq<u8>
    decreases items, count,
{
    if count == 0 || count > items.len() {
        Seq::empty()
    } else if count == 1 {
        render(items[0])
    } else {
        render_items(items, (count - 1) as nat) + separator() + render(items[count - 1])
    }
}

/// The canonical text of one pair of an object.
pub open spec fn render_pair(key: Seq<u8>, value: Seq<u8>) -> Seq<u8> {
    seq![QUOTE] + key + seq![QUOTE, COLON, SPACE] + value
}

/// The canonical text of the first `count` pairs of an object.
pub open spec fn render_pairs(pairs: Seq<(Seq<u8>, ValueModel)>, count: nat) -> Seq<u8>
    decreases pairs, count,
{
    if count == 0 || count > pairs.len() {
        Seq::empty()
    } else if count == 1 {
        render_pair(pairs[0].0, render(pairs[0].1))
    } else {
        render_pairs(pairs, (count - 1) as nat) + separator() + render_pair(
            pairs[count - 1].0,
            render(pairs[count - 1].1),
        )
    }
}

/// The encoding of two texts in a row is the two encodings in a row.
pub proof fn lemma_encode_concat(a: Seq<char>, b: Seq<char>)
    ensures
        encode_utf8(a + b) == encode_utf8(a) + encode_utf8(b),
    decreases a.len(),
{
    if a.len() == 0 {
        assert(a + b =~= b);
        assert(encode_utf8(a) + encode_utf8(b) =~= encode_utf8(b));
    } else {
        lemma_encode_concat(a.drop_first(), b);
        assert((a + b).drop_first() =~= a.drop_first() + b);
        assert((a + b)[0] == a[0]);
        assert(encode_utf8(a + b) =~= encode_utf8(a) + encode_utf8(b));
    }
}

/// The bytes of the fixed pieces of the canonical text.
proof fn lemma_pieces()
    ensures
        "\"".spec_bytes() == seq![QUOTE],
        "\": ".spec_bytes() == seq![QUOTE, COLON, SPACE],
        ", ".spec_bytes() == separator(),
        "[".spec_bytes() == seq![LEFT_BRACKET],
        "]".spec_bytes() == seq![RIGHT_BRACKET],
        "{".spec_bytes() == seq![LEFT_BRACE],
        "}".spec_bytes() == seq![RIGHT_BRACE],
        "true".spec_bytes() == word_true(),
        "false".spec_bytes() == word_false(),
        "null".spec_bytes() == word_null(),
{
    reveal_strlit("\"");
    reveal_strlit("\": ");
    reveal_strlit(", ");
    reveal_strlit("[");
    reveal_strlit("]");
    reveal_strlit("{");
    reveal_strlit("}");
    reveal_strlit("true");
    reveal_strlit("false");
    reveal_strlit("null");
    is_ascii_spec_bytes("\"");
    is_ascii_spec_bytes("\": ");
    is_ascii_spec_bytes(", ");
    is_ascii_spec_bytes("[");
    is_ascii_spec_bytes("]");
    is_ascii_spec_bytes("{");
    is_ascii_spec_bytes("}");
    is_ascii_spec_bytes("true");
    is_ascii_spec_bytes("false");
    is_ascii_spec_bytes("null");
    assert("\"".spec_bytes() =~= seq![QUOTE]);
    assert("\": ".spec_bytes() =~= seq![QUOTE, COLON, SPACE]);
    assert(", ".spec_bytes() =~= separator());
    assert("[".spec_bytes() =~= seq![LEFT_BRACKET]);
    assert("]".spec_bytes() =~= seq![RIGHT_BRACKET]);
    assert("{".spec_bytes() =~= seq![LEFT_BRACE]);
    assert("}".spec_bytes() =~= seq![RIGHT_BRACE]);
    assert("true".spec_bytes() =~= word_true());
    assert("false".spec_bytes() =~= word_false());
    assert("null".spec_bytes() =~= word_null());
}

/// Appends `piece` to `out`.
fn put(out: &mut String, piece: &str)
    ensures
        encode_utf8(final(out)@) == encode_utf8(old(out)@) + piece.spec_bytes(),
{
    proof {
        lemma_encode_concat(out@, piece@);
    }
    out.append(piece);
}

/// Appends the canonical text of `value` to `out`.
fn put_value<'a>(out: &mut String, value: &Value<'a>)
    ensures
        encode_utf8(final(out)@) == encode_utf8(old(out)@) + render(value@),
    decreases value,
{
    proof {
        lemma_pieces();
    }
    let ghost before = encode_utf8(out@);
    match value {
        Value::Number(text) => {
            put(out, text);
        },
        Value::String(text) => {
            put(out, "\"");
            put(out, text);
            put(out, "\"");
            assert(encode_utf8(out@) =~= before + render(value@));
        },
        Value::Object(pairs) => {
            proof {
                lemma_object_view(*value);
            }
            let ghost model = pairs_view(pairs@);
            put(out, "{");
            let mut i: usize = 0;
            while i < pairs.len()
                invariant
                    0 <= i <= pairs@.len(),
                    model == pairs_view(pairs@),
                    encode_utf8(out@) == before + seq![LEFT_BRACE] + render_pairs(model, i as nat),
                    ", ".spec_bytes() == separator(),
                    "\"".spec_bytes() == seq![QUOTE],
                    "\": ".spec_bytes() == seq![QUOTE, COLON, SPACE],
                    value is Object,
                    value->Object_0 == pairs,
                decreases pairs@.len() - i,
            {
                let ghost so_far = encode_utf8(out@);
                if i > 0 {
                    put(out, ", ");
                }
                put(out, "\"");
                put(out, pairs[i].0);
                put(out, "\": ");
                put_value(out, &pairs[i].1);
                assert(encode_utf8(out@) =~= before + seq![LEFT_BRACE] + render_pairs(
                    model,
                    (i + 1) as nat,
                ));
                i = i + 1;
            }
            put(out, "}");
            assert(encode_utf8(out@) =~= before + render(value@));
        },
        Value::Bool(flag) => {
            if *flag {
                put(out, "true");
            } else {
                put(out, "false");
            }
        },
        Value::Null => {
            put(out, "null");
        },
        Value::Array(items) => {
            proof {
                lemma_array_view(*value);
            }
            let ghost model = values_view(items@);
            put(out, "[");
            let mut i: usize = 0;
            while i < items.len()
                invariant
                    0 <= i <= items@.len(),
                    model == values_view(items@),
                    encode_utf8(out@) == before + seq![LEFT_BRACKET] + render_items(
                        model,
                        i as nat,
                    ),
                    ", ".spec_bytes() == separator(),
                    value is Array,
                    value->Array_0 == items,
                decreases items@.len() - i,
            {
                if i > 0 {
                    put(out, ", ");
                }
                put_value(out, &items[i]);
                assert(encode_utf8(out@) =~= before + seq![LEFT_BRACKET] + render_items(
                    model,
                    (i + 1) as nat,
                ));
                i = i + 1;
            }
            put(out, "]");
            assert(encode_utf8(out@) =~= before + render(value@));
        },
    }
}

impl<'a> Value<'a> {
    /// The canonical text of the value.
    pub fn render(&self) -> (text: String)
        ensures
            encode_utf8(text@) == render(self@),
    {
        let mut text = String::new();
        put_value(&mut text, self);
        assert(encode_utf8(text@) =~= render(self@));
        text
    }
}

impl<'a> Clone for Value<'a> {
    /// A copy of the tree. The texts are the same slices of the input.
    fn clone(&self) -> (copy: Self)
        ensures
            copy@ == self@,
        decreases self,
    {
        match self {
            Value::Number(text) => Value::Number(text),
            Value::String(text) => Value::String(text),
            Value::Object(pairs) => {
                let mut copies: Vec<(&'a str, Value<'a>)> = Vec::new();
                let mut i: usize = 0;
                while i < pairs.len()
                    invariant
                        0 <= i <= pairs@.len(),
                        copies@.len() == i,
                        forall|j: int|
                            0 <= j < i ==> (#[trigger] copies@[j]).0 == pairs@[j].0 && copies@[j].1@
                                == pairs@[j].1@,
                        self is Object,
                        self->Object_0 == pairs,
                    decreases pairs@.len() - i,
                {
                    let copy = pairs[i].1.clone();
                    copies.push((pairs[i].0, copy));
                    i = i + 1;
                }
                let copy = Value::Object(copies);
                proof {
                    lemma_object_view(copy);
                    lemma_object_view(*self);
                    assert(pairs_view(copies@) =~= pairs_view(pairs@));
                }
                copy
            },
            Value::Bool(flag) => Value::Bool(*flag),
            Value::Null => Value::Null,
            Value::Array(items) => {
                let mut copies: Vec<Value<'a>> = Vec::new();
                let mut i: usize = 0;
                while i < items.len()
                    invariant
                        0 <= i <= items@.len(),
                        copies@.len() == i,
                        forall|j: int| 0 <= j < i ==> (#[trigger] copies@[j])@ == items@[j]@,
                        self is Array,
                        self->Array_0 == items,
                    decreases items@.len() - i,
                {
                    let copy = items[i].clone();
                    copies.push(copy);
                    i = i + 1;
                }
                let copy = Value::Array(copies);
                proof {
                    lemma_array_view(copy);
                    lemma_array_view(*self);
                    assert(values_view(copies@) =~= values_view(items@));
                }
                copy
            },
        }
    }
}

} // verus!
