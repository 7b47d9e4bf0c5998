//! The serializer of the text encoding.

use crate::class::{CLOSE_BRACKET, MINUS, NEWLINE, OPEN_BRACKET, QUOTE, SPACE};
use crate::mapping::{entry_view, entry_views, Mapping};
use crate::model::{
    render, render_entry, render_number, render_numbers, render_value, word_false, word_true,
    NumberView,
};
use crate::utf8::lemma_encode_concat;
use crate::value::{number_views, Number, Value};
use vstd::prelude::*;
use vstd::string::*;
use vstd::utf8::{encode_utf8, is_ascii_chars_encode_utf8};

verus! {

/// Appends `text` to `out`.
fn put(out: &mut String, text: &str)
    ensures
        encode_utf8(final(out)@) == encode_utf8(old(out)@) + text.spec_bytes(),
{
    proof {
        lemma_encode_concat(out@, text@);
    }
    out.append(text);
}

/// Appends a number as it is written.
fn put_number(out: &mut String, number: &Number<'_>)
    ensures
        encode_utf8(final(out)@) == encode_utf8(old(out)@) + render_number(number@),
{
    if number.is_negative() {
        proof {
            reveal_strlit("-");
            is_ascii_chars_encode_utf8("-"@);
            assert("-".spec_bytes() =~= seq![MINUS]);
        }
        put(out, "-");
    }
    put(out, number.digits());
    assert(encode_utf8(out@) =~= encode_utf8(old(out)@) + render_number(number@));
}

/// Appends one space.
fn put_space(out: &mut String)
    ensures
        encode_utf8(final(out)@) == encode_utf8(old(out)@) + seq![SPACE],
{
    proof {
        reveal_strlit(" ");
        is_ascii_chars_encode_utf8(" "@);
        assert(" ".spec_bytes() =~= seq![SPACE]);
    }
    put(out, " ");
}

/// Appends a payload as it is written behind its key.
fn put_value(out: &mut String, value: &Value<'_>)
    ensures
        encode_utf8(final(out)@) == encode_utf8(old(out)@) + render_value(value@),
{
    match value {
        Value::String(text) => {
            proof {
                reveal_strlit("\"");
                is_ascii_chars_encode_utf8("\""@);
                assert("\"".spec_bytes() =~= seq![QUOTE]);
            }
            put(out, "\"");
            put(out, text);
            put(out, "\"");
            assert(encode_utf8(out@) =~= encode_utf8(old(out)@) + render_value(value@));
        },
        Value::Num(number) => {
            put_number(out, number);
        },
        Value::Bool(flag) => {
            if *flag {
                proof {
                    reveal_strlit("true");
                    is_ascii_chars_encode_utf8("true"@);
                    assert("true".spec_bytes() =~= word_true());
                }
                put(out, "true");
            } else {
                proof {
                    reveal_strlit("false");
                    is_ascii_chars_encode_utf8("false"@);
                    assert("false".spec_bytes() =~= word_false());
                }
                put(out, "false");
            }
        },
        Value::Vec2(pair) => {
            put_number(out, &pair.x);
            put_space(out);
            put_number(out, &pair.y);
            assert(encode_utf8(out@) =~= encode_utf8(old(out)@) + render_value(value@));
        },
        Value::Vec3(triple) => {
            put_number(out, &triple.x);
            put_space(out);
            put_number(out, &triple.y);
            put_space(out);
            put_number(out, &triple.z);
            assert(encode_utf8(out@) =~= encode_utf8(old(out)@) + render_value(value@));
        },
        Value::Vec(numbers) => {
            let mut i: usize = 0;
            assert(number_views(numbers@).take(0) =~= Seq::<NumberView>::empty());
            assert(encode_utf8(out@) =~= encode_utf8(old(out)@) + render_numbers(
                number_views(numbers@).take(0),
            ));
            while i < numbers.len()
                invariant
                    i <= numbers@.len(),
                    encode_utf8(out@) == encode_utf8(old(out)@) + render_numbers(
                        number_views(numbers@).take(i as int),
                    ),
                decreases numbers.len() - i,
            {
                let ghost before = encode_utf8(out@);
                put_number(out, &numbers[i]);
                put_space(out);
                proof {
                    let views = number_views(numbers@);
                    assert(views.take(i + 1).drop_last() =~= views.take(i as int));
                    assert(views.take(i + 1).last() == numbers@[i as int]@);
                    assert(encode_utf8(out@) =~= encode_utf8(old(out)@) + render_numbers(
                        views.take(i + 1),
                    ));
                }
                i = i + 1;
            }
            assert(number_views(numbers@).take(i as int) =~= number_views(numbers@));
        },
        Value::Empty => {
            assert(encode_utf8(out@) =~= encode_utf8(old(out)@) + render_value(value@));
        },
    }
}

/// Writes a list of entries in the text encoding: for each entry, in order,
/// `[key] value` and a line feed.
///
/// A string is written between double quotes, a number as its literal, a
/// flag as `true` or `false`, a pair or a triple with one space between
/// its numbers, a longer sequence with one space behind each number, and
/// an empty value as nothing.
pub fn slice_to_string(keys: &[(&str, Value)]) -> (string: String)
    ensures
        encode_utf8(string@) == render(entry_views(keys@)),
{
    let mut string = String::new();
    let mut i: usize = 0;
    assert(entry_views(keys@).take(0) =~= Seq::empty());
    assert(encode_utf8(string@) =~= Seq::<u8>::empty());
    while i < keys.len()
        invariant
            i <= keys@.len(),
            encode_utf8(string@) == render(entry_views(keys@).take(i as int)),
        decreases keys.len() - i,
    {
        let ghost before = encode_utf8(string@);
        proof {
            reveal_strlit("[");
            is_ascii_chars_encode_utf8("["@);
            assert("[".spec_bytes() =~= seq![OPEN_BRACKET]);
            reveal_strlit("] ");
            is_ascii_chars_encode_utf8("] "@);
            assert("] ".spec_bytes() =~= seq![CLOSE_BRACKET, SPACE]);
            reveal_strlit("\n");
            is_ascii_chars_encode_utf8("\n"@);
            assert("\n".spec_bytes() =~= seq![NEWLINE]);
        }
        put(&mut string, "[");
        put(&mut string, keys[i].0);
        put(&mut string, "] ");
        put_value(&mut string, &keys[i].1);
        put(&mut string, "\n");
        proof {
            let views = entry_views(keys@);
            assert(views.take(i + 1).drop_last() =~= views.take(i as int));
            assert(views.take(i + 1).last() == entry_view(keys@[i as int]));
            assert(encode_utf8(string@) =~= before + render_entry(entry_view(keys@[i as int])));
        }
        i = i + 1;
    }
    assert(entry_views(keys@).take(i as int) =~= entry_views(keys@));
    string
}

/// Writes a mapping in the text encoding, its entries in the order in
/// which their keys were first inserted.
pub fn hashmap_to_string(keys: Mapping) -> (string: String)
    ensures
        encode_utf8(string@) == render(keys.entries_view()),
{
    slice_to_string(keys.entries())
}

} // verus!
