//! What holds of the text encoding as a whole.
//!
//! - What is written can be read back ([`lemma_round_trip`]), in whatever
//!   order it was written ([`lemma_order_independent`]).
//! - What was read can be written and read again ([`lemma_reparse`]).
//! - The count of numbers on a line decides what they are read as
//!   ([`lemma_numeric_arity`]).
//! - Text is never rejected for its encoding ([`lemma_text_keeps_utf8`]).

use crate::class::{
    is_digit, lemma_run_len_bound, lemma_run_len_prefix, lemma_run_len_stop, run_len, ByteClass,
    CARRIAGE_RETURN, CLOSE_BRACKET, MINUS, NEWLINE, OPEN_BRACKET, QUOTE, SPACE,
};
use crate::mapping::{
    distinct_keys, lemma_mapping_domain, lemma_mapping_lookup, lemma_stored, lemma_stored_distinct,
    stored,
};
use crate::model::{
    agreement, entries_at, is_number_body, lemma_number_token_bounds, lemma_value_at_bound,
    mapping_of, number_token, numbers_at, numeric_value, parse, render, render_entry,
    render_number, render_numbers, render_value, sign_len, value_at, word_false, word_true,
    EntryView, Error, NumberView, ValueView,
};
use crate::utf8::{lemma_cut_at_ascii, lemma_skip_ascii};
use vstd::prelude::*;
use vstd::utf8::valid_utf8;

verus! {

/// A key that the encoding can carry: UTF-8 without `]` and without a
/// space.
pub open spec fn valid_key(key: Seq<u8>) -> bool {
    &&& valid_utf8(key)
    &&& forall|i: int| 0 <= i < key.len() ==> ByteClass::Key.has(#[trigger] key[i])
}

/// A number whose digits form a decimal literal.
pub open spec fn valid_number(number: NumberView) -> bool {
    is_number_body(number.digits)
}

/// A number that can open a value: it starts with `-` or with a digit, not
/// with the point.
pub open spec fn leads(number: NumberView) -> bool {
    number.negative || (number.digits.len() > 0 && is_digit(number.digits[0]))
}

/// Every number of the list is valid.
pub open spec fn valid_numbers(numbers: Seq<NumberView>) -> bool {
    forall|i: int| 0 <= i < numbers.len() ==> valid_number(#[trigger] numbers[i])
}

/// A payload that the encoding can carry: text is UTF-8 without `"`,
/// numbers are decimal literals of which the first can open a value, and a
/// sequence has four numbers or more.
pub open spec fn valid_value(value: ValueView) -> bool {
    match value {
        ValueView::String(text) => {
            &&& valid_utf8(text)
            &&& forall|i: int| 0 <= i < text.len() ==> ByteClass::Quoted.has(#[trigger] text[i])
        },
        ValueView::Num(number) => valid_number(number) && leads(number),
        ValueView::Bool(_) => true,
        ValueView::Vec2(x, y) => valid_number(x) && leads(x) && valid_number(y),
        ValueView::Vec3(x, y, z) => valid_number(x) && leads(x) && valid_number(y) && valid_number(
            z,
        ),
        ValueView::Vec(numbers) => numbers.len() >= 4 && valid_numbers(numbers) && leads(
            numbers[0],
        ),
        ValueView::Empty => true,
    }
}

/// Every entry of the list has a valid key and a valid payload.
pub open spec fn valid_entries(entries: Seq<EntryView>) -> bool {
    forall|i: int|
        0 <= i < entries.len() ==> valid_key((#[trigger] entries[i]).0) && valid_value(
            entries[i].1,
        )
}

/// Numbers on one line: one space between them, and one more behind the
/// last if `trailing`.
pub open spec fn number_line(numbers: Seq<NumberView>, trailing: bool) -> Seq<u8>
    decreases numbers.len(),
{
    if numbers.len() == 0 {
        Seq::empty()
    } else if numbers.len() == 1 {
        if trailing {
            render_number(numbers[0]) + seq![SPACE]
        } else {
            render_number(numbers[0])
        }
    } else {
        render_number(numbers[0]) + seq![SPACE] + number_line(numbers.drop_first(), trailing)
    }
}

/// A written number is read back as one token, which ends where the
/// number ends and takes one space behind it along.
proof fn lemma_token(number: NumberView, after: Seq<u8>)
    requires
        valid_number(number),
        after.len() == 0 || !ByteClass::Numeral.has(after[0]),
    ensures
        number_token(render_number(number) + after) == Some(
            (
                number,
                render_number(number).len() + if after.len() > 0 && after[0] == SPACE {
                    1int
                } else {
                    0int
                },
            ),
        ),
{
    let text = render_number(number) + after;
    let sign = sign_len(text);
    assert(number.digits.len() > 0);
    assert(ByteClass::Numeral.has(number.digits[0]));
    if number.negative {
        assert(text[0] == MINUS);
        assert(text.skip(1) =~= number.digits + after);
    } else {
        assert(text[0] == number.digits[0]);
        assert(text.skip(0) =~= number.digits + after);
    }
    lemma_run_len_prefix(number.digits, after, ByteClass::Numeral);
    assert(text.skip(sign).take(number.digits.len() as int) =~= number.digits);
    if after.len() > 0 {
        assert(text[sign + number.digits.len()] == after[0]);
    }
}

/// A written line of numbers is read back as those numbers.
proof fn lemma_number_line(numbers: Seq<NumberView>, trailing: bool, tail: Seq<u8>, offset: int)
    requires
        valid_numbers(numbers),
        tail.len() > 0,
        tail[0] == NEWLINE,
    ensures
        numbers_at(number_line(numbers, trailing) + tail, offset) == Ok::<
            (Seq<NumberView>, int),
            Error,
        >((numbers, number_line(numbers, trailing).len() as int)),
    decreases numbers.len(),
{
    let text = number_line(numbers, trailing) + tail;
    if numbers.len() == 0 {
        assert(text =~= tail);
        assert(numbers =~= Seq::<NumberView>::empty());
    } else {
        let first = numbers[0];
        let written = render_number(first);
        assert(valid_number(first));
        assert(first.digits.len() > 0);
        assert(ByteClass::Numeral.has(first.digits[0]));
        assert(written.len() > 0);
        assert(text[0] == written[0]);
        assert(text[0] != NEWLINE);
        if numbers.len() == 1 {
            let after = if trailing {
                seq![SPACE] + tail
            } else {
                tail
            };
            assert(text =~= written + after);
            lemma_token(first, after);
            let used = written.len() as int + if trailing {
                1int
            } else {
                0int
            };
            assert(text.skip(used) =~= tail);
            assert(numbers_at(tail, offset + used) == Ok::<
                (Seq<NumberView>, int),
                Error,
            >((Seq::empty(), 0)));
            assert(seq![first] + Seq::<NumberView>::empty() =~= numbers);
            assert(number_token(text) == Some((first, used)));
            assert(numbers_at(text, offset) == Ok::<(Seq<NumberView>, int), Error>(
                (numbers, used),
            ));
        } else {
            let more = numbers.drop_first();
            let after = seq![SPACE] + (number_line(more, trailing) + tail);
            assert(text =~= written + after);
            lemma_token(first, after);
            let used = written.len() as int + 1;
            assert(text.skip(used) =~= number_line(more, trailing) + tail);
            assert(valid_numbers(more)) by {
                assert forall|i: int| 0 <= i < more.len() implies valid_number(
                    #[trigger] more[i],
                ) by {
                    assert(more[i] == numbers[i + 1]);
                }
            }
            lemma_number_line(more, trailing, tail, offset + used);
            assert(seq![first] + more =~= numbers);
            assert(number_token(text) == Some((first, used)));
            assert(number_line(numbers, trailing).len() == used + number_line(
                more,
                trailing,
            ).len());
            assert(numbers_at(text, offset) == Ok::<(Seq<NumberView>, int), Error>(
                (numbers, used + number_line(more, trailing).len()),
            ));
        }
    }
}

/// Numbers written each with a space behind it make a line with a
/// trailing space.
proof fn lemma_render_numbers_is_line(numbers: Seq<NumberView>)
    ensures
        render_numbers(numbers) == number_line(numbers, true),
    decreases numbers.len(),
{
    if numbers.len() == 0 {
    } else if numbers.len() == 1 {
        assert(numbers.drop_last() =~= Seq::<NumberView>::empty());
        assert(render_numbers(numbers.drop_last()) =~= Seq::<u8>::empty());
        assert(render_numbers(numbers) =~= number_line(numbers, true));
    } else {
        let front = numbers.drop_last();
        lemma_render_numbers_is_line(front);
        lemma_line_push(front, numbers.last());
        assert(front.push(numbers.last()) =~= numbers);
    }
}

/// A line with a trailing space grows at its end by the next number and a
/// space.
proof fn lemma_line_push(numbers: Seq<NumberView>, next: NumberView)
    ensures
        number_line(numbers.push(next), true) == number_line(numbers, true) + render_number(next)
            + seq![SPACE],
    decreases numbers.len(),
{
    let grown = numbers.push(next);
    if numbers.len() == 0 {
        assert(number_line(grown, true) =~= number_line(numbers, true) + render_number(next)
            + seq![SPACE]);
    } else {
        assert(grown.drop_first() =~= numbers.drop_first().push(next));
        lemma_line_push(numbers.drop_first(), next);
        assert(grown[0] == numbers[0]);
        if numbers.len() == 1 {
            assert(numbers.drop_first() =~= Seq::<NumberView>::empty());
        }
        assert(number_line(grown, true) =~= number_line(numbers, true) + render_number(next)
            + seq![SPACE]);
    }
}

/// The count of numbers on a line decides what they are read as: one
/// number is a `Num`, two a `Vec2`, three a `Vec3`, four or more a `Vec`.
///
/// The line holds `numbers` with one space between them, and one more
/// space behind the last if `trailing`; a line feed ends it. The first
/// number starts with `-` or with a digit, as a value must.
pub proof fn lemma_numeric_arity(
    numbers: Seq<NumberView>,
    trailing: bool,
    tail: Seq<u8>,
    offset: int,
)
    requires
        numbers.len() > 0,
        valid_numbers(numbers),
        leads(numbers[0]),
        tail.len() > 0,
        tail[0] == NEWLINE,
    ensures
        value_at(number_line(numbers, trailing) + tail, offset) == Ok::<
            (ValueView, int),
            Error,
        >((numeric_value(numbers), number_line(numbers, trailing).len() as int)),
        numbers.len() == 1 ==> numeric_value(numbers) == ValueView::Num(numbers[0]),
        numbers.len() == 2 ==> numeric_value(numbers) == ValueView::Vec2(numbers[0], numbers[1]),
        numbers.len() == 3 ==> numeric_value(numbers) == ValueView::Vec3(
            numbers[0],
            numbers[1],
            numbers[2],
        ),
        numbers.len() >= 4 ==> numeric_value(numbers) == ValueView::Vec(numbers),
{
    let line = number_line(numbers, trailing);
    let text = line + tail;
    let first = numbers[0];
    assert(valid_number(first));
    assert(render_number(first).len() > 0);
    assert(line.len() > 0 && line[0] == render_number(first)[0]) by {
        if numbers.len() > 1 {
            assert(line == render_number(first) + seq![SPACE] + number_line(
                numbers.drop_first(),
                trailing,
            ));
        }
    }
    assert(text[0] == line[0]);
    assert(text[0] == MINUS || is_digit(text[0]));
    lemma_number_line(numbers, trailing, tail, offset);
}

/// A written payload is read back as it was, and no byte beyond it is
/// taken. `tail` is what follows the payload; a line feed starts it.
proof fn lemma_value_written(value: ValueView, tail: Seq<u8>, offset: int)
    requires
        valid_value(value),
        tail.len() > 0,
        tail[0] == NEWLINE,
    ensures
        value_at(render_value(value) + tail, offset) == Ok::<(ValueView, int), Error>(
            (value, render_value(value).len() as int),
        ),
{
    let written = render_value(value);
    let text = written + tail;
    match value {
        ValueView::String(inner) => {
            let after = seq![QUOTE] + tail;
            assert(text.skip(1) =~= inner + after);
            lemma_run_len_prefix(inner, after, ByteClass::Quoted);
            assert(text.skip(1).take(inner.len() as int) =~= inner);
            assert(text[0] == QUOTE);
        },
        ValueView::Num(number) => {
            let numbers = seq![number];
            assert(number_line(numbers, false) =~= written);
            lemma_numeric_arity(numbers, false, tail, offset);
        },
        ValueView::Bool(flag) => {
            reveal_with_fuel(agreement, 6);
            if flag {
                assert(text[0] == word_true()[0]);
                assert(text.skip(1)[0] == word_true()[1]);
                assert(text.skip(1).skip(1)[0] == word_true()[2]);
                assert(text.skip(1).skip(1).skip(1)[0] == word_true()[3]);
                assert(agreement(text, word_true()) == 4);
            } else {
                assert(text[0] == word_false()[0]);
                assert(text.skip(1)[0] == word_false()[1]);
                assert(text.skip(1).skip(1)[0] == word_false()[2]);
                assert(text.skip(1).skip(1).skip(1)[0] == word_false()[3]);
                assert(text.skip(1).skip(1).skip(1).skip(1)[0] == word_false()[4]);
                assert(agreement(text, word_false()) == 5);
            }
        },
        ValueView::Vec2(x, y) => {
            let numbers = seq![x, y];
            assert(numbers.drop_first() =~= seq![y]);
            assert(number_line(seq![y], false) == render_number(y));
            assert(number_line(numbers, false) == render_number(x) + seq![SPACE] + number_line(
                seq![y],
                false,
            ));
            assert(number_line(numbers, false) =~= written);
            lemma_numeric_arity(numbers, false, tail, offset);
        },
        ValueView::Vec3(x, y, z) => {
            let numbers = seq![x, y, z];
            assert(numbers.drop_first() =~= seq![y, z]);
            assert(seq![y, z].drop_first() =~= seq![z]);
            assert(number_line(seq![z], false) == render_number(z));
            assert(number_line(seq![y, z], false) == render_number(y) + seq![SPACE] + number_line(
                seq![z],
                false,
            ));
            assert(number_line(numbers, false) == render_number(x) + seq![SPACE] + number_line(
                seq![y, z],
                false,
            ));
            assert(number_line(numbers, false) =~= written);
            lemma_numeric_arity(numbers, false, tail, offset);
        },
        ValueView::Vec(numbers) => {
            lemma_render_numbers_is_line(numbers);
            lemma_numeric_arity(numbers, true, tail, offset);
        },
        ValueView::Empty => {
            assert(text =~= tail);
        },
    }
}

/// A list is written as its first entry and then the others.
proof fn lemma_render_front(first: EntryView, others: Seq<EntryView>)
    ensures
        render(seq![first] + others) == render_entry(first) + render(others),
    decreases others.len(),
{
    let all = seq![first] + others;
    if others.len() == 0 {
        assert(all.drop_last().len() == 0);
        assert(all.last() == first);
        assert(render(all.drop_last()) =~= Seq::<u8>::empty());
        assert(render(others) =~= Seq::<u8>::empty());
        assert(render(all) =~= render_entry(first) + render(others));
    } else {
        assert(all.drop_last() =~= seq![first] + others.drop_last());
        lemma_render_front(first, others.drop_last());
        assert(all.last() == others.last());
        assert(render(all) =~= render_entry(first) + render(others));
    }
}

/// One written entry is read back as it was, and reading goes on behind
/// its line feed. `later` is what follows the entry in the buffer.
proof fn lemma_entry_written(entry: EntryView, later: Seq<u8>, offset: int)
    requires
        valid_key(entry.0),
        valid_value(entry.1),
    ensures
        entries_at(render_entry(entry) + later, offset) == (match entries_at(
            later,
            offset + render_entry(entry).len(),
        ) {
            Ok(others) => Ok::<Seq<EntryView>, Error>(seq![entry] + others),
            Err(e) => Err(e),
        }),
{
    let key = entry.0;
    let value = entry.1;
    let body = render_value(value);
    let tail = seq![NEWLINE] + later;
    let behind = seq![CLOSE_BRACKET, SPACE] + (body + tail);
    let text = render_entry(entry) + later;
    let len = key.len() as int;
    let used = body.len() as int + 1;
    assert(text =~= seq![OPEN_BRACKET] + (key + behind));
    assert(text.skip(1) =~= key + behind);
    assert(run_len(text.skip(1), ByteClass::Key) == len) by {
        lemma_run_len_prefix(key, behind, ByteClass::Key);
    }
    assert(text.skip(1).take(len) =~= key);
    let rest = text.skip(len + 2);
    assert(rest =~= seq![SPACE] + (body + tail));
    assert(value_at(rest, offset + len + 2) == Ok::<(ValueView, int), Error>(
        (value, used),
    )) by {
        assert(rest.skip(1) =~= body + tail);
        lemma_value_written(value, tail, offset + len + 3);
    }
    let next = text.skip(len + 2 + used);
    assert(next =~= tail);
    assert(next.skip(1) =~= later);
    assert(entries_at(next, offset + len + 2 + used) == entries_at(
        later,
        offset + len + 2 + used + 1,
    ));
    assert(render_entry(entry).len() == len + 2 + used + 1);
}

/// Written entries are read back as they were, wherever in a buffer they
/// start.
proof fn lemma_entries_written(entries: Seq<EntryView>, offset: int)
    requires
        valid_entries(entries),
    ensures
        entries_at(render(entries), offset) == Ok::<Seq<EntryView>, Error>(entries),
    decreases entries.len(),
{
    if entries.len() == 0 {
        assert(entries =~= Seq::<EntryView>::empty());
    } else {
        let first = entries[0];
        let others = entries.drop_first();
        assert(seq![first] + others =~= entries);
        lemma_render_front(first, others);
        assert(valid_entries(others)) by {
            assert forall|i: int| 0 <= i < others.len() implies valid_key(
                (#[trigger] others[i]).0,
            ) && valid_value(others[i].1) by {
                assert(others[i] == entries[i + 1]);
            }
        }
        lemma_entry_written(first, render(others), offset);
        lemma_entries_written(others, offset + render_entry(first).len());
    }
}

/// What is written can be read back: a list of valid entries, written and
/// then parsed, gives the same entries in the same order, and so the same
/// mapping.
pub proof fn lemma_round_trip(entries: Seq<EntryView>)
    requires
        valid_entries(entries),
    ensures
        parse(render(entries)) == Ok::<Seq<EntryView>, Error>(entries),
        parse(render(entries)) matches Ok(parsed) && mapping_of(parsed) == mapping_of(entries),
{
    lemma_entries_written(entries, 0);
}

/// Every entry of `some` occurs in `other`.
pub open spec fn included(some: Seq<EntryView>, other: Seq<EntryView>) -> bool {
    forall|i: int| 0 <= i < some.len() ==> other.contains(#[trigger] some[i])
}

/// The order in which entries are written does not matter: two lists of
/// valid entries, each without a repeated key, that hold the same entries
/// parse back to the same mapping.
pub proof fn lemma_order_independent(one: Seq<EntryView>, other: Seq<EntryView>)
    requires
        valid_entries(one),
        valid_entries(other),
        distinct_keys(one),
        distinct_keys(other),
        included(one, other),
        included(other, one),
    ensures
        parse(render(one)) matches Ok(left) && parse(render(other)) matches Ok(right)
            && mapping_of(left) == mapping_of(right),
{
    lemma_round_trip(one);
    lemma_round_trip(other);
    let left = mapping_of(one);
    let right = mapping_of(other);
    assert forall|key: Seq<u8>| #[trigger]
        left.dom().contains(key) implies right.dom().contains(key) && left[key] == right[key] by {
        lemma_mapping_domain(one, key);
        let i = choose|i: int| 0 <= i < one.len() && (#[trigger] one[i]).0 == key;
        lemma_mapping_lookup(one, i);
        assert(other.contains(one[i]));
        let j = choose|j: int| 0 <= j < other.len() && other[j] == one[i];
        lemma_mapping_lookup(other, j);
    }
    assert forall|key: Seq<u8>| #[trigger] right.dom().contains(key) implies left.dom().contains(
        key,
    ) by {
        lemma_mapping_domain(other, key);
        let j = choose|j: int| 0 <= j < other.len() && (#[trigger] other[j]).0 == key;
        assert(one.contains(other[j]));
        let i = choose|i: int| 0 <= i < one.len() && one[i] == other[j];
        lemma_mapping_lookup(one, i);
    }
    assert(left =~= right);
}

/// The numbers read from a line are decimal literals, and where the line
/// starts with `-` or with a digit there is at least one, which starts so.
proof fn lemma_numbers_read_valid(rest: Seq<u8>, offset: int)
    ensures
        numbers_at(rest, offset) matches Ok((numbers, _)) ==> valid_numbers(numbers) && (rest.len()
            > 0 && (rest[0] == MINUS || is_digit(rest[0])) ==> numbers.len() > 0 && leads(
            numbers[0],
        )),
    decreases rest.len(),
{
    if rest.len() == 0 || rest[0] == NEWLINE {
    } else {
        match number_token(rest) {
            None => {},
            Some((number, used)) => {
                lemma_number_token_bounds(rest);
                lemma_numbers_read_valid(rest.skip(used), offset + used);
                match numbers_at(rest.skip(used), offset + used) {
                    Ok((others, _)) => {
                        let numbers = seq![number] + others;
                        assert(valid_numbers(numbers)) by {
                            assert forall|i: int| 0 <= i < numbers.len() implies valid_number(
                                #[trigger] numbers[i],
                            ) by {
                                if i > 0 {
                                    assert(numbers[i] == others[i - 1]);
                                }
                            }
                        }
                        if is_digit(rest[0]) {
                            assert(sign_len(rest) == 0);
                            assert(rest.skip(0) =~= rest);
                            assert(ByteClass::Numeral.has(rest[0]));
                            assert(run_len(rest, ByteClass::Numeral) > 0);
                            lemma_run_len_bound(rest, ByteClass::Numeral);
                            assert(number.digits == rest.take(
                                run_len(rest, ByteClass::Numeral) as int,
                            ));
                            assert(number.digits[0] == rest[0]);
                        }
                    },
                    Err(_) => {},
                }
            },
        }
    }
}

/// A payload that was read is one that the encoding can carry.
proof fn lemma_value_read_valid(rest: Seq<u8>, offset: int)
    ensures
        value_at(rest, offset) matches Ok((value, _)) ==> valid_value(value),
    decreases rest.len(),
{
    if rest.len() == 0 {
    } else if rest[0] == MINUS || is_digit(rest[0]) {
        lemma_numbers_read_valid(rest, offset);
    } else if rest[0] == QUOTE {
        lemma_run_len_stop(rest.skip(1), ByteClass::Quoted);
        lemma_run_len_bound(rest.skip(1), ByteClass::Quoted);
    } else if rest[0] == word_true()[0] {
    } else if rest[0] == word_false()[0] {
    } else if rest[0] == NEWLINE {
    } else if rest[0] == SPACE {
        lemma_value_read_valid(rest.skip(1), offset + 1);
    }
}

/// Entries that were read are entries that the encoding can carry.
proof fn lemma_entries_read_valid(rest: Seq<u8>, offset: int)
    ensures
        entries_at(rest, offset) matches Ok(entries) ==> valid_entries(entries),
    decreases rest.len(),
{
    if rest.len() == 0 {
    } else if rest[0] == OPEN_BRACKET {
        let len = run_len(rest.skip(1), ByteClass::Key) as int;
        let key = rest.skip(1).take(len);
        lemma_run_len_stop(rest.skip(1), ByteClass::Key);
        lemma_run_len_bound(rest.skip(1), ByteClass::Key);
        if 1 + len >= rest.len() || rest[1 + len] != CLOSE_BRACKET {
        } else if !valid_utf8(key) {
        } else {
            match value_at(rest.skip(len + 2), offset + len + 2) {
                Err(_) => {},
                Ok((value, used)) => {
                    lemma_value_at_bound(rest.skip(len + 2), offset + len + 2);
                    lemma_value_read_valid(rest.skip(len + 2), offset + len + 2);
                    lemma_entries_read_valid(
                        rest.skip(len + 2 + used),
                        offset + len + 2 + used,
                    );
                    match entries_at(rest.skip(len + 2 + used), offset + len + 2 + used) {
                        Err(_) => {},
                        Ok(others) => {
                            let entries = seq![(key, value)] + others;
                            assert forall|i: int| 0 <= i < entries.len() implies valid_key(
                                (#[trigger] entries[i]).0,
                            ) && valid_value(entries[i].1) by {
                                if i > 0 {
                                    assert(entries[i] == others[i - 1]);
                                }
                            }
                        },
                    }
                },
            }
        }
    } else if rest[0] == NEWLINE || rest[0] == CARRIAGE_RETURN || rest[0] == SPACE {
        lemma_entries_read_valid(rest.skip(1), offset + 1);
    }
}

/// What was read can be written and read again: the entries of a buffer
/// that parses are valid, and so is what a mapping stores of them. Writing
/// the stored entries and parsing the result gives them back, and with
/// them the mapping of the buffer.
pub proof fn lemma_reparse(text: Seq<u8>)
    ensures
        parse(text) matches Ok(entries) ==> {
            &&& valid_entries(entries)
            &&& parse(render(entries)) == parse(text)
            &&& valid_entries(stored(entries))
            &&& parse(render(stored(entries))) == Ok::<Seq<EntryView>, Error>(stored(entries))
            &&& stored(stored(entries)) == stored(entries)
            &&& mapping_of(stored(entries)) == mapping_of(entries)
        },
{
    lemma_entries_read_valid(text, 0);
    if let Ok(entries) = parse(text) {
        lemma_round_trip(entries);
        lemma_stored(entries);
        let kept = stored(entries);
        assert forall|i: int| 0 <= i < kept.len() implies valid_key((#[trigger] kept[i]).0)
            && valid_value(kept[i].1) by {
            assert(entries.contains(kept[i]));
            let j = choose|j: int| 0 <= j < entries.len() && entries[j] == kept[i];
            assert(valid_key(entries[j].0) && valid_value(entries[j].1));
        }
        lemma_round_trip(kept);
        lemma_stored_distinct(kept);
    }
}

/// The bytes that a line of numbers takes up are ASCII, and a line of
/// numbers is rejected for a malformed number only.
proof fn lemma_numbers_are_ascii(rest: Seq<u8>, offset: int)
    ensures
        numbers_at(rest, offset) matches Ok((_, used)) ==> 0 <= used <= rest.len() && forall|
            i: int,
        | 0 <= i < used ==> #[trigger] rest[i] < 0x80,
        numbers_at(rest, offset) matches Err(e) ==> e is InvalidNumber,
    decreases rest.len(),
{
    if rest.len() == 0 || rest[0] == NEWLINE {
    } else {
        match number_token(rest) {
            None => {},
            Some((number, used)) => {
                lemma_number_token_bounds(rest);
                let sign = sign_len(rest);
                let run = run_len(rest.skip(sign), ByteClass::Numeral) as int;
                lemma_run_len_stop(rest.skip(sign), ByteClass::Numeral);
                lemma_run_len_bound(rest.skip(sign), ByteClass::Numeral);
                assert forall|i: int| 0 <= i < used implies #[trigger] rest[i] < 0x80 by {
                    if sign <= i < sign + run {
                        assert(rest[i] == rest.skip(sign)[i - sign]);
                        assert(ByteClass::Numeral.has(rest.skip(sign)[i - sign]));
                    }
                }
                lemma_numbers_are_ascii(rest.skip(used), offset + used);
                match numbers_at(rest.skip(used), offset + used) {
                    Ok((_, more)) => {
                        assert forall|i: int| 0 <= i < used + more implies #[trigger] rest[i]
                            < 0x80 by {
                            if i >= used {
                                assert(rest[i] == rest.skip(used)[i - used]);
                            }
                        }
                    },
                    Err(_) => {},
                }
            },
        }
    }
}

/// Where `rest` starts with all of `word`, it holds the bytes of `word`.
proof fn lemma_agreement_whole(rest: Seq<u8>, word: Seq<u8>)
    requires
        agreement(rest, word) == word.len(),
    ensures
        word.len() <= rest.len(),
        forall|i: int| 0 <= i < word.len() ==> #[trigger] rest[i] == word[i],
    decreases word.len(),
{
    if word.len() > 0 {
        lemma_agreement_whole(rest.skip(1), word.skip(1));
        assert forall|i: int| 0 <= i < word.len() implies #[trigger] rest[i] == word[i] by {
            if i > 0 {
                assert(rest[i] == rest.skip(1)[i - 1]);
                assert(word[i] == word.skip(1)[i - 1]);
            }
        }
    }
}

/// In UTF-8, a value is never rejected for its encoding, and what is left
/// behind a value is UTF-8.
proof fn lemma_value_keeps_utf8(rest: Seq<u8>, offset: int)
    requires
        valid_utf8(rest),
    ensures
        match value_at(rest, offset) {
            Ok((_, used)) => 0 <= used <= rest.len() && valid_utf8(rest.skip(used)),
            Err(e) => !(e is InvalidUtf8),
        },
    decreases rest.len(),
{
    if rest.len() == 0 {
    } else if rest[0] == MINUS || is_digit(rest[0]) {
        lemma_numbers_are_ascii(rest, offset);
        if let Ok((_, used)) = numbers_at(rest, offset) {
            lemma_skip_ascii(rest, used);
        }
    } else if rest[0] == QUOTE {
        let inner = rest.skip(1);
        let len = run_len(inner, ByteClass::Quoted) as int;
        lemma_skip_ascii(rest, 1);
        lemma_run_len_stop(inner, ByteClass::Quoted);
        lemma_run_len_bound(inner, ByteClass::Quoted);
        if 1 + len < rest.len() {
            assert(inner[len] == QUOTE);
            lemma_cut_at_ascii(inner, len);
            assert(inner.skip(len + 1) =~= rest.skip(len + 2));
        }
    } else if rest[0] == word_true()[0] {
        if agreement(rest, word_true()) == word_true().len() {
            lemma_agreement_whole(rest, word_true());
            lemma_skip_ascii(rest, 4);
        }
    } else if rest[0] == word_false()[0] {
        if agreement(rest, word_false()) == word_false().len() {
            lemma_agreement_whole(rest, word_false());
            lemma_skip_ascii(rest, 5);
        }
    } else if rest[0] == NEWLINE {
        assert(rest.skip(0) =~= rest);
    } else if rest[0] == SPACE {
        lemma_skip_ascii(rest, 1);
        lemma_value_keeps_utf8(rest.skip(1), offset + 1);
        if let Ok((_, used)) = value_at(rest.skip(1), offset + 1) {
            assert(rest.skip(1).skip(used) =~= rest.skip(used + 1));
        }
    }
}

/// In UTF-8, no entry is rejected for its encoding.
proof fn lemma_entries_keep_utf8(rest: Seq<u8>, offset: int)
    requires
        valid_utf8(rest),
    ensures
        entries_at(rest, offset) matches Err(e) ==> !(e is InvalidUtf8),
    decreases rest.len(),
{
    if rest.len() == 0 {
    } else if rest[0] == OPEN_BRACKET {
        let inner = rest.skip(1);
        let len = run_len(inner, ByteClass::Key) as int;
        lemma_skip_ascii(rest, 1);
        lemma_run_len_stop(inner, ByteClass::Key);
        lemma_run_len_bound(inner, ByteClass::Key);
        if 1 + len >= rest.len() || rest[1 + len] != CLOSE_BRACKET {
        } else {
            assert(inner[len] == CLOSE_BRACKET);
            lemma_cut_at_ascii(inner, len);
            assert(inner.skip(len + 1) =~= rest.skip(len + 2));
            let behind = rest.skip(len + 2);
            lemma_value_keeps_utf8(behind, offset + len + 2);
            if let Ok((_, used)) = value_at(behind, offset + len + 2) {
                assert(behind.skip(used) =~= rest.skip(len + 2 + used));
                lemma_entries_keep_utf8(rest.skip(len + 2 + used), offset + len + 2 + used);
            }
        }
    } else if rest[0] == NEWLINE || rest[0] == CARRIAGE_RETURN || rest[0] == SPACE {
        lemma_skip_ascii(rest, 1);
        lemma_entries_keep_utf8(rest.skip(1), offset + 1);
    }
}

/// A buffer that is UTF-8 as a whole is never rejected for the encoding of
/// a key or of a string: the brackets and quotes that bound them cut UTF-8
/// into UTF-8.
pub proof fn lemma_text_keeps_utf8(text: Seq<u8>)
    requires
        valid_utf8(text),
    ensures
        parse(text) matches Err(e) ==> !(e is InvalidUtf8),
{
    lemma_entries_keep_utf8(text, 0);
}

} // verus!
