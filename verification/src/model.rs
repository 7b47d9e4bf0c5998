//! The text encoding as mathematics: what a buffer of bytes means, and
//! what bytes a list of entries is written as.
//!
//! Everything here is specification. The parser and the serializer are
//! proved against these functions, and the laws of the format are stated
//! over them.

use crate::class::{
    is_digit, lemma_run_len_bound, run_len, ByteClass, CARRIAGE_RETURN, CLOSE_BRACKET, DOT, MINUS,
    NEWLINE, OPEN_BRACKET, QUOTE, SPACE,
};
use vstd::prelude::*;
use vstd::utf8::valid_utf8;

verus! {

/// Why a text buffer was rejected. Each variant carries a byte offset into
/// the buffer.
#[derive(Debug, Clone, Copy, PartialEq, Eq)]
pub enum Error {
    /// A byte that the grammar does not allow where it stands; the offset is
    /// that of the byte.
    InvalidCharacter(usize),
    /// A key without its `]`, a string without its closing quote, or the end
    /// of the input where a value was due. The offset is that of the byte at
    /// which the scan stopped (the length of the input if it ran out).
    UnfinishedKey(usize),
    /// Kept for callers that tell unclosed strings from unclosed keys; the
    /// parser reports both as [`Error::UnfinishedKey`].
    UnfinishedStr(usize),
    /// A numeric token that is not a decimal literal; the offset is that of
    /// the token's first byte.
    InvalidNumber(usize),
    /// A value that starts like `true` or `false` and then departs from it;
    /// the offset is that of the first byte that departs.
    InvalidKeyword(usize),
    /// A key or a string that is not UTF-8; the offset is that of its first
    /// byte.
    InvalidUtf8(usize),
}

/// A decimal number as it is written: a sign and the digits behind it.
pub struct NumberView {
    pub negative: bool,
    pub digits: Seq<u8>,
}

/// The payload of one entry.
pub enum ValueView {
    /// The bytes between the quotes.
    String(Seq<u8>),
    Num(NumberView),
    Bool(bool),
    Vec2(NumberView, NumberView),
    Vec3(NumberView, NumberView, NumberView),
    /// Four numbers or more.
    Vec(Seq<NumberView>),
    /// A key with nothing behind it.
    Empty,
}

/// One key with its payload.
pub type EntryView = (Seq<u8>, ValueView);

/// How often `byte` occurs in `bytes`.
pub open spec fn count(bytes: Seq<u8>, byte: u8) -> nat
    decreases bytes.len(),
{
    if bytes.len() == 0 {
        0
    } else {
        count(bytes.drop_last(), byte) + if bytes.last() == byte {
            1nat
        } else {
            0nat
        }
    }
}

/// The digits of a decimal literal: ASCII digits with at most one `.`
/// among them, and at least one digit.
pub open spec fn is_number_body(digits: Seq<u8>) -> bool {
    &&& forall|i: int| 0 <= i < digits.len() ==> ByteClass::Numeral.has(#[trigger] digits[i])
    &&& count(digits, DOT) <= 1
    &&& count(digits, DOT) < digits.len()
}

/// 1 if `rest` starts with `-`, else 0.
pub open spec fn sign_len(rest: Seq<u8>) -> int {
    if rest.len() > 0 && rest[0] == MINUS {
        1
    } else {
        0
    }
}

/// The numeric token at the head of `rest`: an optional `-`, then digits
/// and dots for as long as they last. The token must be a decimal literal.
/// Returns the number and the count of bytes it takes up, one space behind
/// it included if there is one; `None` if the token is malformed.
pub open spec fn number_token(rest: Seq<u8>) -> Option<(NumberView, int)> {
    let sign = sign_len(rest);
    let digits = rest.skip(sign).take(run_len(rest.skip(sign), ByteClass::Numeral) as int);
    let end = sign + digits.len();
    if is_number_body(digits) {
        let gap: int = if end < rest.len() && rest[end] == SPACE {
            1
        } else {
            0
        };
        Some((NumberView { negative: sign == 1, digits }, end + gap))
    } else {
        None
    }
}

/// A well-formed token takes up at least one byte and no more than there are.
pub proof fn lemma_number_token_bounds(rest: Seq<u8>)
    ensures
        number_token(rest) matches Some((_, used)) ==> 0 < used <= rest.len(),
{
    let sign = sign_len(rest);
    lemma_run_len_bound(rest.skip(sign), ByteClass::Numeral);
}

/// The numeric tokens from the head of `rest` up to the end of the line (or
/// of the input), with the count of bytes they take up. `offset` is where
/// `rest` starts in the buffer.
pub open spec fn numbers_at(rest: Seq<u8>, offset: int) -> Result<(Seq<NumberView>, int), Error>
    decreases rest.len(),
{
    if rest.len() == 0 || rest[0] == NEWLINE {
        Ok((Seq::empty(), 0))
    } else {
        match number_token(rest) {
            None => Err(Error::InvalidNumber(offset as usize)),
            Some((number, used)) => {
                proof {
                    lemma_number_token_bounds(rest);
                }
                match numbers_at(rest.skip(used), offset + used) {
                    Err(e) => Err(e),
                    Ok((numbers, more)) => Ok((seq![number] + numbers, used + more)),
                }
            },
        }
    }
}

/// The payload that a line of numbers stands for, by their count.
pub open spec fn numeric_value(numbers: Seq<NumberView>) -> ValueView {
    if numbers.len() == 1 {
        ValueView::Num(numbers[0])
    } else if numbers.len() == 2 {
        ValueView::Vec2(numbers[0], numbers[1])
    } else if numbers.len() == 3 {
        ValueView::Vec3(numbers[0], numbers[1], numbers[2])
    } else {
        ValueView::Vec(numbers)
    }
}

/// The bytes of `true`.
pub open spec fn word_true() -> Seq<u8> {
    seq![0x74u8, 0x72u8, 0x75u8, 0x65u8]
}

/// The bytes of `false`.
pub open spec fn word_false() -> Seq<u8> {
    seq![0x66u8, 0x61u8, 0x6Cu8, 0x73u8, 0x65u8]
}

/// How many leading bytes of `rest` agree with `word`.
pub open spec fn agreement(rest: Seq<u8>, word: Seq<u8>) -> nat
    decreases word.len(),
{
    if word.len() > 0 && rest.len() > 0 && rest[0] == word[0] {
        1 + agreement(rest.skip(1), word.skip(1))
    } else {
        0
    }
}

/// The value at the head of `rest`, with the count of bytes it takes up.
/// `offset` is where `rest` starts in the buffer.
pub open spec fn value_at(rest: Seq<u8>, offset: int) -> Result<(ValueView, int), Error>
    decreases rest.len(),
{
    if rest.len() == 0 {
        Err(Error::UnfinishedKey(offset as usize))
    } else if rest[0] == MINUS || is_digit(rest[0]) {
        match numbers_at(rest, offset) {
            Err(e) => Err(e),
            Ok((numbers, used)) => Ok((numeric_value(numbers), used)),
        }
    } else if rest[0] == QUOTE {
        let len = run_len(rest.skip(1), ByteClass::Quoted) as int;
        let text = rest.skip(1).take(len);
        if 1 + len >= rest.len() {
            Err(Error::UnfinishedKey((offset + rest.len()) as usize))
        } else if !valid_utf8(text) {
            Err(Error::InvalidUtf8((offset + 1) as usize))
        } else {
            Ok((ValueView::String(text), len + 2))
        }
    } else if rest[0] == word_true()[0] {
        let same = agreement(rest, word_true()) as int;
        if same == word_true().len() {
            Ok((ValueView::Bool(true), same))
        } else {
            Err(Error::InvalidKeyword((offset + same) as usize))
        }
    } else if rest[0] == word_false()[0] {
        let same = agreement(rest, word_false()) as int;
        if same == word_false().len() {
            Ok((ValueView::Bool(false), same))
        } else {
            Err(Error::InvalidKeyword((offset + same) as usize))
        }
    } else if rest[0] == NEWLINE {
        Ok((ValueView::Empty, 0))
    } else if rest[0] == SPACE {
        match value_at(rest.skip(1), offset + 1) {
            Err(e) => Err(e),
            Ok((value, used)) => Ok((value, used + 1)),
        }
    } else {
        Err(Error::InvalidCharacter(offset as usize))
    }
}

/// A value never takes up more bytes than there are.
pub proof fn lemma_numbers_at_bound(rest: Seq<u8>, offset: int)
    ensures
        numbers_at(rest, offset) matches Ok((_, used)) ==> 0 <= used <= rest.len(),
    decreases rest.len(),
{
    if rest.len() == 0 || rest[0] == NEWLINE {
    } else {
        match number_token(rest) {
            None => {},
            Some((number, used)) => {
                lemma_number_token_bounds(rest);
                lemma_numbers_at_bound(rest.skip(used), offset + used);
            },
        }
    }
}

/// A value never takes up more bytes than there are.
pub proof fn lemma_value_at_bound(rest: Seq<u8>, offset: int)
    ensures
        value_at(rest, offset) matches Ok((_, used)) ==> 0 <= used <= rest.len(),
    decreases rest.len(),
{
    if rest.len() == 0 {
    } else if rest[0] == MINUS || is_digit(rest[0]) {
        lemma_numbers_at_bound(rest, offset);
    } else if rest[0] == QUOTE {
    } else if rest[0] == word_true()[0] {
        lemma_agreement_bound(rest, word_true());
    } else if rest[0] == word_false()[0] {
        lemma_agreement_bound(rest, word_false());
    } else if rest[0] == NEWLINE {
    } else if rest[0] == SPACE {
        lemma_value_at_bound(rest.skip(1), offset + 1);
    }
}

/// Agreement is bounded by both sequences.
pub proof fn lemma_agreement_bound(rest: Seq<u8>, word: Seq<u8>)
    ensures
        agreement(rest, word) <= rest.len(),
        agreement(rest, word) <= word.len(),
    decreases word.len(),
{
    if word.len() > 0 && rest.len() > 0 && rest[0] == word[0] {
        lemma_agreement_bound(rest.skip(1), word.skip(1));
    }
}

/// The entries from the head of `rest` to the end of the input, in the
/// order in which they stand. `offset` is where `rest` starts in the
/// buffer.
pub open spec fn entries_at(rest: Seq<u8>, offset: int) -> Result<Seq<EntryView>, Error>
    decreases rest.len(),
{
    if rest.len() == 0 {
        Ok(Seq::empty())
    } else if rest[0] == OPEN_BRACKET {
        let len = run_len(rest.skip(1), ByteClass::Key) as int;
        let key = rest.skip(1).take(len);
        if 1 + len >= rest.len() || rest[1 + len] != CLOSE_BRACKET {
            Err(Error::UnfinishedKey((offset + 1 + len) as usize))
        } else if !valid_utf8(key) {
            Err(Error::InvalidUtf8((offset + 1) as usize))
        } else {
            match value_at(rest.skip(len + 2), offset + len + 2) {
                Err(e) => Err(e),
                Ok((value, used)) => {
                    proof {
                        lemma_value_at_bound(rest.skip(len + 2), offset + len + 2);
                    }
                    match entries_at(rest.skip(len + 2 + used), offset + len + 2 + used) {
                        Err(e) => Err(e),
                        Ok(entries) => Ok(seq![(key, value)] + entries),
                    }
                },
            }
        }
    } else if rest[0] == NEWLINE || rest[0] == CARRIAGE_RETURN || rest[0] == SPACE {
        entries_at(rest.skip(1), offset + 1)
    } else {
        Err(Error::InvalidCharacter(offset as usize))
    }
}

/// What a whole text buffer means: its entries in source order, or the
/// first error.
pub open spec fn parse(text: Seq<u8>) -> Result<Seq<EntryView>, Error> {
    entries_at(text, 0)
}

/// The mapping that a list of entries amounts to: where a key occurs more
/// than once, the last occurrence counts.
pub open spec fn mapping_of(entries: Seq<EntryView>) -> Map<Seq<u8>, ValueView>
    decreases entries.len(),
{
    if entries.len() == 0 {
        Map::empty()
    } else {
        mapping_of(entries.drop_last()).insert(entries.last().0, entries.last().1)
    }
}

/// A number as it is written: `-` if it is negative, then its digits.
pub open spec fn render_number(number: NumberView) -> Seq<u8> {
    if number.negative {
        seq![MINUS] + number.digits
    } else {
        number.digits
    }
}

/// A sequence of numbers as it is written: each followed by one space.
pub open spec fn render_numbers(numbers: Seq<NumberView>) -> Seq<u8>
    decreases numbers.len(),
{
    if numbers.len() == 0 {
        Seq::empty()
    } else {
        render_numbers(numbers.drop_last()) + render_number(numbers.last()) + seq![SPACE]
    }
}

/// A payload as it is written behind its key.
pub open spec fn render_value(value: ValueView) -> Seq<u8> {
    match value {
        ValueView::String(text) => seq![QUOTE] + text + seq![QUOTE],
        ValueView::Num(number) => render_number(number),
        ValueView::Bool(flag) => if flag {
            word_true()
        } else {
            word_false()
        },
        ValueView::Vec2(x, y) => render_number(x) + seq![SPACE] + render_number(y),
        ValueView::Vec3(x, y, z) => render_number(x) + seq![SPACE] + render_number(y) + seq![SPACE]
            + render_number(z),
        ValueView::Vec(numbers) => render_numbers(numbers),
        ValueView::Empty => Seq::empty(),
    }
}

/// One entry as it is written: `[key] value` and a line feed.
pub open spec fn render_entry(entry: EntryView) -> Seq<u8> {
    seq![OPEN_BRACKET] + entry.0 + seq![CLOSE_BRACKET, SPACE] + render_value(entry.1)
        + seq![NEWLINE]
}

/// A list of entries as it is written: one line each, in order.
pub open spec fn render(entries: Seq<EntryView>) -> Seq<u8>
    decreases entries.len(),
{
    if entries.len() == 0 {
        Seq::empty()
    } else {
        render(entries.drop_last()) + render_entry(entries.last())
    }
}

} // verus!
