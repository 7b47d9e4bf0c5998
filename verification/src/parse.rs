//! The parser of the text encoding.

use crate::class::{
    lemma_run_len_bound, lemma_run_len_stop, run_len, ByteClass, CARRIAGE_RETURN, CLOSE_BRACKET,
    DIGIT_0, DIGIT_9, MINUS, NEWLINE, OPEN_BRACKET, QUOTE, SPACE,
};
use crate::cursor::{advanced, next, next_if, offset, open, peek, position, rest, take_while};
use crate::laws::lemma_text_keeps_utf8;
use crate::mapping::{stored, Mapping};
use crate::model::{
    agreement, entries_at, lemma_number_token_bounds, lemma_numbers_at_bound, lemma_value_at_bound,
    mapping_of, number_token, numbers_at, numeric_value, parse, sign_len, value_at, EntryView,
    Error, NumberView,
};
use crate::utf8::{is_ascii_bytes, lemma_ascii_is_utf8};
use crate::value::{number_views, Number, Value, Vec2, Vec3};
use sti::reader::Reader;
use vstd::prelude::*;
use vstd::string::*;
use vstd::utf8::encode_utf8_valid_utf8;

verus! {

/// Consumes one byte of a keyword, which must be `byte`.
fn expect(reader: &mut Reader<'_, u8>, byte: u8) -> (r: Result<(), Error>)
    ensures
        match r {
            Ok(_) => rest(*old(reader)).len() > 0 && rest(*old(reader))[0] == byte && advanced(
                *old(reader),
                *final(reader),
                1,
            ),
            Err(e) => !(rest(*old(reader)).len() > 0 && rest(*old(reader))[0] == byte) && e
                == Error::InvalidKeyword(position(*old(reader)) as usize),
        },
{
    let at = offset(reader);
    match next(reader) {
        Some(found) => {
            if found == byte {
                Ok(())
            } else {
                Err(Error::InvalidKeyword(at))
            }
        },
        None => Err(Error::InvalidKeyword(at)),
    }
}

/// Reads one numeric token and the space behind it, if there is one.
fn number<'a>(reader: &mut Reader<'a, u8>) -> (r: Result<Number<'a>, Error>)
    ensures
        match number_token(rest(*old(reader))) {
            Some((number, used)) => r is Ok && r->Ok_0@ == number && advanced(
                *old(reader),
                *final(reader),
                used as nat,
            ),
            None => r is Err && r->Err_0 == Error::InvalidNumber(position(*old(reader)) as usize),
        },
{
    let ghost start = rest(*reader);
    let at = offset(reader);
    let negative = match peek(reader) {
        Some(byte) => byte == MINUS,
        None => false,
    };
    if negative {
        let _ = next(reader);
    }
    let ghost sign = sign_len(start);
    assert(rest(*reader) =~= start.skip(sign));
    let (digits, _) = take_while(reader, ByteClass::Numeral);
    proof {
        lemma_run_len_stop(start.skip(sign), ByteClass::Numeral);
        lemma_run_len_bound(start.skip(sign), ByteClass::Numeral);
        assert(is_ascii_bytes(digits@)) by {
            assert forall|i: int| 0 <= i < digits@.len() implies #[trigger] digits@[i] < 0x80 by {
                assert(ByteClass::Numeral.has(start.skip(sign)[i]));
            }
        }
        lemma_ascii_is_utf8(digits@);
    }
    // Digits and points are ASCII, so the conversion cannot fail.
    let text = match str::from_utf8(digits) {
        Ok(text) => text,
        Err(_) => {
            return Err(Error::InvalidNumber(at));
        },
    };
    match Number::new(negative, text) {
        Some(number) => {
            let _ = next_if(reader, ByteClass::Space);
            assert(rest(*reader) =~= start.skip(number_token(start)->Some_0.1));
            Ok(number)
        },
        None => Err(Error::InvalidNumber(at)),
    }
}

/// Reads numeric tokens up to the end of the line.
fn numbers<'a>(reader: &mut Reader<'a, u8>) -> (r: Result<Vec<Number<'a>>, Error>)
    ensures
        match numbers_at(rest(*old(reader)), position(*old(reader)) as int) {
            Ok((found, used)) => r is Ok && number_views(r->Ok_0@) == found && advanced(
                *old(reader),
                *final(reader),
                used as nat,
            ),
            Err(e) => r is Err && r->Err_0 == e,
        },
{
    let mut found: Vec<Number<'a>> = Vec::new();
    assert(rest(*reader) =~= rest(*old(reader)).skip(0));
    loop
        invariant
            position(*reader) >= position(*old(reader)),
            advanced(
                *old(reader),
                *reader,
                (position(*reader) - position(*old(reader))) as nat,
            ),
            numbers_at(rest(*old(reader)), position(*old(reader)) as int) == (match numbers_at(
                rest(*reader),
                position(*reader) as int,
            ) {
                Ok((tail, more)) => Ok(
                    (
                        number_views(found@) + tail,
                        position(*reader) - position(*old(reader)) + more,
                    ),
                ),
                Err(e) => Err(e),
            }),
        decreases rest(*reader).len(),
    {
        let at_end = match peek(reader) {
            Some(byte) => byte == NEWLINE,
            None => true,
        };
        if at_end {
            assert(number_views(found@) + Seq::<NumberView>::empty() =~= number_views(found@));
            return Ok(found);
        }
        let ghost before = rest(*reader);
        let ghost views = number_views(found@);
        proof {
            lemma_number_token_bounds(before);
        }
        match number(reader) {
            Ok(number) => {
                found.push(number);
                proof {
                    assert(number_views(found@) =~= views + seq![number@]);
                    assert(rest(*reader) =~= rest(*old(reader)).skip(
                        position(*reader) - position(*old(reader)),
                    ));
                    match numbers_at(rest(*reader), position(*reader) as int) {
                        Ok((tail, more)) => {
                            assert(views + (seq![number@] + tail) =~= number_views(found@) + tail);
                        },
                        Err(_) => {},
                    }
                }
            },
            Err(e) => {
                return Err(e);
            },
        }
    }
}

/// Builds the value that a line of numbers stands for.
fn from_numbers<'a>(found: Vec<Number<'a>>) -> (value: Value<'a>)
    requires
        found@.len() > 0,
    ensures
        value@ == numeric_value(number_views(found@)),
{
    if found.len() == 1 {
        Value::Num(found[0])
    } else if found.len() == 2 {
        Value::Vec2(Vec2 { x: found[0], y: found[1] })
    } else if found.len() == 3 {
        Value::Vec3(Vec3 { x: found[0], y: found[1], z: found[2] })
    } else {
        Value::Vec(found)
    }
}

/// Reads the value behind a key.
fn value<'a>(reader: &mut Reader<'a, u8>) -> (r: Result<Value<'a>, Error>)
    ensures
        match value_at(rest(*old(reader)), position(*old(reader)) as int) {
            Ok((value, used)) => r is Ok && r->Ok_0@ == value && advanced(
                *old(reader),
                *final(reader),
                used as nat,
            ),
            Err(e) => r is Err && r->Err_0 == e,
        },
    decreases rest(*old(reader)).len(),
{
    let ghost start = rest(*reader);
    let at = offset(reader);
    let byte = match peek(reader) {
        Some(byte) => byte,
        None => {
            return Err(Error::UnfinishedKey(at));
        },
    };
    if byte == MINUS || (DIGIT_0 <= byte && byte <= DIGIT_9) {
        proof {
            lemma_number_token_bounds(start);
            lemma_numbers_at_bound(start, at as int);
        }
        match numbers(reader) {
            Ok(found) => {
                assert(found@.len() > 0) by {
                    assert(number_views(found@).len() == found@.len());
                }
                Ok(from_numbers(found))
            },
            Err(e) => Err(e),
        }
    } else if byte == QUOTE {
        let _ = next(reader);
        let from = offset(reader);
        let (text, _) = take_while(reader, ByteClass::Quoted);
        proof {
            lemma_run_len_bound(start.skip(1), ByteClass::Quoted);
            lemma_run_len_stop(start.skip(1), ByteClass::Quoted);
        }
        let end = offset(reader);
        match next(reader) {
            Some(_) => {},
            None => {
                return Err(Error::UnfinishedKey(end));
            },
        }
        assert(rest(*reader) =~= start.skip(run_len(start.skip(1), ByteClass::Quoted) as int + 2));
        match str::from_utf8(text) {
            Ok(text) => Ok(Value::String(text)),
            Err(_) => Err(Error::InvalidUtf8(from)),
        }
    } else if byte == 0x74 {
        // The four bytes of `true`.
        proof {
            reveal_with_fuel(agreement, 5);
        }
        expect(reader, 0x74)?;
        expect(reader, 0x72)?;
        expect(reader, 0x75)?;
        expect(reader, 0x65)?;
        assert(rest(*reader) =~= start.skip(4));
        Ok(Value::Bool(true))
    } else if byte == 0x66 {
        // The five bytes of `false`.
        proof {
            reveal_with_fuel(agreement, 6);
        }
        expect(reader, 0x66)?;
        expect(reader, 0x61)?;
        expect(reader, 0x6C)?;
        expect(reader, 0x73)?;
        expect(reader, 0x65)?;
        assert(rest(*reader) =~= start.skip(5));
        Ok(Value::Bool(false))
    } else if byte == NEWLINE {
        assert(rest(*reader) =~= start.skip(0));
        Ok(Value::Empty)
    } else if byte == SPACE {
        let _ = next(reader);
        proof {
            lemma_value_at_bound(start.skip(1), at + 1);
        }
        match value(reader) {
            Ok(found) => {
                assert(rest(*reader) =~= start.skip(
                    value_at(start, at as int)->Ok_0.1,
                ));
                Ok(found)
            },
            Err(e) => Err(e),
        }
    } else {
        Err(Error::InvalidCharacter(at))
    }
}

/// Parses a buffer of bytes into the mapping it describes.
///
/// The buffer is a sequence of entries `[key] value`, with line breaks and
/// spaces between them. Where a key occurs more than once, its last value
/// counts, and the key keeps its first place. Parsing stops at the first
/// byte that the grammar does not allow, with the error that [`parse`]
/// gives for the buffer; nothing of the mapping is returned then.
pub fn parse_bytes<'a>(data: &'a [u8]) -> (r: Result<Mapping<'a>, Error>)
    ensures
        match parse(data@) {
            Ok(entries) => r is Ok && r->Ok_0@ == mapping_of(entries) && r->Ok_0.entries_view()
                == stored(entries),
            Err(e) => r is Err && r->Err_0 == e,
        },
{
    let mut pairs = Mapping::new();
    let mut reader = open(data);
    let ghost mut seen: Seq<EntryView> = Seq::empty();
    loop
        invariant
            pairs@ == mapping_of(seen),
            pairs.entries_view() == stored(seen),
            parse(data@) == (match entries_at(rest(reader), position(reader) as int) {
                Ok(tail) => Ok(seen + tail),
                Err(e) => Err(e),
            }),
        decreases rest(reader).len(),
    {
        let ghost start = rest(reader);
        let at = offset(&reader);
        let byte = match next(&mut reader) {
            Some(byte) => byte,
            None => {
                assert(seen + Seq::<EntryView>::empty() =~= seen);
                return Ok(pairs);
            },
        };
        if byte == OPEN_BRACKET {
            let from = offset(&reader);
            let (key, _) = take_while(&mut reader, ByteClass::Key);
            proof {
                lemma_run_len_bound(start.skip(1), ByteClass::Key);
                lemma_run_len_stop(start.skip(1), ByteClass::Key);
            }
            let end = offset(&reader);
            match next(&mut reader) {
                Some(stop) => {
                    if stop != CLOSE_BRACKET {
                        return Err(Error::UnfinishedKey(end));
                    }
                },
                None => {
                    return Err(Error::UnfinishedKey(end));
                },
            }
            let ghost len = run_len(start.skip(1), ByteClass::Key) as int;
            assert(rest(reader) =~= start.skip(len + 2));
            let key = match str::from_utf8(key) {
                Ok(key) => key,
                Err(_) => {
                    return Err(Error::InvalidUtf8(from));
                },
            };
            proof {
                lemma_value_at_bound(start.skip(len + 2), at + len + 2);
            }
            match value(&mut reader) {
                Ok(found) => {
                    proof {
                        let used = value_at(start.skip(len + 2), at + len + 2)->Ok_0.1;
                        assert(rest(reader) =~= start.skip(len + 2 + used));
                        let entry = (key.spec_bytes(), found@);
                        assert(seen.push(entry).drop_last() =~= seen);
                        match entries_at(rest(reader), position(reader) as int) {
                            Ok(tail) => {
                                assert(seen + (seq![entry] + tail) =~= seen.push(entry) + tail);
                            },
                            Err(_) => {},
                        }
                        seen = seen.push(entry);
                    }
                    pairs.insert(key, found);
                },
                Err(e) => {
                    return Err(e);
                },
            }
        } else if byte == NEWLINE || byte == CARRIAGE_RETURN || byte == SPACE {
        } else {
            return Err(Error::InvalidCharacter(at));
        }
    }
}

/// Parses a text buffer into the mapping it describes: [`parse_bytes`] on
/// the UTF-8 encoding of `text`. Text is never rejected for its encoding.
pub fn parse_str<'a>(text: &'a str) -> (r: Result<Mapping<'a>, Error>)
    ensures
        match parse(text.spec_bytes()) {
            Ok(entries) => r is Ok && r->Ok_0@ == mapping_of(entries) && r->Ok_0.entries_view()
                == stored(entries),
            Err(e) => r is Err && r->Err_0 == e,
        },
        r matches Err(e) ==> !(e is InvalidUtf8),
{
    proof {
        encode_utf8_valid_utf8(text@);
        lemma_text_keeps_utf8(text.spec_bytes());
    }
    parse_bytes(text.as_bytes())
}

} // verus!
