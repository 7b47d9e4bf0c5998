//! The cursor that both decoders read through: `sti::reader::Reader` over
//! bytes, with the contracts this crate relies on.
//!
//! Nothing in this module is proved. Each function hands its arguments to
//! one method of the reader and states what that method does, in terms of
//! the bytes the reader still holds ([`rest`]) and the count of bytes it
//! has consumed ([`position`]).

use crate::class::{run_len, ByteClass};
use sti::reader::Reader;
use vstd::prelude::*;

verus! {

/// `sti::reader::Reader`, held as an opaque value.
#[verifier::external_type_specification]
#[verifier::external_body]
#[verifier::reject_recursive_types(T)]
pub struct ExReader<'a, T>(Reader<'a, T>);

/// The bytes that `reader` has not consumed yet, in order: what
/// `Reader::as_slice` returns.
pub uninterp spec fn rest(reader: Reader<'_, u8>) -> Seq<u8>;

/// The number of bytes that `reader` has consumed since it was made: what
/// `Reader::offset` returns.
pub uninterp spec fn position(reader: Reader<'_, u8>) -> nat;

/// `after` is `before` moved forward over `n` of the bytes it held.
pub open spec fn advanced(before: Reader<'_, u8>, after: Reader<'_, u8>, n: nat) -> bool {
    &&& n <= rest(before).len()
    &&& rest(after) == rest(before).skip(n as int)
    &&& position(after) == position(before) + n
}

/// `after` stands where `before` stood.
pub open spec fn unmoved(before: Reader<'_, u8>, after: Reader<'_, u8>) -> bool {
    &&& rest(after) == rest(before)
    &&& position(after) == position(before)
}

/// `Reader::new`: a reader at offset 0 that holds all of `data`.
#[verifier::external_body]
pub(crate) fn open<'a>(data: &'a [u8]) -> (reader: Reader<'a, u8>)
    ensures
        rest(reader) == data@,
        position(reader) == 0,
{
    Reader::new(data)
}

/// `Reader::offset`: the count of consumed bytes.
#[verifier::external_body]
pub(crate) fn offset(reader: &Reader<'_, u8>) -> (n: usize)
    ensures
        n == position(*reader),
{
    reader.offset()
}

/// `Reader::peek`: the next byte, or `None` at the end; the reader is not
/// moved.
#[verifier::external_body]
pub(crate) fn peek(reader: &Reader<'_, u8>) -> (byte: Option<u8>)
    ensures
        rest(*reader).len() == 0 ==> byte.is_none(),
        rest(*reader).len() > 0 ==> byte == Some(rest(*reader)[0]),
{
    reader.peek()
}

/// `Reader::next`: the next byte, which is then consumed, or `None` at the
/// end, where the reader stays.
#[verifier::external_body]
pub(crate) fn next(reader: &mut Reader<'_, u8>) -> (byte: Option<u8>)
    ensures
        rest(*old(reader)).len() == 0 ==> byte.is_none() && unmoved(*old(reader), *final(reader)),
        rest(*old(reader)).len() > 0 ==> byte == Some(rest(*old(reader))[0]) && advanced(
            *old(reader),
            *final(reader),
            1,
        ),
{
    reader.next()
}

/// `Reader::next_if`: consumes and returns the next byte if there is one
/// and it lies in `class`; otherwise returns `None` and leaves the reader
/// where it was.
#[verifier::external_body]
pub(crate) fn next_if(reader: &mut Reader<'_, u8>, class: ByteClass) -> (byte: Option<u8>)
    ensures
        rest(*old(reader)).len() > 0 && class.has(rest(*old(reader))[0]) ==> byte == Some(
            rest(*old(reader))[0],
        ) && advanced(*old(reader), *final(reader), 1),
        !(rest(*old(reader)).len() > 0 && class.has(rest(*old(reader))[0])) ==> byte.is_none()
            && unmoved(*old(reader), *final(reader)),
{
    reader.next_if(|b| class.contains(*b))
}

/// `Reader::consume_while_slice`: consumes bytes for as long as they lie in
/// `class`. Returns the consumed bytes, and whether a byte outside the
/// class stopped the scan (`false` when the input ran out first).
#[verifier::external_body]
pub(crate) fn take_while<'a>(reader: &mut Reader<'a, u8>, class: ByteClass) -> (out: (
    &'a [u8],
    bool,
))
    ensures
        out.0@ == rest(*old(reader)).take(run_len(rest(*old(reader)), class) as int),
        out.1 == (run_len(rest(*old(reader)), class) < rest(*old(reader)).len()),
        advanced(*old(reader), *final(reader), run_len(rest(*old(reader)), class)),
{
    reader.consume_while_slice(|b| class.contains(*b))
}

/// `Reader::next_n`: the next `n` bytes, which are then consumed; `None`,
/// with nothing consumed, if fewer than `n` remain.
#[verifier::external_body]
pub(crate) fn next_n<'a>(reader: &mut Reader<'a, u8>, n: usize) -> (out: Option<&'a [u8]>)
    ensures
        n <= rest(*old(reader)).len() ==> out.is_some() && out.unwrap()@ == rest(
            *old(reader),
        ).take(n as int) && advanced(*old(reader), *final(reader), n as nat),
        n > rest(*old(reader)).len() ==> out.is_none() && unmoved(*old(reader), *final(reader)),
{
    reader.next_n(n)
}

} // verus!
