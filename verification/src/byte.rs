//! The binary encoding: a fixed header followed by little-endian fields.

use crate::cursor::{next, next_n, open, rest};
use sti::reader::Reader;
use vstd::bytes::{
    lemma_auto_spec_u32_to_from_le_bytes, lemma_auto_spec_u64_to_from_le_bytes,
    spec_u32_from_le_bytes, spec_u32_to_le_bytes, spec_u64_from_le_bytes, spec_u64_to_le_bytes,
    u32_from_le_bytes, u32_to_le_bytes, u64_from_le_bytes, u64_to_le_bytes,
};
use vstd::prelude::*;
use vstd::string::*;
use vstd::utf8::valid_utf8;

verus! {

/// The marker that every buffer starts with: the ASCII letters
/// `FANCYSAVEFORMAT` and a closing zero byte.
pub const MAGIC_VALUE: [u8; 16] = [
    0x46, 0x41, 0x4E, 0x43, 0x59, 0x53, 0x41, 0x56, 0x45, 0x46, 0x4F, 0x52, 0x4D, 0x41, 0x54, 0x00,
];

/// The format version that this crate writes and accepts.
pub const VERSION: u32 = 1;

/// The 20 bytes at the start of every buffer: the marker, then the version
/// as a little-endian `u32`.
pub open spec fn header() -> Seq<u8> {
    MAGIC_VALUE@ + spec_u32_to_le_bytes(VERSION)
}

/// A byte string on the wire: its length as a little-endian `u32`, then the
/// bytes themselves.
pub open spec fn encode_bytes(bytes: Seq<u8>) -> Seq<u8>
    recommends
        bytes.len() <= u32::MAX,
{
    spec_u32_to_le_bytes(bytes.len() as u32) + bytes
}

/// Builds a buffer in the binary encoding, field by field.
pub struct ByteWriter {
    buffer: Vec<u8>,
}

impl View for ByteWriter {
    type V = Seq<u8>;

    /// The bytes written so far, header included.
    closed spec fn view(&self) -> Seq<u8> {
        self.buffer@
    }
}

impl ByteWriter {
    /// A writer that holds the header and nothing else.
    pub fn new() -> (writer: Self)
        ensures
            writer@ == header(),
    {
        let mut buffer: Vec<u8> = Vec::with_capacity(128);
        let magic = MAGIC_VALUE;
        buffer.extend_from_slice(magic.as_slice());
        let mut version = u32_to_le_bytes(VERSION);
        buffer.append(&mut version);
        ByteWriter { buffer }
    }

    /// Hands out the bytes written so far.
    pub fn finish(self) -> (bytes: Vec<u8>)
        ensures
            bytes@ == self@,
    {
        self.buffer
    }

    /// Appends one byte.
    pub fn write_u8(&mut self, value: u8)
        ensures
            final(self)@ == old(self)@.push(value),
    {
        self.buffer.push(value);
    }

    /// Appends `value` as the byte with the same bit pattern.
    pub fn write_i8(&mut self, value: i8)
        ensures
            final(self)@ == old(self)@.push(value as u8),
    {
        self.buffer.push(value as u8);
    }

    /// Appends the four bytes of `value`, lowest first.
    pub fn write_u32(&mut self, value: u32)
        ensures
            final(self)@ == old(self)@ + spec_u32_to_le_bytes(value),
    {
        let mut bytes = u32_to_le_bytes(value);
        self.buffer.append(&mut bytes);
    }

    /// Appends the eight bytes of `value`, lowest first.
    pub fn write_u64(&mut self, value: u64)
        ensures
            final(self)@ == old(self)@ + spec_u64_to_le_bytes(value),
    {
        let mut bytes = u64_to_le_bytes(value);
        self.buffer.append(&mut bytes);
    }

    /// Appends `value` in two's complement, as four bytes, lowest first.
    pub fn write_i32(&mut self, value: i32)
        ensures
            final(self)@ == old(self)@ + spec_u32_to_le_bytes(value as u32),
    {
        self.write_u32(value as u32);
    }

    /// Appends `value` in two's complement, as eight bytes, lowest first.
    pub fn write_i64(&mut self, value: i64)
        ensures
            final(self)@ == old(self)@ + spec_u64_to_le_bytes(value as u64),
    {
        self.write_u64(value as u64);
    }

    /// Appends a single-precision IEEE-754 number, given as its 32 bits,
    /// lowest byte first.
    pub fn write_f32(&mut self, bits: u32)
        ensures
            final(self)@ == old(self)@ + spec_u32_to_le_bytes(bits),
    {
        self.write_u32(bits);
    }

    /// Appends a double-precision IEEE-754 number, given as its 64 bits,
    /// lowest byte first.
    pub fn write_f64(&mut self, bits: u64)
        ensures
            final(self)@ == old(self)@ + spec_u64_to_le_bytes(bits),
    {
        self.write_u64(bits);
    }

    /// Appends one byte: 1 for `true`, 0 for `false`.
    pub fn write_bool(&mut self, value: bool)
        ensures
            final(self)@ == old(self)@.push(if value { 1u8 } else { 0u8 }),
    {
        self.write_u8(if value { 1 } else { 0 });
    }

    /// Appends the length of `bytes` as a little-endian `u32`, then `bytes`.
    pub fn write_bytes(&mut self, bytes: &[u8])
        requires
            bytes@.len() <= u32::MAX,
        ensures
            final(self)@ == old(self)@ + encode_bytes(bytes@),
    {
        self.write_u32(bytes.len() as u32);
        self.buffer.extend_from_slice(bytes);
    }

    /// Appends the UTF-8 encoding of `str`, behind its length in bytes.
    pub fn write_str(&mut self, str: &str)
        requires
            str.spec_bytes().len() <= u32::MAX,
        ensures
            final(self)@ == old(self)@ + encode_bytes(str.spec_bytes()),
    {
        self.write_bytes(str.as_bytes());
    }
}

/// Tests whether `bytes` are the marker.
fn is_magic(bytes: &[u8]) -> (r: bool)
    ensures
        r == (bytes@ == MAGIC_VALUE@),
{
    let magic = MAGIC_VALUE;
    if bytes.len() != magic.len() {
        return false;
    }
    let mut i: usize = 0;
    while i < bytes.len()
        invariant
            i <= bytes@.len(),
            bytes@.len() == magic@.len(),
            magic@ == MAGIC_VALUE@,
            forall|j: int| 0 <= j < i ==> bytes@[j] == magic@[j],
        decreases bytes.len() - i,
    {
        if bytes[i] != magic[i] {
            return false;
        }
        i = i + 1;
    }
    assert(bytes@ =~= magic@);
    true
}

/// The first `n` bytes of `bytes` and what follows them, if `bytes` has
/// that many.
pub open spec fn split(bytes: Seq<u8>, n: int) -> Option<(Seq<u8>, Seq<u8>)> {
    if 0 <= n <= bytes.len() {
        Some((bytes.take(n), bytes.skip(n)))
    } else {
        None
    }
}

/// The byte string at the head of `bytes` and what follows it: a length as
/// a little-endian `u32`, then that many bytes.
pub open spec fn decode_bytes(bytes: Seq<u8>) -> Option<(Seq<u8>, Seq<u8>)> {
    match split(bytes, 4) {
        Some((len, tail)) => split(tail, spec_u32_from_le_bytes(len) as int),
        None => None,
    }
}

/// Reads a buffer in the binary encoding, field by field.
pub struct ByteReader<'a> {
    reader: Reader<'a, u8>,
}

impl<'me> ByteReader<'me> {
    /// The bytes that have not been read yet.
    pub closed spec fn remaining(&self) -> Seq<u8> {
        rest(self.reader)
    }

    /// A reader over the fields of `bytes`, if `bytes` starts with the
    /// header: the marker and the version that this crate writes.
    pub fn new(bytes: &'me [u8]) -> (r: Option<Self>)
        ensures
            r is Some <==> header().is_prefix_of(bytes@),
            r matches Some(reader) ==> reader.remaining() == bytes@.skip(header().len() as int),
    {
        proof {
            lemma_auto_spec_u32_to_from_le_bytes();
        }
        let mut reader = open(bytes);
        match next_n(&mut reader, 16) {
            Some(magic) => {
                if !is_magic(magic) {
                    assert(!header().is_prefix_of(bytes@)) by {
                        if header().is_prefix_of(bytes@) {
                            assert(bytes@.take(16) =~= MAGIC_VALUE@);
                        }
                    }
                    return None;
                }
            },
            None => {
                return None;
            },
        }
        match next_n(&mut reader, 4) {
            Some(version) => {
                let ghost found = bytes@.skip(16).take(4);
                if u32_from_le_bytes(version) != VERSION {
                    assert(!header().is_prefix_of(bytes@)) by {
                        if header().is_prefix_of(bytes@) {
                            let word = spec_u32_to_le_bytes(VERSION);
                            assert(word.len() == 4);
                            assert forall|k: int| 0 <= k < 4 implies found[k] == word[k] by {
                                assert(header()[16 + k] == word[k]);
                                assert(bytes@.subrange(0, 20)[16 + k] == bytes@[16 + k]);
                            }
                            assert(found =~= word);
                        }
                    }
                    return None;
                }
                assert(found == spec_u32_to_le_bytes(VERSION));
                assert(bytes@.take(20) =~= header());
                assert(rest(reader) =~= bytes@.skip(20));
            },
            None => {
                return None;
            },
        }
        Some(ByteReader { reader })
    }

    /// Reads one byte.
    pub fn read_u8(&mut self) -> (r: Option<u8>)
        ensures
            match split(old(self).remaining(), 1) {
                Some((head, tail)) => r == Some(head[0]) && final(self).remaining() == tail,
                None => r.is_none() && final(self).remaining() == old(self).remaining(),
            },
    {
        next(&mut self.reader)
    }

    /// Reads one byte as the signed number with the same bit pattern.
    pub fn read_i8(&mut self) -> (r: Option<i8>)
        ensures
            match split(old(self).remaining(), 1) {
                Some((head, tail)) => r == Some(head[0] as i8) && final(self).remaining() == tail,
                None => r.is_none() && final(self).remaining() == old(self).remaining(),
            },
    {
        match self.read_u8() {
            Some(byte) => Some(byte as i8),
            None => None,
        }
    }

    /// Reads four bytes as a little-endian number.
    pub fn read_u32(&mut self) -> (r: Option<u32>)
        ensures
            match split(old(self).remaining(), 4) {
                Some((head, tail)) => r == Some(spec_u32_from_le_bytes(head))
                    && final(self).remaining() == tail,
                None => r.is_none() && final(self).remaining() == old(self).remaining(),
            },
    {
        match next_n(&mut self.reader, 4) {
            Some(bytes) => Some(u32_from_le_bytes(bytes)),
            None => None,
        }
    }

    /// Reads four bytes as a little-endian number in two's complement.
    pub fn read_i32(&mut self) -> (r: Option<i32>)
        ensures
            match split(old(self).remaining(), 4) {
                Some((head, tail)) => r == Some(spec_u32_from_le_bytes(head) as i32)
                    && final(self).remaining() == tail,
                None => r.is_none() && final(self).remaining() == old(self).remaining(),
            },
    {
        match self.read_u32() {
            Some(value) => Some(value as i32),
            None => None,
        }
    }

    /// Reads eight bytes as a little-endian number.
    pub fn read_u64(&mut self) -> (r: Option<u64>)
        ensures
            match split(old(self).remaining(), 8) {
                Some((head, tail)) => r == Some(spec_u64_from_le_bytes(head))
                    && final(self).remaining() == tail,
                None => r.is_none() && final(self).remaining() == old(self).remaining(),
            },
    {
        match next_n(&mut self.reader, 8) {
            Some(bytes) => Some(u64_from_le_bytes(bytes)),
            None => None,
        }
    }

    /// Reads eight bytes as a little-endian number in two's complement.
    pub fn read_i64(&mut self) -> (r: Option<i64>)
        ensures
            match split(old(self).remaining(), 8) {
                Some((head, tail)) => r == Some(spec_u64_from_le_bytes(head) as i64)
                    && final(self).remaining() == tail,
                None => r.is_none() && final(self).remaining() == old(self).remaining(),
            },
    {
        match self.read_u64() {
            Some(value) => Some(value as i64),
            None => None,
        }
    }

    /// Reads four bytes as the 32 bits of a single-precision IEEE-754
    /// number.
    pub fn read_f32(&mut self) -> (r: Option<u32>)
        ensures
            match split(old(self).remaining(), 4) {
                Some((head, tail)) => r == Some(spec_u32_from_le_bytes(head))
                    && final(self).remaining() == tail,
                None => r.is_none() && final(self).remaining() == old(self).remaining(),
            },
    {
        self.read_u32()
    }

    /// Reads eight bytes as the 64 bits of a double-precision IEEE-754
    /// number.
    pub fn read_f64(&mut self) -> (r: Option<u64>)
        ensures
            match split(old(self).remaining(), 8) {
                Some((head, tail)) => r == Some(spec_u64_from_le_bytes(head))
                    && final(self).remaining() == tail,
                None => r.is_none() && final(self).remaining() == old(self).remaining(),
            },
    {
        self.read_u64()
    }

    /// Reads one byte as a flag: 1 is `true`, anything else `false`.
    pub fn read_bool(&mut self) -> (r: Option<bool>)
        ensures
            match split(old(self).remaining(), 1) {
                Some((head, tail)) => r == Some(head[0] == 1) && final(self).remaining() == tail,
                None => r.is_none() && final(self).remaining() == old(self).remaining(),
            },
    {
        match self.read_u8() {
            Some(byte) => Some(byte == 1),
            None => None,
        }
    }

    /// Reads a byte string: a length as a little-endian `u32`, then that
    /// many bytes. Where the length can be read and the bytes behind it
    /// run out, the length stays consumed.
    pub fn read_bytes(&mut self) -> (r: Option<&'me [u8]>)
        ensures
            match decode_bytes(old(self).remaining()) {
                Some((bytes, tail)) => r.is_some() && r.unwrap()@ == bytes
                    && final(self).remaining() == tail,
                None => r.is_none() && final(self).remaining() == (match split(
                    old(self).remaining(),
                    4,
                ) {
                    Some((_, tail)) => tail,
                    None => old(self).remaining(),
                }),
            },
    {
        let len = match self.read_u32() {
            Some(len) => len,
            None => {
                return None;
            },
        };
        next_n(&mut self.reader, len as usize)
    }

    /// Reads a byte string and takes it as text. `None` also where the
    /// bytes are not UTF-8; they stay consumed.
    pub fn read_str(&mut self) -> (r: Option<&'me str>)
        ensures
            match decode_bytes(old(self).remaining()) {
                Some((bytes, tail)) => final(self).remaining() == tail && (if valid_utf8(bytes) {
                    r.is_some() && r.unwrap().spec_bytes() == bytes
                } else {
                    r.is_none()
                }),
                None => r.is_none() && final(self).remaining() == (match split(
                    old(self).remaining(),
                    4,
                ) {
                    Some((_, tail)) => tail,
                    None => old(self).remaining(),
                }),
            },
    {
        let bytes = match self.read_bytes() {
            Some(bytes) => bytes,
            None => {
                return None;
            },
        };
        match str::from_utf8(bytes) {
            Ok(text) => Some(text),
            Err(_) => None,
        }
    }
}

/// A buffer that starts with the header is accepted, and its fields start
/// behind the header.
pub proof fn lemma_header_accepted(fields: Seq<u8>)
    ensures
        header().len() == 20,
        header().is_prefix_of(header() + fields),
        (header() + fields).skip(20) == fields,
{
    lemma_auto_spec_u32_to_from_le_bytes();
    assert(spec_u32_to_le_bytes(VERSION).len() == 4);
    assert((header() + fields).subrange(0, 20) =~= header());
    assert((header() + fields).skip(20) =~= fields);
}

/// A byte that was written is the next byte read, as a signed number and
/// as a flag too.
pub proof fn lemma_byte_reads_back(byte: u8, signed: i8, flag: bool, tail: Seq<u8>)
    ensures
        split(seq![byte] + tail, 1) == Some((seq![byte], tail)),
        (signed as u8) as i8 == signed,
        ((if flag {
            1u8
        } else {
            0u8
        }) == 1) == flag,
{
    assert((seq![byte] + tail).take(1) =~= seq![byte]);
    assert((seq![byte] + tail).skip(1) =~= tail);
    assert((signed as u8) as i8 == signed) by (bit_vector);
}

/// Four bytes that were written for a number are read back as that number,
/// signed or not.
pub proof fn lemma_word_reads_back(value: u32, signed: i32, tail: Seq<u8>)
    ensures
        split(spec_u32_to_le_bytes(value) + tail, 4) == Some((spec_u32_to_le_bytes(value), tail)),
        spec_u32_from_le_bytes(spec_u32_to_le_bytes(value)) == value,
        spec_u32_from_le_bytes(spec_u32_to_le_bytes(signed as u32)) as i32 == signed,
{
    lemma_auto_spec_u32_to_from_le_bytes();
    let word = spec_u32_to_le_bytes(value);
    assert(word.len() == 4);
    assert((word + tail).take(4) =~= word);
    assert((word + tail).skip(4) =~= tail);
    assert(spec_u32_to_le_bytes(signed as u32).len() == 4);
    assert((signed as u32) as i32 == signed) by (bit_vector);
}

/// Eight bytes that were written for a number are read back as that
/// number, signed or not.
pub proof fn lemma_long_reads_back(value: u64, signed: i64, tail: Seq<u8>)
    ensures
        split(spec_u64_to_le_bytes(value) + tail, 8) == Some((spec_u64_to_le_bytes(value), tail)),
        spec_u64_from_le_bytes(spec_u64_to_le_bytes(value)) == value,
        spec_u64_from_le_bytes(spec_u64_to_le_bytes(signed as u64)) as i64 == signed,
{
    lemma_auto_spec_u64_to_from_le_bytes();
    let word = spec_u64_to_le_bytes(value);
    assert(word.len() == 8);
    assert((word + tail).take(8) =~= word);
    assert((word + tail).skip(8) =~= tail);
    assert(spec_u64_to_le_bytes(signed as u64).len() == 8);
    assert((signed as u64) as i64 == signed) by (bit_vector);
}

/// A byte string that was written is read back as it was, and reading
/// goes on behind it.
pub proof fn lemma_bytes_read_back(bytes: Seq<u8>, tail: Seq<u8>)
    requires
        bytes.len() <= u32::MAX,
    ensures
        decode_bytes(encode_bytes(bytes) + tail) == Some((bytes, tail)),
{
    lemma_auto_spec_u32_to_from_le_bytes();
    let len = spec_u32_to_le_bytes(bytes.len() as u32);
    let text = encode_bytes(bytes) + tail;
    assert(len.len() == 4);
    assert(text.take(4) =~= len);
    assert(text.skip(4) =~= bytes + tail);
    assert((bytes + tail).take(bytes.len() as int) =~= bytes);
    assert((bytes + tail).skip(bytes.len() as int) =~= tail);
}

} // verus!
