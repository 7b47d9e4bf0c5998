//! UTF-8 at the boundary between bytes and `str`.

use core::str::Utf8Error;
use vstd::prelude::*;
use vstd::string::*;
use vstd::utf8::*;

verus! {

/// `core::str::Utf8Error`, held as an opaque value.
#[verifier::external_type_specification]
#[verifier::external_body]
pub struct ExUtf8Error(Utf8Error);

/// `str::from_utf8` succeeds exactly on well-formed UTF-8, and the string
/// it returns is made of the bytes it was given.
pub assume_specification[ str::from_utf8 ](v: &[u8]) -> (r: Result<&str, Utf8Error>)
    ensures
        r is Ok <==> valid_utf8(v@),
        r matches Ok(s) ==> s.spec_bytes() == v@,
;

/// True if every byte is below 128.
pub open spec fn is_ascii_bytes(bytes: Seq<u8>) -> bool {
    forall|i: int| 0 <= i < bytes.len() ==> #[trigger] bytes[i] < 0x80
}

/// ASCII is UTF-8.
pub proof fn lemma_ascii_is_utf8(bytes: Seq<u8>)
    requires
        is_ascii_bytes(bytes),
    ensures
        valid_utf8(bytes),
{
    let chars = Seq::new(bytes.len(), |i: int| bytes[i] as char);
    assert(is_ascii_chars(chars));
    is_ascii_chars_encode_utf8(chars);
    assert(encode_utf8(chars) =~= bytes);
    encode_utf8_valid_utf8(chars);
}

/// The encoding of a concatenation is the concatenation of the encodings.
pub proof fn lemma_encode_concat(a: Seq<char>, b: Seq<char>)
    ensures
        encode_utf8(a + b) == encode_utf8(a) + encode_utf8(b),
    decreases a.len(),
{
    if a.len() == 0 {
        assert(a + b =~= b);
        assert(encode_utf8(a) + encode_utf8(b) =~= encode_utf8(b));
    } else {
        lemma_encode_concat(a.drop_first(), b);
        assert((a + b).drop_first() =~= a.drop_first() + b);
        assert((a + b)[0] == a[0]);
        assert(encode_utf8(a + b) =~= encode_utf8(a) + encode_utf8(b));
    }
}

/// What is left of UTF-8 behind leading ASCII bytes is UTF-8.
pub proof fn lemma_skip_ascii(bytes: Seq<u8>, n: int)
    requires
        valid_utf8(bytes),
        0 <= n <= bytes.len(),
        forall|i: int| 0 <= i < n ==> #[trigger] bytes[i] < 0x80,
    ensures
        valid_utf8(bytes.skip(n)),
    decreases n,
{
    if n == 0 {
        assert(bytes.skip(0) =~= bytes);
    } else {
        assert(bytes[0] < 0x80);
        assert(pop_first_scalar(bytes) =~= bytes.skip(1));
        assert forall|i: int| 0 <= i < n - 1 implies #[trigger] bytes.skip(1)[i] < 0x80 by {
            assert(bytes.skip(1)[i] == bytes[i + 1]);
        }
        lemma_skip_ascii(bytes.skip(1), n - 1);
        assert(bytes.skip(1).skip(n - 1) =~= bytes.skip(n));
    }
}

/// UTF-8 cut at an ASCII byte leaves UTF-8 on both sides of the byte.
pub proof fn lemma_cut_at_ascii(bytes: Seq<u8>, at: int)
    requires
        valid_utf8(bytes),
        0 <= at < bytes.len(),
        bytes[at] < 0x80,
    ensures
        valid_utf8(bytes.take(at)),
        valid_utf8(bytes.skip(at + 1)),
{
    is_char_boundary_iff_not_is_continuation_byte(bytes, at);
    valid_utf8_split(bytes, at);
    assert(bytes.take(at) =~= bytes.subrange(0, at));
    let behind = bytes.subrange(at, bytes.len() as int);
    assert(behind[0] == bytes[at]);
    lemma_skip_ascii(behind, 1);
    assert(behind.skip(1) =~= bytes.skip(at + 1));
}

} // verus!
