//! The byte classes that the text scanners test input against.

use vstd::prelude::*;

verus! {

/// `[`, which opens a key.
pub const OPEN_BRACKET: u8 = 0x5B;

/// `]`, which closes a key.
pub const CLOSE_BRACKET: u8 = 0x5D;

/// The space.
pub const SPACE: u8 = 0x20;

/// The line feed.
pub const NEWLINE: u8 = 0x0A;

/// The carriage return.
pub const CARRIAGE_RETURN: u8 = 0x0D;

/// `"`, which opens and closes a string value.
pub const QUOTE: u8 = 0x22;

/// `-`, the sign of a numeric token.
pub const MINUS: u8 = 0x2D;

/// `.`, the decimal point of a numeric token.
pub const DOT: u8 = 0x2E;

/// `0`, the lowest ASCII digit.
pub const DIGIT_0: u8 = 0x30;

/// `9`, the highest ASCII digit.
pub const DIGIT_9: u8 = 0x39;

/// True for the ASCII digits `0` to `9`.
pub open spec fn is_digit(byte: u8) -> bool {
    DIGIT_0 <= byte <= DIGIT_9
}

/// A set of bytes that a scanner accepts.
#[derive(Clone, Copy, Debug, PartialEq, Eq)]
pub enum ByteClass {
    /// What may stand inside a key: anything but `]` and the space.
    Key,
    /// What may stand inside a quoted string: anything but `"`.
    Quoted,
    /// What a numeric token is made of: ASCII digits and `.`.
    Numeral,
    /// The space alone.
    Space,
}

impl ByteClass {
    /// Membership of `byte` in the class.
    pub open spec fn has(self, byte: u8) -> bool {
        match self {
            ByteClass::Key => byte != CLOSE_BRACKET && byte != SPACE,
            ByteClass::Quoted => byte != QUOTE,
            ByteClass::Numeral => is_digit(byte) || byte == DOT,
            ByteClass::Space => byte == SPACE,
        }
    }

    /// Tests whether `byte` belongs to the class.
    pub fn contains(self, byte: u8) -> (r: bool)
        ensures
            r == self.has(byte),
    {
        match self {
            ByteClass::Key => byte != CLOSE_BRACKET && byte != SPACE,
            ByteClass::Quoted => byte != QUOTE,
            ByteClass::Numeral => (DIGIT_0 <= byte && byte <= DIGIT_9) || byte == DOT,
            ByteClass::Space => byte == SPACE,
        }
    }
}

/// Length of the longest prefix of `bytes` that lies wholly in `class`.
pub open spec fn run_len(bytes: Seq<u8>, class: ByteClass) -> nat
    decreases bytes.len(),
{
    if bytes.len() > 0 && class.has(bytes[0]) {
        1 + run_len(bytes.skip(1), class)
    } else {
        0
    }
}

/// A run never exceeds the sequence it is measured on.
pub proof fn lemma_run_len_bound(bytes: Seq<u8>, class: ByteClass)
    ensures
        run_len(bytes, class) <= bytes.len(),
    decreases bytes.len(),
{
    if bytes.len() > 0 && class.has(bytes[0]) {
        lemma_run_len_bound(bytes.skip(1), class);
    }
}

/// Every byte of a run lies in the class, and the byte behind the run, if
/// there is one, does not.
pub proof fn lemma_run_len_stop(bytes: Seq<u8>, class: ByteClass)
    ensures
        forall|i: int| 0 <= i < run_len(bytes, class) ==> class.has(#[trigger] bytes[i]),
        run_len(bytes, class) < bytes.len() ==> !class.has(bytes[run_len(bytes, class) as int]),
    decreases bytes.len(),
{
    if bytes.len() > 0 && class.has(bytes[0]) {
        let tail = bytes.skip(1);
        lemma_run_len_stop(tail, class);
        lemma_run_len_bound(tail, class);
        assert forall|i: int| 0 <= i < run_len(bytes, class) implies class.has(
            #[trigger] bytes[i],
        ) by {
            if i > 0 {
                assert(bytes[i] == tail[i - 1]);
            }
        }
        if run_len(bytes, class) < bytes.len() {
            assert(bytes[run_len(bytes, class) as int] == tail[run_len(tail, class) as int]);
        }
    }
}

/// A run over `head + tail` is all of `head` where `head` lies in the
/// class and `tail` does not go on with it.
pub proof fn lemma_run_len_prefix(head: Seq<u8>, tail: Seq<u8>, class: ByteClass)
    requires
        forall|i: int| 0 <= i < head.len() ==> class.has(#[trigger] head[i]),
        tail.len() == 0 || !class.has(tail[0]),
    ensures
        run_len(head + tail, class) == head.len(),
    decreases head.len(),
{
    if head.len() == 0 {
        assert(head + tail =~= tail);
    } else {
        assert((head + tail).skip(1) =~= head.skip(1) + tail);
        assert forall|i: int| 0 <= i < head.skip(1).len() implies class.has(
            #[trigger] head.skip(1)[i],
        ) by {
            assert(head.skip(1)[i] == head[i + 1]);
        }
        lemma_run_len_prefix(head.skip(1), tail, class);
        assert((head + tail)[0] == head[0]);
    }
}

} // verus!
