//! The values that a key can hold.
//!
//! Numbers are kept as the decimal literals they were written as: a sign
//! and a run of digits with at most one point. Turning a literal into a
//! machine float, and back, is left to the caller.

use crate::class::{ByteClass, DIGIT_0, DIGIT_9, DOT};
use crate::model::{count, is_number_body, NumberView, ValueView};
use vstd::prelude::*;
use vstd::string::*;

verus! {

/// Tests whether `bytes` are the digits of a decimal literal.
pub fn is_decimal(bytes: &[u8]) -> (r: bool)
    ensures
        r == is_number_body(bytes@),
{
    let mut dots: usize = 0;
    let mut i: usize = 0;
    while i < bytes.len()
        invariant
            i <= bytes.len(),
            dots == count(bytes@.take(i as int), DOT),
            dots <= i,
            forall|j: int| 0 <= j < i ==> ByteClass::Numeral.has(#[trigger] bytes@[j]),
        decreases bytes.len() - i,
    {
        let byte = bytes[i];
        assert(bytes@.take(i + 1).drop_last() =~= bytes@.take(i as int));
        if byte == DOT {
            dots = dots + 1;
        } else if !(DIGIT_0 <= byte && byte <= DIGIT_9) {
            return false;
        }
        i = i + 1;
    }
    assert(bytes@.take(i as int) =~= bytes@);
    dots <= 1 && dots < bytes.len()
}

/// A decimal number, as written.
#[derive(Debug, Clone, Copy, PartialEq, Eq)]
pub struct Number<'a> {
    negative: bool,
    digits: &'a str,
}

impl<'a> View for Number<'a> {
    type V = NumberView;

    closed spec fn view(&self) -> NumberView {
        NumberView { negative: self.negative, digits: self.digits.spec_bytes() }
    }
}

impl<'a> Number<'a> {
    #[verifier::type_invariant]
    spec fn well_formed(self) -> bool {
        is_number_body(self.digits.spec_bytes())
    }

    /// The number with the given sign and digits, if `digits` are those of
    /// a decimal literal.
    pub fn new(negative: bool, digits: &'a str) -> (r: Option<Number<'a>>)
        ensures
            r is Some <==> is_number_body(digits.spec_bytes()),
            r matches Some(n) ==> n@ == (NumberView { negative, digits: digits.spec_bytes() }),
    {
        if is_decimal(digits.as_bytes()) {
            Some(Number { negative, digits })
        } else {
            None
        }
    }

    /// Whether the number was written with a leading `-`.
    pub fn is_negative(&self) -> (r: bool)
        ensures
            r == self@.negative,
    {
        self.negative
    }

    /// The digits behind the sign. They always form a decimal literal.
    pub fn digits(&self) -> (r: &'a str)
        ensures
            r.spec_bytes() == self@.digits,
            is_number_body(r.spec_bytes()),
    {
        proof {
            use_type_invariant(self);
        }
        self.digits
    }
}

/// Two numbers.
#[derive(Debug, Clone, Copy, PartialEq, Eq)]
pub struct Vec2<'a> {
    pub x: Number<'a>,
    pub y: Number<'a>,
}

/// Three numbers.
#[derive(Debug, Clone, Copy, PartialEq, Eq)]
pub struct Vec3<'a> {
    pub x: Number<'a>,
    pub y: Number<'a>,
    pub z: Number<'a>,
}

/// The views of a list of numbers, in order.
pub open spec fn number_views<'a>(numbers: Seq<Number<'a>>) -> Seq<NumberView> {
    Seq::new(numbers.len(), |i: int| numbers[i]@)
}

/// The payload of one entry.
#[derive(Debug, Clone, PartialEq, Eq)]
pub enum Value<'a> {
    /// Text, borrowed from the buffer it was read from.
    String(&'a str),
    Num(Number<'a>),
    Bool(bool),
    Vec2(Vec2<'a>),
    Vec3(Vec3<'a>),
    /// Four numbers or more, in order.
    Vec(Vec<Number<'a>>),
    /// A key with nothing behind it.
    Empty,
}

impl<'a> View for Value<'a> {
    type V = ValueView;

    open spec fn view(&self) -> ValueView {
        match *self {
            Value::String(text) => ValueView::String(text.spec_bytes()),
            Value::Num(number) => ValueView::Num(number@),
            Value::Bool(flag) => ValueView::Bool(flag),
            Value::Vec2(pair) => ValueView::Vec2(pair.x@, pair.y@),
            Value::Vec3(triple) => ValueView::Vec3(triple.x@, triple.y@, triple.z@),
            Value::Vec(numbers) => ValueView::Vec(number_views(numbers@)),
            Value::Empty => ValueView::Empty,
        }
    }
}

impl<'a> Value<'a> {
    /// The text of a string value.
    pub fn as_str(&self) -> (r: &'a str)
        requires
            self is String,
        ensures
            self@ == ValueView::String(r.spec_bytes()),
    {
        match self {
            Value::String(text) => text,
            _ => vstd::pervasive::unreached(),
        }
    }

    /// The number of a single-number value.
    pub fn as_num(&self) -> (r: Number<'a>)
        requires
            self is Num,
        ensures
            self@ == ValueView::Num(r@),
    {
        match self {
            Value::Num(number) => *number,
            _ => vstd::pervasive::unreached(),
        }
    }

    /// The two numbers of a pair.
    pub fn as_vec2(&self) -> (r: Vec2<'a>)
        requires
            self is Vec2,
        ensures
            self@ == ValueView::Vec2(r.x@, r.y@),
    {
        match self {
            Value::Vec2(pair) => *pair,
            _ => vstd::pervasive::unreached(),
        }
    }

    /// The three numbers of a triple.
    pub fn as_vec3(&self) -> (r: Vec3<'a>)
        requires
            self is Vec3,
        ensures
            self@ == ValueView::Vec3(r.x@, r.y@, r.z@),
    {
        match self {
            Value::Vec3(triple) => *triple,
            _ => vstd::pervasive::unreached(),
        }
    }

    /// The numbers of a longer sequence, in order.
    pub fn as_vec(&self) -> (r: &[Number<'a>])
        requires
            self is Vec,
        ensures
            self@ == ValueView::Vec(number_views(r@)),
    {
        match self {
            Value::Vec(numbers) => numbers.as_slice(),
            _ => vstd::pervasive::unreached(),
        }
    }
}

} // verus!
