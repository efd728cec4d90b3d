//! The wire format: the frame of bytes that stands for a value.

use vstd::prelude::*;
use crate::decimal::{decimal, signed_decimal};
use crate::value::{Value, CR, LF};

verus! {

/// The sigil of a simple string, `+`.
pub const PLUS: u8 = 43;

/// The sigil of an error, `-`.
pub const DASH: u8 = 45;

/// The sigil of an integer, `:`.
pub const COLON: u8 = 58;

/// The sigil of a bulk string, `$`.
pub const DOLLAR: u8 = 36;

/// The sigil of an array, `*`.
pub const STAR: u8 = 42;

/// The byte `1`, which follows `-` in the length field of the null bulk string.
pub const ONE: u8 = 49;

/// The line terminator, `\r\n`, which ends every field of a frame.
pub open spec fn crlf() -> Seq<u8> {
    seq![CR, LF]
}

/// The frame of the null bulk string, `$-1\r\n`.
pub open spec fn null_frame() -> Seq<u8> {
    seq![DOLLAR, DASH, ONE, CR, LF]
}

/// The frame of `value`: its sigil, then what the sigil calls for.
///
/// A text stands between its sigil and a terminator. An integer is its
/// signed numeral. A bulk string is the numeral of its length in bytes, a
/// terminator, the content and another terminator; the null bulk string has
/// the length field `-1` and no content. An array is the numeral of its
/// element count and a terminator, followed by the frames of its elements.
pub open spec fn frame(value: Value) -> Seq<u8>
    decreases value,
{
    match value {
        Value::SimpleString(text) => seq![PLUS] + text + crlf(),
        Value::Error(text) => seq![DASH] + text + crlf(),
        Value::Integer(n) => seq![COLON] + signed_decimal(n as int) + crlf(),
        Value::BulkString(None) => null_frame(),
        Value::BulkString(Some(content)) => seq![DOLLAR] + decimal(content.len()) + crlf()
            + content + crlf(),
        Value::Array(items) => seq![STAR] + decimal(items.len()) + crlf() + frames(items),
    }
}

/// The frames of `items`, one after the other in their order.
pub open spec fn frames(items: Seq<Value>) -> Seq<u8>
    decreases items,
{
    if items.len() == 0 {
        Seq::empty()
    } else {
        frames(items.drop_last()) + frame(items.last())
    }
}

} // verus!
