//! The ways in which the codec can refuse its input.

use vstd::prelude::*;

verus! {

/// The token that a reader needed at the offset where it gave up.
#[derive(Debug, Clone, Copy, PartialEq, Eq)]
pub enum Expected {
    /// One of the five type sigils `+`, `-`, `:`, `$`, `*`.
    Sigil,
    /// An ASCII decimal digit of a length, count or integer field.
    Digit,
    /// A decimal number that fits a signed 64-bit integer.
    Integer,
    /// The two-byte line terminator `\r\n`.
    Terminator,
    /// As many content bytes as the bulk string's length field declares.
    Content,
    /// As many elements as the array's count field declares.
    Element,
    /// The end of the input, right after the top-level value.
    End,
}

/// A failure of the codec. Both are recoverable: the caller drops the frame
/// or the value and goes on.
#[derive(Debug, Clone, Copy, PartialEq, Eq)]
pub enum RespError {
    /// The bytes are not a frame: at `offset` the token `expected` is missing.
    MalformedInput { offset: usize, expected: Expected },
    /// The value has no frame: a simple string or an error text holds the
    /// line terminator, which would end it early on the wire.
    InvalidValue,
}

/// Where and why a byte sequence stops being a frame, as the grammar sees it.
pub struct Fault {
    pub offset: int,
    pub expected: Expected,
}

impl RespError {
    /// This error reports the fault `fault`.
    pub open spec fn reports(self, fault: Fault) -> bool {
        self == (RespError::MalformedInput {
            offset: fault.offset as usize,
            expected: fault.expected,
        }) && 0 <= fault.offset <= usize::MAX
    }
}

} // verus!
