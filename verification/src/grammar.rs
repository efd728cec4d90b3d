//! The grammar of frames: what a reader finds at a position of a byte
//! sequence, and where and why it gives up.
//!
//! Every function here reads `input` from the position `pos` on and yields
//! either what it found together with the number of bytes consumed, or the
//! fault that stopped it.

use vstd::prelude::*;
use crate::decimal::{digits_value, is_digit, MINUS};
use crate::error::{Expected, Fault};
use crate::value::{terminator_at, Value};
use crate::wire::{COLON, DASH, DOLLAR, ONE, PLUS, STAR};

verus! {

/// The number of bytes of `input` from `pos` to its end.
pub open spec fn remaining(input: Seq<u8>, pos: int) -> nat {
    if pos <= input.len() {
        (input.len() - pos) as nat
    } else {
        0
    }
}

/// The fault of missing `expected` at `offset`.
pub open spec fn fault(offset: int, expected: Expected) -> Fault {
    Fault { offset, expected }
}

/// The length of the longest run of ASCII digits that starts at `pos`.
pub open spec fn digit_run(input: Seq<u8>, pos: int) -> nat
    decreases remaining(input, pos),
{
    if pos < input.len() && is_digit(input[pos]) {
        1 + digit_run(input, pos + 1)
    } else {
        0
    }
}

/// The position of the first line terminator at or after `pos`, if any.
pub open spec fn find_terminator(input: Seq<u8>, pos: int) -> Option<int>
    decreases remaining(input, pos),
{
    if pos >= input.len() {
        None
    } else if terminator_at(input, pos) {
        Some(pos)
    } else {
        find_terminator(input, pos + 1)
    }
}

/// A length or count field at `pos`: a run of at least one digit and a
/// terminator. Yields the number that the digits denote.
pub open spec fn parse_count(input: Seq<u8>, pos: int) -> Result<(nat, nat), Fault> {
    let run = digit_run(input, pos);
    if run == 0 {
        Err(fault(pos, Expected::Digit))
    } else if !terminator_at(input, pos + run) {
        Err(fault(pos + run, Expected::Terminator))
    } else {
        Ok((digits_value(input.subrange(pos, pos + run)), run + 2))
    }
}

/// A text after the sigil at `pos`: the bytes up to the first terminator.
pub open spec fn parse_text(input: Seq<u8>, pos: int) -> Result<(Seq<u8>, nat), Fault> {
    match find_terminator(input, pos + 1) {
        None => Err(fault(input.len() as int, Expected::Terminator)),
        Some(end) => Ok((input.subrange(pos + 1, end), (end + 2 - pos) as nat)),
    }
}

/// A simple string frame at `pos`.
pub open spec fn parse_simple(input: Seq<u8>, pos: int) -> Result<(Value, nat), Fault> {
    if !(pos < input.len() && input[pos] == PLUS) {
        Err(fault(pos, Expected::Sigil))
    } else {
        match parse_text(input, pos) {
            Err(f) => Err(f),
            Ok((text, consumed)) => Ok((Value::SimpleString(text), consumed)),
        }
    }
}

/// An error frame at `pos`.
pub open spec fn parse_error(input: Seq<u8>, pos: int) -> Result<(Value, nat), Fault> {
    if !(pos < input.len() && input[pos] == DASH) {
        Err(fault(pos, Expected::Sigil))
    } else {
        match parse_text(input, pos) {
            Err(f) => Err(f),
            Ok((text, consumed)) => Ok((Value::Error(text), consumed)),
        }
    }
}

/// An integer frame at `pos`: the sigil, an optional `-`, a run of at least
/// one digit and a terminator; the number has to fit 64 bits with a sign.
pub open spec fn parse_integer(input: Seq<u8>, pos: int) -> Result<(Value, nat), Fault> {
    if !(pos < input.len() && input[pos] == COLON) {
        Err(fault(pos, Expected::Sigil))
    } else {
        let negative = pos + 1 < input.len() && input[pos + 1] == MINUS;
        let start: int = if negative {
            pos + 2
        } else {
            pos + 1
        };
        let run = digit_run(input, start);
        let magnitude = digits_value(input.subrange(start, start + run));
        let number: int = if negative {
            -(magnitude as int)
        } else {
            magnitude as int
        };
        if run == 0 {
            Err(fault(start, Expected::Digit))
        } else if !terminator_at(input, start + run) {
            Err(fault(start + run, Expected::Terminator))
        } else if !(i64::MIN <= number <= i64::MAX) {
            Err(fault(pos + 1, Expected::Integer))
        } else {
            Ok((Value::Integer(number as i64), (start + run + 2 - pos) as nat))
        }
    }
}

/// The length field of the null bulk string, `-1` and a terminator, stands
/// at `pos`.
pub open spec fn null_length_at(input: Seq<u8>, pos: int) -> bool {
    &&& pos + 1 < input.len()
    &&& input[pos] == DASH
    &&& input[pos + 1] == ONE
    &&& terminator_at(input, pos + 2)
}

/// A bulk string frame at `pos`: the sigil and either the null length
/// field, or a length field, as many content bytes and a terminator.
pub open spec fn parse_bulk(input: Seq<u8>, pos: int) -> Result<(Value, nat), Fault> {
    if !(pos < input.len() && input[pos] == DOLLAR) {
        Err(fault(pos, Expected::Sigil))
    } else if null_length_at(input, pos + 1) {
        Ok((Value::BulkString(None), 5))
    } else {
        match parse_count(input, pos + 1) {
            Err(f) => Err(f),
            Ok((len, header)) => {
                let start = pos + 1 + header;
                if len > remaining(input, start) {
                    Err(fault(start, Expected::Content))
                } else if !terminator_at(input, start + len) {
                    Err(fault(start + len, Expected::Terminator))
                } else {
                    Ok(
                        (
                            Value::BulkString(Some(input.subrange(start, start + len))),
                            1 + header + len + 2,
                        ),
                    )
                }
            },
        }
    }
}

/// The header of an array frame at `pos`: the sigil and a count field,
/// whose count is no more than the bytes that follow can hold. Yields the
/// count.
pub open spec fn parse_array_header(input: Seq<u8>, pos: int) -> Result<(nat, nat), Fault> {
    if !(pos < input.len() && input[pos] == STAR) {
        Err(fault(pos, Expected::Sigil))
    } else {
        match parse_count(input, pos + 1) {
            Err(f) => Err(f),
            Ok((count, field)) => if count > remaining(input, pos + 1 + field) {
                Err(fault(pos + 1 + field, Expected::Element))
            } else {
                Ok((count, 1 + field))
            },
        }
    }
}

/// The count that the array frame at `pos` declares: what stands between
/// its sigil and the first terminator, read as a number, whatever follows.
/// A count beyond `usize`, which no input can hold, is a fault at the
/// place of the first element.
pub open spec fn parse_array_count(input: Seq<u8>, pos: int) -> Result<nat, Fault> {
    if !(pos < input.len() && input[pos] == STAR) {
        Err(fault(pos, Expected::Sigil))
    } else {
        match parse_count(input, pos + 1) {
            Err(f) => Err(f),
            Ok((count, field)) => if count > usize::MAX {
                Err(fault(pos + 1 + field, Expected::Element))
            } else {
                Ok(count)
            },
        }
    }
}

/// The frame of any value at `pos`, told by its sigil.
pub open spec fn parse_value(input: Seq<u8>, pos: int) -> Result<(Value, nat), Fault>
    decreases remaining(input, pos), 1nat, 0nat,
{
    if pos >= input.len() {
        Err(fault(pos, Expected::Sigil))
    } else if input[pos] == PLUS {
        parse_simple(input, pos)
    } else if input[pos] == DASH {
        parse_error(input, pos)
    } else if input[pos] == COLON {
        parse_integer(input, pos)
    } else if input[pos] == DOLLAR {
        parse_bulk(input, pos)
    } else if input[pos] == STAR {
        parse_array(input, pos)
    } else {
        Err(fault(pos, Expected::Sigil))
    }
}

/// An array frame at `pos`: the header, then as many frames as it counts.
pub open spec fn parse_array(input: Seq<u8>, pos: int) -> Result<(Value, nat), Fault>
    decreases remaining(input, pos), 0nat, 0nat,
{
    match parse_array_header(input, pos) {
        Err(f) => Err(f),
        Ok((count, header)) => match parse_items(input, pos + header, count) {
            Err(f) => Err(f),
            Ok((items, consumed)) => Ok((Value::Array(items), header + consumed)),
        },
    }
}

/// `count` frames in a row from `pos` on. The first frame that fails stops
/// the reading with its own fault.
pub open spec fn parse_items(input: Seq<u8>, pos: int, count: nat) -> Result<
    (Seq<Value>, nat),
    Fault,
>
    decreases remaining(input, pos), 2nat, count,
{
    if count == 0 {
        Ok((Seq::empty(), 0))
    } else {
        match parse_items(input, pos, (count - 1) as nat) {
            Err(f) => Err(f),
            Ok((items, consumed)) => match parse_value(input, pos + consumed) {
                Err(f) => Err(f),
                Ok((item, more)) => Ok((items.push(item), consumed + more)),
            },
        }
    }
}

/// The value of which the whole of `input` is the frame. Bytes after the
/// frame are a fault: the input holds one value and nothing else.
pub open spec fn parse(input: Seq<u8>) -> Result<Value, Fault> {
    match parse_value(input, 0) {
        Err(f) => Err(f),
        Ok((value, consumed)) => if consumed == input.len() {
            Ok(value)
        } else {
            Err(fault(consumed as int, Expected::End))
        },
    }
}

/// A run of digits ends within the input.
pub proof fn lemma_digit_run_bounds(input: Seq<u8>, pos: int)
    requires
        0 <= pos <= input.len(),
    ensures
        pos + digit_run(input, pos) <= input.len(),
    decreases remaining(input, pos),
{
    if pos < input.len() && is_digit(input[pos]) {
        lemma_digit_run_bounds(input, pos + 1);
    }
}

/// The first terminator found from `pos` on lies at or after `pos`, is a
/// terminator, and no terminator stands between `pos` and it.
pub proof fn lemma_find_terminator(input: Seq<u8>, pos: int)
    requires
        0 <= pos,
    ensures
        match find_terminator(input, pos) {
            Some(end) => pos <= end && terminator_at(input, end) && forall|i: int|
                pos <= i < end ==> !terminator_at(input, i),
            None => forall|i: int| pos <= i ==> !terminator_at(input, i),
        },
    decreases remaining(input, pos),
{
    if pos < input.len() && !terminator_at(input, pos) {
        lemma_find_terminator(input, pos + 1);
    }
}

/// A frame that is read lies within the input and is not empty.
pub proof fn lemma_value_bounds(input: Seq<u8>, pos: int)
    requires
        0 <= pos,
    ensures
        parse_value(input, pos) matches Ok((_, consumed)) ==> consumed >= 1 && pos + consumed
            <= input.len(),
    decreases remaining(input, pos), 1nat, 0nat,
{
    if pos < input.len() {
        let sigil = input[pos];
        if sigil == PLUS || sigil == DASH {
            lemma_find_terminator(input, pos + 1);
        } else if sigil == COLON {
            let negative = pos + 1 < input.len() && input[pos + 1] == MINUS;
            let start: int = if negative {
                pos + 2
            } else {
                pos + 1
            };
            lemma_digit_run_bounds(input, start);
        } else if sigil == DOLLAR {
            lemma_digit_run_bounds(input, pos + 1);
        } else if sigil == STAR {
            lemma_digit_run_bounds(input, pos + 1);
            if let Ok((count, header)) = parse_array_header(input, pos) {
                lemma_items_bounds(input, pos + header, count);
            }
        }
    }
}

/// Frames that are read in a row lie within the input, and each takes at
/// least one byte.
pub proof fn lemma_items_bounds(input: Seq<u8>, pos: int, count: nat)
    requires
        0 <= pos,
    ensures
        parse_items(input, pos, count) matches Ok((items, consumed)) ==> items.len() == count
            && consumed >= count && (count > 0 ==> pos + consumed <= input.len()),
    decreases remaining(input, pos), 2nat, count,
{
    if count > 0 {
        lemma_items_bounds(input, pos, (count - 1) as nat);
        if let Ok((_, consumed)) = parse_items(input, pos, (count - 1) as nat) {
            lemma_value_bounds(input, pos + consumed);
        }
    }
}

/// Once an element fails, the reading of any greater number of elements
/// fails with the same fault.
pub proof fn lemma_items_fault_stays(input: Seq<u8>, pos: int, failed: nat, count: nat)
    requires
        failed <= count,
        parse_items(input, pos, failed) is Err,
    ensures
        parse_items(input, pos, count) == parse_items(input, pos, failed),
    decreases count,
{
    if failed < count {
        lemma_items_fault_stays(input, pos, failed, (count - 1) as nat);
    }
}

} // verus!
