//! The parser: from a frame back to its value.
//!
//! The readers take the whole input and the position of the frame's sigil,
//! and hand back the value together with the position after the frame.
//! Each does what the grammar says of that position, faults included.

use vstd::prelude::*;
use vstd::slice::{slice_subrange, slice_to_vec};
use crate::decimal::{digits_value, MINUS, NINE, ZERO};
use crate::error::{Expected, Fault, RespError};
use crate::grammar::{
    digit_run, fault, find_terminator, lemma_items_fault_stays, lemma_value_bounds,
    null_length_at, parse, parse_array, parse_array_count, parse_array_header, parse_bulk,
    parse_count, parse_error, parse_integer, parse_items, parse_simple, parse_text, parse_value,
};
use crate::value::{lemma_values_of_push, terminator_at, values_of, Resp, Value, CR, LF};
use crate::wire::{COLON, DASH, DOLLAR, ONE, PLUS, STAR};

verus! {

/// `result` is what the grammar found at `pos`: a value that stands for
/// the same and the position after its frame, or an error that reports the
/// same fault.
pub open spec fn agrees(
    result: Result<(Resp, usize), RespError>,
    pos: int,
    found: Result<(Value, nat), Fault>,
) -> bool {
    match found {
        Ok((value, consumed)) => result matches Ok((resp, next)) && resp@ == value && next == pos
            + consumed,
        Err(f) => result matches Err(e) && e.reports(f),
    }
}

/// `n` as a `u64`, or `None` where it does not fit one.
pub open spec fn fitted(n: nat) -> Option<u64> {
    if n <= u64::MAX {
        Some(n as u64)
    } else {
        None
    }
}

/// The error for the token `expected` missing at `offset`.
fn malformed(offset: usize, expected: Expected) -> (e: RespError)
    ensures
        e.reports(fault(offset as int, expected)),
        e == (RespError::MalformedInput { offset, expected }),
{
    RespError::MalformedInput { offset, expected }
}

/// Tells whether the line terminator stands at `pos`.
fn terminator_here(input: &[u8], pos: usize) -> (found: bool)
    ensures
        found == terminator_at(input@, pos as int),
{
    pos < input.len() && input.len() - pos >= 2 && input[pos] == CR && input[pos + 1] == LF
}

/// Reads the run of digits at `pos`: the number it denotes, where a `u64`
/// holds it, and the position after it.
fn read_digits(input: &[u8], pos: usize) -> (r: (Option<u64>, usize))
    requires
        pos <= input.len(),
    ensures
        r.1 == pos + digit_run(input@, pos as int),
        r.1 <= input.len(),
        r.0 == fitted(digits_value(input@.subrange(pos as int, r.1 as int))),
{
    let mut value: Option<u64> = Some(0);
    let mut i: usize = pos;
    assert(input@.subrange(pos as int, pos as int) =~= Seq::<u8>::empty());
    while i < input.len() && ZERO <= input[i] && input[i] <= NINE
        invariant
            pos <= i <= input.len(),
            digit_run(input@, pos as int) == (i - pos) + digit_run(input@, i as int),
            value == fitted(digits_value(input@.subrange(pos as int, i as int))),
        decreases input.len() - i,
    {
        let digit: u64 = (input[i] - ZERO) as u64;
        proof {
            let longer = input@.subrange(pos as int, i + 1);
            assert(longer.drop_last() =~= input@.subrange(pos as int, i as int));
            assert(longer.last() == input@[i as int]);
        }
        value = match value {
            Some(above) if above <= (u64::MAX - digit) / 10 => Some(above * 10 + digit),
            _ => None,
        };
        i += 1;
    }
    (value, i)
}

/// Reads a length or count field at `pos`: the number, where a `u64` holds
/// it, and the position after the field's terminator.
fn read_count(input: &[u8], pos: usize) -> (result: Result<(Option<u64>, usize), RespError>)
    requires
        pos <= input.len(),
    ensures
        match parse_count(input@, pos as int) {
            Ok((n, consumed)) => result matches Ok((m, next)) && m == fitted(n) && next == pos
                + consumed && next <= input.len(),
            Err(f) => result matches Err(e) && e.reports(f),
        },
{
    let (value, end) = read_digits(input, pos);
    if end == pos {
        Err(malformed(pos, Expected::Digit))
    } else if !terminator_here(input, end) {
        Err(malformed(end, Expected::Terminator))
    } else {
        Ok((value, end + 2))
    }
}

/// Finds the first line terminator at or after `pos`.
fn scan_terminator(input: &[u8], pos: usize) -> (r: Option<usize>)
    requires
        pos <= input.len(),
    ensures
        match find_terminator(input@, pos as int) {
            Some(end) => r == Some(end as usize) && pos <= end && end + 2 <= input.len(),
            None => r is None,
        },
{
    let mut i: usize = pos;
    while i < input.len()
        invariant
            pos <= i <= input.len(),
            find_terminator(input@, pos as int) == find_terminator(input@, i as int),
        decreases input.len() - i,
    {
        if terminator_here(input, i) {
            return Some(i);
        }
        i += 1;
    }
    None
}

/// Reads the text of the frame whose sigil is at `pos`.
fn read_text(input: &[u8], pos: usize) -> (result: Result<(Vec<u8>, usize), RespError>)
    requires
        pos < input.len(),
    ensures
        match parse_text(input@, pos as int) {
            Ok((text, consumed)) => result matches Ok((bytes, next)) && bytes@ == text && next
                == pos + consumed && next <= input.len(),
            Err(f) => result matches Err(e) && e.reports(f),
        },
{
    match scan_terminator(input, pos + 1) {
        None => Err(malformed(input.len(), Expected::Terminator)),
        Some(end) => {
            let text = slice_to_vec(slice_subrange(input, pos + 1, end));
            Ok((text, end + 2))
        },
    }
}

/// Reads the simple string frame whose sigil is at `start`.
pub fn deserialize_simple(input: &[u8], start: usize) -> (result: Result<
    (Resp, usize),
    RespError,
>)
    ensures
        agrees(result, start as int, parse_simple(input@, start as int)),
{
    if start >= input.len() || input[start] != PLUS {
        return Err(malformed(start, Expected::Sigil));
    }
    match read_text(input, start) {
        Err(e) => Err(e),
        Ok((text, next)) => Ok((Resp::SimpleString(text), next)),
    }
}

/// Reads the error frame whose sigil is at `start`.
pub fn deserialize_error(input: &[u8], start: usize) -> (result: Result<(Resp, usize), RespError>)
    ensures
        agrees(result, start as int, parse_error(input@, start as int)),
{
    if start >= input.len() || input[start] != DASH {
        return Err(malformed(start, Expected::Sigil));
    }
    match read_text(input, start) {
        Err(e) => Err(e),
        Ok((text, next)) => Ok((Resp::Error(text), next)),
    }
}

/// Reads the integer frame whose sigil is at `start`.
pub fn deserialize_integer(input: &[u8], start: usize) -> (result: Result<
    (Resp, usize),
    RespError,
>)
    ensures
        agrees(result, start as int, parse_integer(input@, start as int)),
{
    if start >= input.len() || input[start] != COLON {
        return Err(malformed(start, Expected::Sigil));
    }
    let negative = input.len() - start >= 2 && input[start + 1] == MINUS;
    let first: usize = if negative {
        start + 2
    } else {
        start + 1
    };
    let (magnitude, end) = read_digits(input, first);
    if end == first {
        return Err(malformed(first, Expected::Digit));
    }
    if !terminator_here(input, end) {
        return Err(malformed(end, Expected::Terminator));
    }
    let least: u64 = 0x8000_0000_0000_0000;
    match magnitude {
        Some(m) if negative && m == least => Ok((Resp::Integer(i64::MIN), end + 2)),
        Some(m) if negative && m < least => Ok((Resp::Integer(-(m as i64)), end + 2)),
        Some(m) if !negative && m < least => Ok((Resp::Integer(m as i64), end + 2)),
        _ => Err(malformed(start + 1, Expected::Integer)),
    }
}

/// Tells whether the length field of the null bulk string stands at `pos`.
fn null_length_here(input: &[u8], pos: usize) -> (found: bool)
    requires
        pos <= input.len(),
    ensures
        found == null_length_at(input@, pos as int),
{
    input.len() - pos >= 4 && input[pos] == DASH && input[pos + 1] == ONE && terminator_here(
        input,
        pos + 2,
    )
}

/// Reads the bulk string frame whose sigil is at `start`.
///
/// The length field counts the content's bytes exactly: with fewer bytes
/// left, or without a terminator right after that many, there is no frame.
pub fn deserialize_bulk(input: &[u8], start: usize) -> (result: Result<(Resp, usize), RespError>)
    ensures
        agrees(result, start as int, parse_bulk(input@, start as int)),
{
    if start >= input.len() || input[start] != DOLLAR {
        return Err(malformed(start, Expected::Sigil));
    }
    if null_length_here(input, start + 1) {
        return Ok((Resp::BulkString(None), start + 5));
    }
    match read_count(input, start + 1) {
        Err(e) => Err(e),
        Ok((declared, first)) => {
            let len: usize = match declared {
                Some(n) if n <= (input.len() - first) as u64 => n as usize,
                _ => {
                    return Err(malformed(first, Expected::Content));
                },
            };
            if !terminator_here(input, first + len) {
                return Err(malformed(first + len, Expected::Terminator));
            }
            let content = slice_to_vec(slice_subrange(input, first, first + len));
            Ok((Resp::BulkString(Some(content)), first + len + 2))
        },
    }
}

/// Reads the header of the array frame whose sigil is at `start`: the
/// count and the position of the first element.
fn read_array_header(input: &[u8], start: usize) -> (result: Result<(usize, usize), RespError>)
    ensures
        match parse_array_header(input@, start as int) {
            Ok((count, header)) => result matches Ok((n, first)) && n == count && first == start
                + header && first <= input.len() && n <= input.len() - first,
            Err(f) => result matches Err(e) && e.reports(f),
        },
{
    if start >= input.len() || input[start] != STAR {
        return Err(malformed(start, Expected::Sigil));
    }
    match read_count(input, start + 1) {
        Err(e) => Err(e),
        Ok((declared, first)) => match declared {
            Some(n) if n <= (input.len() - first) as u64 => Ok((n as usize, first)),
            _ => Err(malformed(first, Expected::Element)),
        },
    }
}

/// The number of elements that the array frame at `start` declares: what
/// its count field reads as, whatever follows the header.
///
/// A count beyond `usize` is more than any input holds. It is refused as
/// the array reader refuses it, at the place of the first element.
pub fn get_resp_array_size(input: &[u8], start: usize) -> (result: Result<usize, RespError>)
    ensures
        match parse_array_count(input@, start as int) {
            Ok(count) => result matches Ok(n) && n == count,
            Err(f) => result matches Err(e) && e.reports(f),
        },
{
    if start >= input.len() || input[start] != STAR {
        return Err(malformed(start, Expected::Sigil));
    }
    match read_count(input, start + 1) {
        Err(e) => Err(e),
        Ok((declared, first)) => match declared {
            Some(n) if n <= usize::MAX as u64 => Ok(n as usize),
            _ => Err(malformed(first, Expected::Element)),
        },
    }
}

/// Reads the array frame whose sigil is at `start`: the header, then one
/// frame after the other until the count is reached.
pub fn deserialize_array(input: &[u8], start: usize) -> (result: Result<(Resp, usize), RespError>)
    ensures
        agrees(result, start as int, parse_array(input@, start as int)),
    decreases input.len() - start, 0nat,
{
    let (count, first) = match read_array_header(input, start) {
        Err(e) => {
            return Err(e);
        },
        Ok(header) => header,
    };
    let mut items: Vec<Resp> = Vec::new();
    let mut pos: usize = first;
    let mut i: usize = 0;
    while i < count
        invariant
            i <= count,
            start < first <= pos <= input.len(),
            parse_array_header(input@, start as int) == Ok::<(nat, nat), Fault>(
                (count as nat, (first - start) as nat),
            ),
            parse_items(input@, first as int, i as nat) == Ok::<(Seq<Value>, nat), Fault>(
                (values_of(items@), (pos - first) as nat),
            ),
        decreases count - i,
    {
        match deserialize_at(input, pos) {
            Err(e) => {
                proof {
                    assert(parse_items(input@, first as int, (i + 1) as nat) is Err);
                    lemma_items_fault_stays(input@, first as int, (i + 1) as nat, count as nat);
                }
                return Err(e);
            },
            Ok((item, next)) => {
                proof {
                    lemma_values_of_push(items@, item);
                    lemma_value_bounds(input@, pos as int);
                }
                items.push(item);
                pos = next;
            },
        }
        i += 1;
    }
    Ok((Resp::Array(items), pos))
}

/// Reads the frame whose sigil is at `start`, whatever its type.
///
/// The input may go on after the frame: the position handed back is where
/// the next frame would start.
pub fn deserialize_at(input: &[u8], start: usize) -> (result: Result<(Resp, usize), RespError>)
    ensures
        agrees(result, start as int, parse_value(input@, start as int)),
    decreases input.len() - start, 1nat,
{
    if start >= input.len() {
        return Err(malformed(start, Expected::Sigil));
    }
    let sigil: u8 = input[start];
    if sigil == PLUS {
        deserialize_simple(input, start)
    } else if sigil == DASH {
        deserialize_error(input, start)
    } else if sigil == COLON {
        deserialize_integer(input, start)
    } else if sigil == DOLLAR {
        deserialize_bulk(input, start)
    } else if sigil == STAR {
        deserialize_array(input, start)
    } else {
        Err(malformed(start, Expected::Sigil))
    }
}

/// Parses `input` as the frame of one value.
///
/// The whole input has to be the frame: a sigil that is none of the five,
/// a field that is no number, a length or count beyond the bytes that are
/// there, a missing terminator and bytes left over after the value are all
/// reported as `MalformedInput`, with the offset and the missing token.
pub fn deserialize(input: &[u8]) -> (result: Result<Resp, RespError>)
    ensures
        match parse(input@) {
            Ok(value) => result matches Ok(resp) && resp@ == value,
            Err(f) => result matches Err(e) && e.reports(f),
        },
{
    match deserialize_at(input, 0) {
        Err(e) => Err(e),
        Ok((resp, next)) => {
            if next == input.len() {
                Ok(resp)
            } else {
                Err(malformed(next, Expected::End))
            }
        },
    }
}

} // verus!
