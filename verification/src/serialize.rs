//! The serializer: from a value to its frame.

use vstd::prelude::*;
use crate::decimal::{push_decimal, push_signed_decimal};
use crate::error::RespError;
use crate::value::{
    contains_terminator, has_terminator, lemma_array_well_formed, lemma_values_of, values_of, Resp,
    Value, CR, LF,
};
use crate::wire::{crlf, frame, frames, COLON, DASH, DOLLAR, ONE, PLUS, STAR};

verus! {

/// Appends the bytes of `bytes` to `out`.
fn push_bytes(out: &mut Vec<u8>, bytes: &[u8])
    ensures
        final(out)@ == old(out)@ + bytes@,
{
    let mut i: usize = 0;
    while i < bytes.len()
        invariant
            i <= bytes.len(),
            out@ == old(out)@ + bytes@.take(i as int),
        decreases bytes.len() - i,
    {
        out.push(bytes[i]);
        i += 1;
    }
    assert(bytes@.take(i as int) =~= bytes@);
}

/// Appends the line terminator to `out`.
fn push_terminator(out: &mut Vec<u8>)
    ensures
        final(out)@ == old(out)@ + crlf(),
{
    out.push(CR);
    out.push(LF);
}

/// Appends a text frame to `out`: `sigil`, `text` and a terminator, unless
/// `text` holds a terminator of its own.
fn write_text(out: &mut Vec<u8>, sigil: u8, text: &[u8]) -> (result: Result<(), RespError>)
    ensures
        match result {
            Ok(_) => !has_terminator(text@) && final(out)@ == old(out)@ + (seq![sigil] + text@
                + crlf()),
            Err(e) => has_terminator(text@) && e == RespError::InvalidValue,
        },
{
    if contains_terminator(text) {
        return Err(RespError::InvalidValue);
    }
    out.push(sigil);
    push_bytes(out, text);
    push_terminator(out);
    Ok(())
}

/// Appends the frame of `resp` to `out`; fails, with `out` in no
/// particular state, where `resp` has no frame.
fn write_value(out: &mut Vec<u8>, resp: &Resp) -> (result: Result<(), RespError>)
    ensures
        match result {
            Ok(_) => resp@.well_formed() && final(out)@ == old(out)@ + frame(resp@),
            Err(e) => !resp@.well_formed() && e == RespError::InvalidValue,
        },
    decreases resp, 1nat,
{
    match resp {
        Resp::SimpleString(text) => write_text(out, PLUS, text.as_slice()),
        Resp::Error(text) => write_text(out, DASH, text.as_slice()),
        Resp::Integer(n) => {
            out.push(COLON);
            push_signed_decimal(out, *n);
            push_terminator(out);
            Ok(())
        },
        Resp::BulkString(None) => {
            out.push(DOLLAR);
            out.push(DASH);
            out.push(ONE);
            push_terminator(out);
            assert(out@ =~= old(out)@ + frame(resp@));
            Ok(())
        },
        Resp::BulkString(Some(content)) => {
            out.push(DOLLAR);
            push_decimal(out, content.len() as u64);
            push_terminator(out);
            push_bytes(out, content.as_slice());
            push_terminator(out);
            assert(out@ =~= old(out)@ + frame(resp@));
            Ok(())
        },
        Resp::Array(items) => write_array(out, items),
    }
}

/// Appends the frame of the array of `elements` to `out`; fails, with
/// `out` in no particular state, where an element has no frame.
fn write_array(out: &mut Vec<u8>, elements: &Vec<Resp>) -> (result: Result<(), RespError>)
    ensures
        match result {
            Ok(_) => array_of(elements).well_formed() && final(out)@ == old(out)@ + frame(
                array_of(elements),
            ),
            Err(e) => !array_of(elements).well_formed() && e == RespError::InvalidValue,
        },
    decreases elements, 0nat,
{
    let ghost items = values_of(elements@);
    proof {
        lemma_values_of(elements@);
    }
    out.push(STAR);
    push_decimal(out, elements.len() as u64);
    push_terminator(out);
    let ghost head = out@;
    let mut i: usize = 0;
    while i < elements.len()
        invariant
            i <= elements.len(),
            items == values_of(elements@),
            items.len() == elements.len(),
            forall|j: int| 0 <= j < items.len() ==> (#[trigger] items[j]) == elements[j]@,
            forall|j: int| 0 <= j < i ==> (#[trigger] items[j]).well_formed(),
            out@ == head + frames(items.take(i as int)),
        decreases elements.len() - i,
    {
        match write_value(out, &elements[i]) {
            Ok(()) => {},
            Err(e) => {
                proof {
                    lemma_array_well_formed(items);
                    assert(!items[i as int].well_formed());
                }
                return Err(e);
            },
        }
        proof {
            let next = items.take(i + 1);
            assert(next.drop_last() =~= items.take(i as int));
            assert(next.last() == items[i as int]);
        }
        i += 1;
    }
    proof {
        lemma_array_well_formed(items);
        assert(items.take(i as int) =~= items);
        assert(out@ =~= old(out)@ + frame(array_of(elements)));
    }
    Ok(())
}

/// The array value whose elements are the values of `elements`.
pub open spec fn array_of(elements: &Vec<Resp>) -> Value {
    Value::Array(values_of(elements@))
}

/// Serializes `resp` into its frame.
///
/// Every value has a frame except one in which a simple string or an error
/// text holds the line terminator: that one is refused as `InvalidValue`.
pub fn serialize(resp: &Resp) -> (result: Result<Vec<u8>, RespError>)
    ensures
        match result {
            Ok(bytes) => resp@.well_formed() && bytes@ == frame(resp@),
            Err(e) => !resp@.well_formed() && e == RespError::InvalidValue,
        },
{
    let mut out: Vec<u8> = Vec::new();
    match write_value(&mut out, resp) {
        Ok(()) => Ok(out),
        Err(e) => Err(e),
    }
}

/// Serializes the array whose elements are `elements` into its frame: the
/// count field, then the frame of each element in order.
pub fn serialize_array(elements: &Vec<Resp>) -> (result: Result<Vec<u8>, RespError>)
    ensures
        match result {
            Ok(bytes) => array_of(elements).well_formed() && bytes@ == frame(array_of(elements)),
            Err(e) => !array_of(elements).well_formed() && e == RespError::InvalidValue,
        },
{
    let mut out: Vec<u8> = Vec::new();
    match write_array(&mut out, elements) {
        Ok(()) => Ok(out),
        Err(e) => Err(e),
    }
}

} // verus!
