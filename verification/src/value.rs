//! The value model: what a protocol value is, in memory and in mathematics.

use vstd::prelude::*;

verus! {

/// Carriage return, the first byte of the line terminator.
pub const CR: u8 = 13;

/// Line feed, the second byte of the line terminator.
pub const LF: u8 = 10;

/// A protocol value as it is held in memory.
///
/// Texts and bulk contents are bytes: the wire is binary-safe and its
/// length fields count bytes.
#[derive(Debug, PartialEq, Eq)]
pub enum Resp {
    /// A short status text.
    SimpleString(Vec<u8>),
    /// An error text; on the wire it differs from a simple string by its sigil.
    Error(Vec<u8>),
    /// A signed 64-bit number.
    Integer(i64),
    /// A length-prefixed string, or `None` for the null bulk string.
    BulkString(Option<Vec<u8>>),
    /// A sequence of values, possibly empty, nested to any depth.
    Array(Vec<Resp>),
}

/// The mathematical value that a [`Resp`] stands for.
pub enum Value {
    /// A status text.
    SimpleString(Seq<u8>),
    /// An error text.
    Error(Seq<u8>),
    /// A signed 64-bit number.
    Integer(i64),
    /// The content of a bulk string, or `None` for the null bulk string.
    BulkString(Option<Seq<u8>>),
    /// The elements of an array, in their order.
    Array(Seq<Value>),
}

impl Resp {
    /// The value that this stands for: the same variant, with the contents
    /// of each buffer and the values of the elements of an array.
    pub open spec fn value(self) -> Value
        decreases self,
    {
        match self {
            Resp::SimpleString(text) => Value::SimpleString(text@),
            Resp::Error(text) => Value::Error(text@),
            Resp::Integer(n) => Value::Integer(n),
            Resp::BulkString(None) => Value::BulkString(None),
            Resp::BulkString(Some(content)) => Value::BulkString(Some(content@)),
            Resp::Array(items) => Value::Array(values_of(items@)),
        }
    }
}

impl View for Resp {
    type V = Value;

    open spec fn view(&self) -> Value {
        self.value()
    }
}

/// The values of `elements`, in their order.
pub open spec fn values_of(elements: Seq<Resp>) -> Seq<Value>
    decreases elements,
{
    if elements.len() == 0 {
        Seq::empty()
    } else {
        values_of(elements.drop_last()).push(elements.last().value())
    }
}

/// `values_of` keeps the length and maps each element to its value.
pub proof fn lemma_values_of(elements: Seq<Resp>)
    ensures
        values_of(elements).len() == elements.len(),
        forall|i: int|
            0 <= i < elements.len() ==> (#[trigger] values_of(elements)[i]) == elements[i]@,
    decreases elements.len(),
{
    if elements.len() > 0 {
        lemma_values_of(elements.drop_last());
    }
}

/// The values of a sequence with one more element at its end.
pub proof fn lemma_values_of_push(elements: Seq<Resp>, last: Resp)
    ensures
        values_of(elements.push(last)) == values_of(elements).push(last@),
{
    assert(elements.push(last).drop_last() =~= elements);
}

/// The line terminator stands at index `i` of `bytes`.
pub open spec fn terminator_at(bytes: Seq<u8>, i: int) -> bool {
    0 <= i && i + 1 < bytes.len() && bytes[i] == CR && bytes[i + 1] == LF
}

/// The line terminator occurs somewhere in `bytes`.
pub open spec fn has_terminator(bytes: Seq<u8>) -> bool {
    exists|i: int| terminator_at(bytes, i)
}

impl Value {
    /// The value has a frame: no simple string and no error text in it holds
    /// the line terminator.
    pub open spec fn well_formed(self) -> bool
        decreases self,
    {
        match self {
            Value::SimpleString(text) => !has_terminator(text),
            Value::Error(text) => !has_terminator(text),
            Value::Integer(_) => true,
            Value::BulkString(_) => true,
            Value::Array(items) => forall|i: int|
                0 <= i < items.len() ==> (#[trigger] items[i]).well_formed(),
        }
    }
}

/// An array is well formed exactly when each of its elements is.
pub proof fn lemma_array_well_formed(items: Seq<Value>)
    ensures
        Value::Array(items).well_formed() <==> forall|i: int|
            0 <= i < items.len() ==> (#[trigger] items[i]).well_formed(),
{
    let array = Value::Array(items);
    assert(array->Array_0 == items);
    if array.well_formed() {
        assert(forall|i: int| 0 <= i < items.len() ==> (#[trigger] items[i]).well_formed());
    }
    if forall|i: int| 0 <= i < items.len() ==> (#[trigger] items[i]).well_formed() {
        assert(array.well_formed());
    }
}

/// Tells whether the line terminator occurs in `bytes`.
pub fn contains_terminator(bytes: &[u8]) -> (found: bool)
    ensures
        found == has_terminator(bytes@),
{
    if bytes.len() < 2 {
        return false;
    }
    let last: usize = bytes.len() - 1;
    let mut i: usize = 0;
    while i < last
        invariant
            last + 1 == bytes.len(),
            i <= last,
            forall|j: int| 0 <= j < i ==> !terminator_at(bytes@, j),
        decreases last - i,
    {
        if bytes[i] == CR && bytes[i + 1] == LF {
            assert(terminator_at(bytes@, i as int));
            return true;
        }
        i += 1;
    }
    false
}

} // verus!
