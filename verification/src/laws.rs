//! The laws of the codec: what holds between frames and the grammar for
//! every value.

use vstd::prelude::*;
use crate::decimal::{
    all_digits, decimal, is_digit, lemma_decimal_digits, lemma_decimal_value, MINUS,
};
use crate::error::Fault;
use crate::grammar::{
    digit_run, find_terminator, lemma_digit_run_bounds, lemma_find_terminator, null_length_at,
    parse, parse_array_count, parse_array_header, parse_bulk, parse_count, parse_integer,
    parse_items, parse_text, parse_value, remaining,
};
use crate::value::{has_terminator, lemma_array_well_formed, terminator_at, Value};
use crate::wire::{crlf, frame, frames, COLON, DASH, DOLLAR, PLUS, STAR};

verus! {

/// `part` stands in `input` from `pos` on.
pub open spec fn stands_at(input: Seq<u8>, pos: int, part: Seq<u8>) -> bool {
    &&& 0 <= pos
    &&& pos + part.len() <= input.len()
    &&& input.subrange(pos, pos + part.len()) == part
}

/// Where two parts stand one after the other, each stands at its place.
proof fn lemma_stands_split(input: Seq<u8>, pos: int, first: Seq<u8>, second: Seq<u8>)
    requires
        stands_at(input, pos, first + second),
    ensures
        stands_at(input, pos, first),
        stands_at(input, pos + first.len(), second),
{
    let whole = input.subrange(pos, pos + (first + second).len());
    assert forall|i: int| 0 <= i < first.len() implies input[pos + i] == first[i] by {
        assert(whole[i] == (first + second)[i]);
    }
    assert forall|i: int| 0 <= i < second.len() implies input[pos + first.len() + i]
        == second[i] by {
        assert(whole[first.len() + i] == (first + second)[first.len() + i]);
    }
    assert(input.subrange(pos, pos + first.len()) =~= first);
    assert(input.subrange(pos + first.len(), pos + first.len() + second.len()) =~= second);
}

/// The byte at index `i` of a part that stands at `pos` is the input's
/// byte at `pos + i`.
proof fn lemma_stands_byte(input: Seq<u8>, pos: int, part: Seq<u8>, i: int)
    requires
        stands_at(input, pos, part),
        0 <= i < part.len(),
    ensures
        input[pos + i] == part[i],
{
    assert(input.subrange(pos, pos + part.len())[i] == part[i]);
}

/// A terminator that stands at `pos` is seen there.
proof fn lemma_stands_terminator(input: Seq<u8>, pos: int)
    requires
        stands_at(input, pos, crlf()),
    ensures
        terminator_at(input, pos),
{
    lemma_stands_byte(input, pos, crlf(), 0);
    lemma_stands_byte(input, pos, crlf(), 1);
}

/// A string of digits that stands at `pos` and is followed by anything but
/// a digit is the run of digits at `pos`.
proof fn lemma_digit_run_exact(input: Seq<u8>, pos: int, digits: Seq<u8>)
    requires
        stands_at(input, pos, digits),
        all_digits(digits),
        pos + digits.len() == input.len() || !is_digit(input[pos + digits.len()]),
    ensures
        digit_run(input, pos) == digits.len(),
    decreases digits.len(),
{
    if digits.len() > 0 {
        lemma_stands_byte(input, pos, digits, 0);
        assert(digits.take(1) + digits.skip(1) =~= digits);
        lemma_stands_split(input, pos, digits.take(1), digits.skip(1));
        lemma_digit_run_exact(input, pos + 1, digits.skip(1));
    }
}

/// The numeral of `n` and a terminator, standing at `pos`, are read as the
/// count `n`.
proof fn lemma_count_field(input: Seq<u8>, pos: int, n: nat)
    requires
        stands_at(input, pos, decimal(n) + crlf()),
    ensures
        parse_count(input, pos) == Ok::<(nat, nat), Fault>((n, decimal(n).len() + 2)),
{
    let digits = decimal(n);
    lemma_decimal_digits(n);
    lemma_decimal_value(n);
    lemma_stands_split(input, pos, digits, crlf());
    lemma_stands_terminator(input, pos + digits.len());
    lemma_digit_run_exact(input, pos, digits);
}

/// The terminator at `end` is the first from `from` on where none stands
/// before it.
proof fn lemma_find_terminator_exact(input: Seq<u8>, from: int, end: int)
    requires
        0 <= from <= end,
        terminator_at(input, end),
        forall|i: int| from <= i < end ==> !terminator_at(input, i),
    ensures
        find_terminator(input, from) == Some(end),
    decreases end - from,
{
    if from < end {
        lemma_find_terminator_exact(input, from + 1, end);
    }
}

/// A text without a terminator, standing after the sigil at `pos` and
/// followed by a terminator, is read whole.
proof fn lemma_text_field(input: Seq<u8>, pos: int, text: Seq<u8>)
    requires
        0 <= pos,
        stands_at(input, pos + 1, text + crlf()),
        !has_terminator(text),
    ensures
        parse_text(input, pos) == Ok::<(Seq<u8>, nat), Fault>((text, text.len() + 3)),
{
    let start = pos + 1;
    let end = start + text.len();
    lemma_stands_split(input, start, text, crlf());
    lemma_stands_terminator(input, end);
    assert forall|i: int| start <= i < end implies !terminator_at(input, i) by {
        lemma_stands_byte(input, start, text, i - start);
        if i + 1 < end {
            lemma_stands_byte(input, start, text, i + 1 - start);
            if terminator_at(input, i) {
                assert(terminator_at(text, i - start));
            }
        }
    }
    lemma_find_terminator_exact(input, start, end);
}

/// Every frame starts with a sigil, so none is empty.
pub proof fn lemma_frame_not_empty(value: Value)
    ensures
        frame(value).len() >= 1,
{
}

/// The frames of `items` take at least one byte an item.
pub proof fn lemma_frames_len(items: Seq<Value>)
    ensures
        frames(items).len() >= items.len(),
    decreases items.len(),
{
    if items.len() > 0 {
        lemma_frames_len(items.drop_last());
        lemma_frame_not_empty(items.last());
    }
}

/// Locality of the round trip: wherever the frame of a well-formed value
/// stands in an input, the grammar reads that value there and consumes
/// exactly the frame.
pub proof fn lemma_frame_parses(value: Value, input: Seq<u8>, pos: int)
    requires
        value.well_formed(),
        stands_at(input, pos, frame(value)),
    ensures
        parse_value(input, pos) == Ok::<(Value, nat), Fault>((value, frame(value).len())),
    decreases value,
{
    lemma_stands_byte(input, pos, frame(value), 0);
    match value {
        Value::SimpleString(text) => {
            assert(frame(value) =~= seq![PLUS] + (text + crlf()));
            lemma_stands_split(input, pos, seq![PLUS], text + crlf());
            lemma_text_field(input, pos, text);
        },
        Value::Error(text) => {
            assert(frame(value) =~= seq![DASH] + (text + crlf()));
            lemma_stands_split(input, pos, seq![DASH], text + crlf());
            lemma_text_field(input, pos, text);
        },
        Value::Integer(n) => {
            lemma_integer_parses(n, input, pos);
        },
        Value::BulkString(None) => {
            lemma_stands_byte(input, pos, frame(value), 1);
            lemma_stands_byte(input, pos, frame(value), 2);
            lemma_stands_byte(input, pos, frame(value), 3);
            lemma_stands_byte(input, pos, frame(value), 4);
        },
        Value::BulkString(Some(content)) => {
            lemma_bulk_parses(content, input, pos);
        },
        Value::Array(items) => {
            let count = decimal(items.len());
            let header = seq![STAR] + count + crlf();
            lemma_decimal_digits(items.len());
            lemma_frames_len(items);
            lemma_array_well_formed(items);
            lemma_stands_split(input, pos, header, frames(items));
            assert(header =~= seq![STAR] + (count + crlf()));
            lemma_stands_split(input, pos, seq![STAR], count + crlf());
            lemma_count_field(input, pos + 1, items.len());
            lemma_frames_parse(items, input, pos + header.len());
        },
    }
}

/// The frame of the integer `n`, standing at `pos`, is read as `n`.
proof fn lemma_integer_parses(n: i64, input: Seq<u8>, pos: int)
    requires
        stands_at(input, pos, frame(Value::Integer(n))),
    ensures
        parse_integer(input, pos) == Ok::<(Value, nat), Fault>(
            (Value::Integer(n), frame(Value::Integer(n)).len()),
        ),
{
    let whole = frame(Value::Integer(n));
    let magnitude: nat = if n < 0 {
        (-n) as nat
    } else {
        n as nat
    };
    let digits = decimal(magnitude);
    lemma_decimal_digits(magnitude);
    lemma_decimal_value(magnitude);
    lemma_stands_byte(input, pos, whole, 0);
    lemma_stands_byte(input, pos, whole, 1);
    let start: int = if n < 0 {
        pos + 2
    } else {
        pos + 1
    };
    if n < 0 {
        assert(whole =~= seq![COLON, MINUS] + (digits + crlf()));
        lemma_stands_split(input, pos, seq![COLON, MINUS], digits + crlf());
    } else {
        assert(whole =~= seq![COLON] + (digits + crlf()));
        lemma_stands_split(input, pos, seq![COLON], digits + crlf());
        assert(whole[1] == digits[0]);
        assert(is_digit(digits[0]));
    }
    lemma_stands_split(input, start, digits, crlf());
    lemma_stands_terminator(input, start + digits.len());
    lemma_digit_run_exact(input, start, digits);
}

/// The frame of a bulk string with the content `content`, standing at
/// `pos`, is read as that bulk string.
proof fn lemma_bulk_parses(content: Seq<u8>, input: Seq<u8>, pos: int)
    requires
        stands_at(input, pos, frame(Value::BulkString(Some(content)))),
    ensures
        parse_bulk(input, pos) == Ok::<(Value, nat), Fault>(
            (
                Value::BulkString(Some(content)),
                frame(Value::BulkString(Some(content))).len(),
            ),
        ),
{
    let whole = frame(Value::BulkString(Some(content)));
    let length = decimal(content.len());
    lemma_decimal_digits(content.len());
    lemma_stands_byte(input, pos, whole, 0);
    lemma_stands_byte(input, pos, whole, 1);
    assert(whole[1] == length[0]);
    assert(is_digit(length[0]));
    assert(whole =~= seq![DOLLAR] + ((length + crlf()) + (content + crlf())));
    lemma_stands_split(input, pos, seq![DOLLAR], (length + crlf()) + (content + crlf()));
    lemma_stands_split(input, pos + 1, length + crlf(), content + crlf());
    lemma_count_field(input, pos + 1, content.len());
    let start = pos + 1 + length.len() + 2;
    lemma_stands_split(input, start, content, crlf());
    lemma_stands_terminator(input, start + content.len());
}

/// Wherever the frames of well-formed values stand in a row, the grammar
/// reads those values there, one after the other.
pub proof fn lemma_frames_parse(items: Seq<Value>, input: Seq<u8>, pos: int)
    requires
        forall|i: int| 0 <= i < items.len() ==> (#[trigger] items[i]).well_formed(),
        stands_at(input, pos, frames(items)),
    ensures
        parse_items(input, pos, items.len()) == Ok::<(Seq<Value>, nat), Fault>(
            (items, frames(items).len()),
        ),
    decreases items,
{
    if items.len() == 0 {
        assert(items =~= Seq::<Value>::empty());
    } else {
        let front = items.drop_last();
        let last = items.last();
        lemma_stands_split(input, pos, frames(front), frame(last));
        lemma_frames_parse(front, input, pos);
        lemma_frame_parses(last, input, pos + frames(front).len());
        assert(front.push(last) =~= items);
    }
}

/// Round trip: the frame of a well-formed value parses, as a whole input,
/// to that value.
pub proof fn law_round_trip(value: Value)
    requires
        value.well_formed(),
    ensures
        parse(frame(value)) == Ok::<Value, Fault>(value),
{
    let input = frame(value);
    assert(input.subrange(0, input.len() as int) =~= input);
    lemma_frame_parses(value, input, 0);
}

/// No two well-formed values share a frame. So the null bulk string and
/// the empty one, which differ, differ on the wire too.
pub proof fn law_frames_differ(one: Value, other: Value)
    requires
        one.well_formed(),
        other.well_formed(),
        frame(one) == frame(other),
    ensures
        one == other,
{
    law_round_trip(one);
    law_round_trip(other);
}

/// Length honesty, on the way out: the length field in the frame of a bulk
/// string reads as the number of bytes of its content.
pub proof fn law_length_field(content: Seq<u8>)
    ensures
        frame(Value::BulkString(Some(content))) == seq![DOLLAR] + decimal(content.len()) + crlf()
            + content + crlf(),
        parse_count(frame(Value::BulkString(Some(content))), 1) == Ok::<(nat, nat), Fault>(
            (content.len(), decimal(content.len()).len() + 2),
        ),
{
    let whole = frame(Value::BulkString(Some(content)));
    let field = decimal(content.len()) + crlf();
    assert(whole.subrange(0, whole.len() as int) =~= whole);
    assert(whole =~= seq![DOLLAR] + (field + (content + crlf())));
    lemma_stands_split(whole, 0, seq![DOLLAR], field + (content + crlf()));
    lemma_stands_split(whole, 1, field, content + crlf());
    lemma_count_field(whole, 1, content.len());
}

/// Length honesty, on the way in: a bulk string frame whose length field
/// declares another number of bytes than stand before its last terminator
/// is no frame.
pub proof fn law_length_mismatch(declared: nat, content: Seq<u8>)
    requires
        declared != content.len(),
    ensures
        parse(seq![DOLLAR] + decimal(declared) + crlf() + content + crlf()) is Err,
{
    let input = seq![DOLLAR] + decimal(declared) + crlf() + content + crlf();
    let field = decimal(declared) + crlf();
    lemma_decimal_digits(declared);
    assert(input.subrange(0, input.len() as int) =~= input);
    assert(input =~= seq![DOLLAR] + (field + (content + crlf())));
    lemma_stands_split(input, 0, seq![DOLLAR], field + (content + crlf()));
    lemma_stands_split(input, 1, field, content + crlf());
    lemma_count_field(input, 1, declared);
    lemma_stands_byte(input, 1, field, 0);
    assert(is_digit(decimal(declared)[0]));
    assert(!null_length_at(input, 1));
}

/// `longer` starts with the bytes of `input`.
pub open spec fn extends(longer: Seq<u8>, input: Seq<u8>) -> bool {
    &&& input.len() <= longer.len()
    &&& forall|i: int| 0 <= i < input.len() ==> longer[i] == input[i]
}

/// A run of digits that ends before the input does is the same run in
/// every longer input.
proof fn lemma_digit_run_extends(input: Seq<u8>, longer: Seq<u8>, pos: int)
    requires
        extends(longer, input),
        0 <= pos,
        pos + digit_run(input, pos) < input.len(),
    ensures
        digit_run(longer, pos) == digit_run(input, pos),
    decreases remaining(input, pos),
{
    if pos < input.len() && is_digit(input[pos]) {
        lemma_digit_run_extends(input, longer, pos + 1);
    }
}

/// A terminator that is found is found at the same place in every longer
/// input.
proof fn lemma_find_terminator_extends(input: Seq<u8>, longer: Seq<u8>, pos: int)
    requires
        extends(longer, input),
        0 <= pos,
        find_terminator(input, pos) is Some,
    ensures
        find_terminator(longer, pos) == find_terminator(input, pos),
{
    let end = find_terminator(input, pos)->0;
    lemma_find_terminator(input, pos);
    assert forall|i: int| pos <= i < end implies !terminator_at(longer, i) by {
        if terminator_at(longer, i) {
            assert(terminator_at(input, i));
        }
    }
    lemma_find_terminator_exact(longer, pos, end);
}

/// A count field that is read is read the same in every longer input.
proof fn lemma_count_extends(input: Seq<u8>, longer: Seq<u8>, pos: int)
    requires
        extends(longer, input),
        0 <= pos,
        parse_count(input, pos) is Ok,
    ensures
        parse_count(longer, pos) == parse_count(input, pos),
{
    let run = digit_run(input, pos);
    lemma_digit_run_extends(input, longer, pos);
    assert(longer.subrange(pos, pos + run) =~= input.subrange(pos, pos + run));
}

/// A frame that is read is read the same in every longer input: the
/// grammar looks at no byte after the frame.
pub proof fn lemma_value_extends(input: Seq<u8>, longer: Seq<u8>, pos: int)
    requires
        extends(longer, input),
        0 <= pos,
        parse_value(input, pos) is Ok,
    ensures
        parse_value(longer, pos) == parse_value(input, pos),
    decreases remaining(input, pos), 1nat, 0nat,
{
    let sigil = input[pos];
    if sigil == PLUS || sigil == DASH {
        let end = find_terminator(input, pos + 1)->0;
        lemma_find_terminator(input, pos + 1);
        lemma_find_terminator_extends(input, longer, pos + 1);
        assert(longer.subrange(pos + 1, end) =~= input.subrange(pos + 1, end));
    } else if sigil == COLON {
        let negative = pos + 1 < input.len() && input[pos + 1] == MINUS;
        let start: int = if negative {
            pos + 2
        } else {
            pos + 1
        };
        let run = digit_run(input, start);
        lemma_digit_run_extends(input, longer, start);
        assert(longer.subrange(start, start + run) =~= input.subrange(start, start + run));
    } else if sigil == DOLLAR {
        if !null_length_at(input, pos + 1) {
            lemma_count_extends(input, longer, pos + 1);
            let (len, header) = parse_count(input, pos + 1)->Ok_0;
            let start = pos + 1 + header;
            assert(longer.subrange(start, start + len) =~= input.subrange(start, start + len));
        }
    } else if sigil == STAR {
        lemma_count_extends(input, longer, pos + 1);
        let (count, header) = parse_array_header(input, pos)->Ok_0;
        lemma_items_extends(input, longer, pos + header, count);
    }
}

/// Frames that are read in a row are read the same in every longer input.
pub proof fn lemma_items_extends(input: Seq<u8>, longer: Seq<u8>, pos: int, count: nat)
    requires
        extends(longer, input),
        0 <= pos,
        parse_items(input, pos, count) is Ok,
    ensures
        parse_items(longer, pos, count) == parse_items(input, pos, count),
    decreases remaining(input, pos), 2nat, count,
{
    if count > 0 {
        lemma_items_extends(input, longer, pos, (count - 1) as nat);
        let (_, consumed) = parse_items(input, pos, (count - 1) as nat)->Ok_0;
        lemma_value_extends(input, longer, pos + consumed);
    }
}

/// Truncation: a frame cut short anywhere is no frame.
pub proof fn law_truncated_frame_fails(value: Value, cut: int)
    requires
        value.well_formed(),
        0 <= cut < frame(value).len(),
    ensures
        parse(frame(value).take(cut)) is Err,
{
    let whole = frame(value);
    let short = whole.take(cut);
    if parse(short) is Ok {
        lemma_value_extends(short, whole, 0);
        law_round_trip(value);
    }
}

/// A text that is read holds no terminator: it ends at the first one.
proof fn lemma_text_read_is_well_formed(input: Seq<u8>, pos: int)
    requires
        0 <= pos,
        parse_text(input, pos) is Ok,
    ensures
        !has_terminator(parse_text(input, pos)->Ok_0.0),
{
    let end = find_terminator(input, pos + 1)->0;
    let text = input.subrange(pos + 1, end);
    lemma_find_terminator(input, pos + 1);
    assert forall|i: int| !terminator_at(text, i) by {
        if terminator_at(text, i) {
            assert(text[i] == input[pos + 1 + i]);
            assert(text[i + 1] == input[pos + 1 + i + 1]);
            assert(terminator_at(input, pos + 1 + i));
        }
    }
}

/// Whatever value the grammar reads at a position is well formed.
pub proof fn lemma_value_read_is_well_formed(input: Seq<u8>, pos: int)
    requires
        0 <= pos,
        parse_value(input, pos) is Ok,
    ensures
        parse_value(input, pos)->Ok_0.0.well_formed(),
    decreases remaining(input, pos), 1nat, 0nat,
{
    let sigil = input[pos];
    if sigil == PLUS || sigil == DASH {
        lemma_text_read_is_well_formed(input, pos);
    } else if sigil == STAR {
        let (count, header) = parse_array_header(input, pos)->Ok_0;
        lemma_items_read_are_well_formed(input, pos + header, count);
        lemma_array_well_formed(parse_items(input, pos + header, count)->Ok_0.0);
    }
}

/// Whatever values the grammar reads in a row are well formed.
pub proof fn lemma_items_read_are_well_formed(input: Seq<u8>, pos: int, count: nat)
    requires
        0 <= pos,
        parse_items(input, pos, count) is Ok,
    ensures
        forall|i: int|
            0 <= i < parse_items(input, pos, count)->Ok_0.0.len() ==> (#[trigger] parse_items(
                input,
                pos,
                count,
            )->Ok_0.0[i]).well_formed(),
    decreases remaining(input, pos), 2nat, count,
{
    if count > 0 {
        lemma_items_read_are_well_formed(input, pos, (count - 1) as nat);
        let (_, consumed) = parse_items(input, pos, (count - 1) as nat)->Ok_0;
        lemma_value_read_is_well_formed(input, pos + consumed);
    }
}

/// What parses can be serialized: every value that the grammar yields is
/// well formed, so it has a frame, and that frame parses to it again.
pub proof fn law_parsed_value_has_frame(input: Seq<u8>)
    requires
        parse(input) is Ok,
    ensures
        parse(input)->Ok_0.well_formed(),
        parse(frame(parse(input)->Ok_0)) == parse(input),
{
    lemma_value_read_is_well_formed(input, 0);
    law_round_trip(parse(input)->Ok_0);
}

/// The declared size of an array does not depend on what follows the
/// header: inputs that are the same up to the header's end declare the
/// same size, or fail with the same fault.
pub proof fn law_array_size_ignores_the_rest(input: Seq<u8>, other: Seq<u8>, pos: int)
    requires
        0 <= pos,
        parse_count(input, pos + 1) is Ok,
        extends(other, input.take(pos + 1 + parse_count(input, pos + 1)->Ok_0.1)),
    ensures
        parse_array_count(other, pos) == parse_array_count(input, pos),
{
    let end = pos + 1 + parse_count(input, pos + 1)->Ok_0.1;
    let header = input.take(end);
    lemma_header_count(input, pos, end);
    lemma_count_extends(header, other, pos + 1);
}

/// The count field of an array header reads the same in the header alone.
proof fn lemma_header_count(input: Seq<u8>, pos: int, end: int)
    requires
        0 <= pos,
        parse_count(input, pos + 1) is Ok,
        end == pos + 1 + parse_count(input, pos + 1)->Ok_0.1,
    ensures
        end <= input.len(),
        parse_count(input.take(end), pos + 1) == parse_count(input, pos + 1),
{
    let header = input.take(end);
    let run = digit_run(input, pos + 1);
    lemma_digit_run_bounds(input, pos + 1);
    lemma_digit_run_within(input, header, pos + 1);
    assert(header.subrange(pos + 1, pos + 1 + run) =~= input.subrange(pos + 1, pos + 1 + run));
}

/// A run of digits that ends before a prefix of the input does is the
/// same run in the prefix.
proof fn lemma_digit_run_within(input: Seq<u8>, prefix: Seq<u8>, pos: int)
    requires
        extends(input, prefix),
        0 <= pos,
        pos + digit_run(input, pos) < prefix.len(),
    ensures
        digit_run(prefix, pos) == digit_run(input, pos),
    decreases remaining(input, pos),
{
    if pos < input.len() && is_digit(input[pos]) {
        lemma_digit_run_within(input, prefix, pos + 1);
    }
}

/// Where the array reader accepts a header, the declared size is the count
/// that it goes on to read; where the declared size is refused, the array
/// reader refuses the header with the same fault.
pub proof fn law_array_size_is_the_count_read(input: Seq<u8>, pos: int)
    requires
        input.len() <= usize::MAX,
    ensures
        parse_array_header(input, pos) matches Ok((count, _)) ==> parse_array_count(input, pos)
            == Ok::<nat, Fault>(count),
        parse_array_count(input, pos) is Err ==> parse_array_header(input, pos) is Err
            && parse_array_header(input, pos)->Err_0 == parse_array_count(input, pos)->Err_0,
{
}

} // verus!
