use resp_codec::{
    deserialize, deserialize_array, deserialize_at, deserialize_bulk, deserialize_error,
    deserialize_integer, deserialize_simple, get_resp_array_size, serialize, serialize_array,
    Expected, Resp, RespError,
};

fn text(s: &str) -> Vec<u8> {
    s.as_bytes().to_vec()
}

fn malformed(offset: usize, expected: Expected) -> RespError {
    RespError::MalformedInput { offset, expected }
}

fn nested() -> Resp {
    Resp::Array(vec![
        Resp::SimpleString(text("OK")),
        Resp::Array(vec![
            Resp::Integer(-7),
            Resp::Array(vec![
                Resp::BulkString(None),
                Resp::BulkString(Some(text(""))),
                Resp::Array(vec![]),
                Resp::Error(text("ERR deep")),
            ]),
        ]),
        Resp::BulkString(Some(text("line\r\nbreak"))),
    ])
}

#[test]
fn round_trip_of_every_variant() {
    let values = vec![
        Resp::SimpleString(text("OK")),
        Resp::SimpleString(text("")),
        Resp::SimpleString(text("lone \r and \n are text")),
        Resp::Error(text("ERR unknown command")),
        Resp::Integer(0),
        Resp::Integer(42),
        Resp::Integer(-42),
        Resp::Integer(i64::MAX),
        Resp::Integer(i64::MIN),
        Resp::BulkString(None),
        Resp::BulkString(Some(text(""))),
        Resp::BulkString(Some(text("Hello world!"))),
        Resp::BulkString(Some(vec![0, 255, 13, 10, 36, 42])),
        Resp::Array(vec![]),
        nested(),
    ];
    for value in values {
        let bytes = serialize(&value).unwrap();
        assert_eq!(deserialize(&bytes), Ok(value));
    }
}

#[test]
fn nesting_of_depth_three_is_kept() {
    let value = Resp::Array(vec![Resp::Array(vec![Resp::Array(vec![Resp::Integer(1)])])]);
    let bytes = serialize(&value).unwrap();
    assert_eq!(bytes, "*1\r\n*1\r\n*1\r\n:1\r\n".as_bytes());
    assert_eq!(deserialize(&bytes), Ok(value));
    let bytes = serialize(&nested()).unwrap();
    assert_eq!(deserialize(&bytes), Ok(nested()));
}

#[test]
fn null_and_empty_bulk_strings_differ() {
    let null = Resp::BulkString(None);
    let empty = Resp::BulkString(Some(text("")));
    assert_ne!(null, empty);
    assert_eq!(serialize(&null).unwrap(), "$-1\r\n".as_bytes());
    assert_eq!(serialize(&empty).unwrap(), "$0\r\n\r\n".as_bytes());
    assert_eq!(deserialize("$-1\r\n".as_bytes()), Ok(null));
    assert_eq!(deserialize("$0\r\n\r\n".as_bytes()), Ok(empty));
}

#[test]
fn parse_of_empty_array() {
    assert_eq!(deserialize("*0\r\n".as_bytes()), Ok(Resp::Array(vec![])));
}

#[test]
fn length_field_counts_the_bytes() {
    let content = "h\u{e9}llo".as_bytes().to_vec();
    assert_eq!(content.len(), 6);
    let bytes = serialize(&Resp::BulkString(Some(content.clone()))).unwrap();
    assert_eq!(bytes, "$6\r\nh\u{e9}llo\r\n".as_bytes());
    assert_eq!(deserialize(&bytes), Ok(Resp::BulkString(Some(content))));
    let long = vec![b'x'; 1234];
    let bytes = serialize(&Resp::BulkString(Some(long))).unwrap();
    assert_eq!(&bytes[..7], "$1234\r\n".as_bytes());
    assert_eq!(bytes.len(), 7 + 1234 + 2);
}

#[test]
fn length_mismatch_is_rejected() {
    assert_eq!(
        deserialize("$5\r\nHi\r\n".as_bytes()),
        Err(malformed(4, Expected::Content))
    );
    assert_eq!(
        deserialize("$3\r\nHello\r\n".as_bytes()),
        Err(malformed(7, Expected::Terminator))
    );
    assert_eq!(
        deserialize("$7\r\nHello\r\n".as_bytes()),
        Err(malformed(11, Expected::Terminator))
    );
    assert_eq!(
        deserialize("$6\r\nHello\r\n".as_bytes()),
        Err(malformed(10, Expected::Terminator))
    );
    assert_eq!(
        deserialize("$0\r\n\r\n\r\n".as_bytes()),
        Err(malformed(6, Expected::End))
    );
}

#[test]
fn every_truncation_of_a_frame_is_rejected() {
    let bytes = serialize(&nested()).unwrap();
    for cut in 0..bytes.len() {
        assert!(matches!(
            deserialize(&bytes[..cut]),
            Err(RespError::MalformedInput { .. })
        ));
    }
    assert_eq!(deserialize(&bytes), Ok(nested()));
}

#[test]
fn integers_are_signed_numerals() {
    assert_eq!(serialize(&Resp::Integer(0)).unwrap(), ":0\r\n".as_bytes());
    assert_eq!(serialize(&Resp::Integer(7)).unwrap(), ":7\r\n".as_bytes());
    assert_eq!(serialize(&Resp::Integer(1000)).unwrap(), ":1000\r\n".as_bytes());
    assert_eq!(serialize(&Resp::Integer(-42)).unwrap(), ":-42\r\n".as_bytes());
    assert_eq!(
        serialize(&Resp::Integer(i64::MAX)).unwrap(),
        ":9223372036854775807\r\n".as_bytes()
    );
    assert_eq!(
        serialize(&Resp::Integer(i64::MIN)).unwrap(),
        ":-9223372036854775808\r\n".as_bytes()
    );
    assert_eq!(deserialize(":1000\r\n".as_bytes()), Ok(Resp::Integer(1000)));
    assert_eq!(deserialize(":-42\r\n".as_bytes()), Ok(Resp::Integer(-42)));
    assert_eq!(
        deserialize(":-9223372036854775808\r\n".as_bytes()),
        Ok(Resp::Integer(i64::MIN))
    );
    assert_eq!(
        deserialize(":9223372036854775807\r\n".as_bytes()),
        Ok(Resp::Integer(i64::MAX))
    );
}

#[test]
fn leading_zeros_count_for_nothing() {
    assert_eq!(
        deserialize("$05\r\nHello\r\n".as_bytes()),
        Ok(Resp::BulkString(Some(text("Hello"))))
    );
    assert_eq!(deserialize(":007\r\n".as_bytes()), Ok(Resp::Integer(7)));
    assert_eq!(deserialize(":-0\r\n".as_bytes()), Ok(Resp::Integer(0)));
    assert_eq!(deserialize("*00\r\n".as_bytes()), Ok(Resp::Array(vec![])));
}

#[test]
fn integer_out_of_range_is_rejected() {
    assert_eq!(
        deserialize(":9223372036854775808\r\n".as_bytes()),
        Err(malformed(1, Expected::Integer))
    );
    assert_eq!(
        deserialize(":-9223372036854775809\r\n".as_bytes()),
        Err(malformed(1, Expected::Integer))
    );
    assert_eq!(
        deserialize(":18446744073709551615\r\n".as_bytes()),
        Err(malformed(1, Expected::Integer))
    );
    assert_eq!(
        deserialize(":99999999999999999999999999999\r\n".as_bytes()),
        Err(malformed(1, Expected::Integer))
    );
}

#[test]
fn bad_sigil_is_rejected() {
    assert_eq!(deserialize("".as_bytes()), Err(malformed(0, Expected::Sigil)));
    assert_eq!(
        deserialize("?what\r\n".as_bytes()),
        Err(malformed(0, Expected::Sigil))
    );
    assert_eq!(
        deserialize("*2\r\n+a\r\n".as_bytes()),
        Err(malformed(8, Expected::Sigil))
    );
    assert_eq!(
        deserialize("*1\r\nHello\r\n".as_bytes()),
        Err(malformed(4, Expected::Sigil))
    );
}

#[test]
fn bad_number_field_is_rejected() {
    assert_eq!(
        deserialize("$\r\n".as_bytes()),
        Err(malformed(1, Expected::Digit))
    );
    assert_eq!(
        deserialize("$-2\r\n".as_bytes()),
        Err(malformed(1, Expected::Digit))
    );
    assert_eq!(
        deserialize("$-1".as_bytes()),
        Err(malformed(1, Expected::Digit))
    );
    assert_eq!(
        deserialize("*-1\r\n".as_bytes()),
        Err(malformed(1, Expected::Digit))
    );
    assert_eq!(
        deserialize(":\r\n".as_bytes()),
        Err(malformed(1, Expected::Digit))
    );
    assert_eq!(
        deserialize(":-\r\n".as_bytes()),
        Err(malformed(2, Expected::Digit))
    );
    assert_eq!(
        deserialize(":+5\r\n".as_bytes()),
        Err(malformed(1, Expected::Digit))
    );
    assert_eq!(
        deserialize("$5x\r\nHello\r\n".as_bytes()),
        Err(malformed(2, Expected::Terminator))
    );
    assert_eq!(
        deserialize(":12a\r\n".as_bytes()),
        Err(malformed(3, Expected::Terminator))
    );
}

#[test]
fn missing_terminator_is_rejected() {
    assert_eq!(
        deserialize("+OK".as_bytes()),
        Err(malformed(3, Expected::Terminator))
    );
    assert_eq!(
        deserialize("-ERR\r".as_bytes()),
        Err(malformed(5, Expected::Terminator))
    );
    assert_eq!(
        deserialize("$5\r\nHello".as_bytes()),
        Err(malformed(9, Expected::Terminator))
    );
    assert_eq!(
        deserialize("$5\r\nHello\r".as_bytes()),
        Err(malformed(9, Expected::Terminator))
    );
    assert_eq!(
        deserialize("*1".as_bytes()),
        Err(malformed(2, Expected::Terminator))
    );
    assert_eq!(
        deserialize(":5\n".as_bytes()),
        Err(malformed(2, Expected::Terminator))
    );
}

#[test]
fn count_beyond_the_input_is_rejected() {
    assert_eq!(
        deserialize("*3\r\n+a".as_bytes()),
        Err(malformed(4, Expected::Element))
    );
    assert_eq!(
        deserialize("*1\r\n".as_bytes()),
        Err(malformed(4, Expected::Element))
    );
    assert_eq!(
        deserialize("*99999999999999999999999999\r\n+a\r\n".as_bytes()),
        Err(malformed(29, Expected::Element))
    );
    assert_eq!(
        deserialize("$99999999999999999999999999\r\nabc\r\n".as_bytes()),
        Err(malformed(29, Expected::Content))
    );
    assert_eq!(
        deserialize("$18446744073709551616\r\nabc\r\n".as_bytes()),
        Err(malformed(23, Expected::Content))
    );
}

#[test]
fn bytes_after_the_value_are_rejected() {
    assert_eq!(
        deserialize("$-1\r\nX".as_bytes()),
        Err(malformed(5, Expected::End))
    );
    assert_eq!(
        deserialize("+OK\r\n+OK\r\n".as_bytes()),
        Err(malformed(5, Expected::End))
    );
    assert_eq!(
        deserialize("*0\r\n$-1\r\n".as_bytes()),
        Err(malformed(4, Expected::End))
    );
}

#[test]
fn text_ends_at_the_first_terminator() {
    assert_eq!(
        deserialize("+a\rb\nc\r\n".as_bytes()),
        Ok(Resp::SimpleString(text("a\rb\nc")))
    );
    assert_eq!(
        deserialize("-a\r\r\n".as_bytes()),
        Ok(Resp::Error(text("a\r")))
    );
    assert_eq!(
        deserialize("+a\r\nb\r\n".as_bytes()),
        Err(malformed(4, Expected::End))
    );
    assert_eq!(
        deserialize_at("+a\r\nb\r\n".as_bytes(), 0),
        Ok((Resp::SimpleString(text("a")), 4))
    );
}

#[test]
fn text_with_a_terminator_has_no_frame() {
    assert_eq!(
        serialize(&Resp::SimpleString(text("a\r\nb"))),
        Err(RespError::InvalidValue)
    );
    assert_eq!(
        serialize(&Resp::Error(text("\r\n"))),
        Err(RespError::InvalidValue)
    );
    assert_eq!(
        serialize(&Resp::Array(vec![
            Resp::Integer(1),
            Resp::Array(vec![Resp::Error(text("bad\r\n"))]),
        ])),
        Err(RespError::InvalidValue)
    );
    assert_eq!(
        serialize_array(&vec![Resp::SimpleString(text("x\r\n"))]),
        Err(RespError::InvalidValue)
    );
    assert_eq!(
        serialize(&Resp::SimpleString(text("a\rb\n"))).unwrap(),
        "+a\rb\n\r\n".as_bytes()
    );
    assert_eq!(
        serialize(&Resp::BulkString(Some(text("a\r\nb")))).unwrap(),
        "$4\r\na\r\nb\r\n".as_bytes()
    );
}

#[test]
fn array_frame_is_count_then_elements() {
    let elements = vec![
        Resp::Integer(1),
        Resp::SimpleString(text("two")),
        Resp::BulkString(None),
    ];
    let bytes = serialize_array(&elements).unwrap();
    assert_eq!(bytes, "*3\r\n:1\r\n+two\r\n$-1\r\n".as_bytes());
    assert_eq!(serialize(&Resp::Array(elements)).unwrap(), bytes);
    assert_eq!(serialize_array(&vec![]).unwrap(), "*0\r\n".as_bytes());
    let twelve: Vec<Resp> = (0..12).map(Resp::Integer).collect();
    let bytes = serialize_array(&twelve).unwrap();
    assert_eq!(&bytes[..5], "*12\r\n".as_bytes());
    assert_eq!(deserialize(&bytes), Ok(Resp::Array(twelve)));
}

#[test]
fn frames_are_read_where_they_stand() {
    let input = "+OK\r\n$-1\r\n*2\r\n:5\r\n-no\r\n$3\r\nabc\r\n".as_bytes();
    assert_eq!(
        deserialize_at(input, 0),
        Ok((Resp::SimpleString(text("OK")), 5))
    );
    assert_eq!(deserialize_simple(input, 0), deserialize_at(input, 0));
    assert_eq!(deserialize_at(input, 5), Ok((Resp::BulkString(None), 10)));
    assert_eq!(deserialize_bulk(input, 5), deserialize_at(input, 5));
    assert_eq!(
        deserialize_at(input, 10),
        Ok((
            Resp::Array(vec![Resp::Integer(5), Resp::Error(text("no"))]),
            23
        ))
    );
    assert_eq!(deserialize_array(input, 10), deserialize_at(input, 10));
    assert_eq!(deserialize_integer(input, 14), Ok((Resp::Integer(5), 18)));
    assert_eq!(
        deserialize_error(input, 18),
        Ok((Resp::Error(text("no")), 23))
    );
    assert_eq!(
        deserialize_bulk(input, 23),
        Ok((Resp::BulkString(Some(text("abc"))), 32))
    );
    assert_eq!(
        deserialize_at(input, 32),
        Err(malformed(32, Expected::Sigil))
    );
    assert_eq!(
        deserialize_at(input, 1000),
        Err(malformed(1000, Expected::Sigil))
    );
}

#[test]
fn typed_readers_ask_for_their_sigil() {
    let input = "+OK\r\n".as_bytes();
    assert_eq!(deserialize_bulk(input, 0), Err(malformed(0, Expected::Sigil)));
    assert_eq!(deserialize_array(input, 0), Err(malformed(0, Expected::Sigil)));
    assert_eq!(deserialize_error(input, 0), Err(malformed(0, Expected::Sigil)));
    assert_eq!(
        deserialize_integer(input, 0),
        Err(malformed(0, Expected::Sigil))
    );
    assert_eq!(
        deserialize_simple("-ERR\r\n".as_bytes(), 0),
        Err(malformed(0, Expected::Sigil))
    );
    assert_eq!(deserialize_bulk(input, 9), Err(malformed(9, Expected::Sigil)));
    assert_eq!(
        get_resp_array_size(input, 0),
        Err(malformed(0, Expected::Sigil))
    );
}

#[test]
fn array_size_is_the_declared_count() {
    assert_eq!(get_resp_array_size("*0\r\n".as_bytes(), 0), Ok(0));
    assert_eq!(get_resp_array_size("*2\r\n:1\r\n:2\r\n".as_bytes(), 0), Ok(2));
    assert_eq!(
        get_resp_array_size("+OK\r\n*1\r\n$-1\r\n".as_bytes(), 5),
        Ok(1)
    );
    assert_eq!(
        get_resp_array_size("*x\r\n".as_bytes(), 0),
        Err(malformed(1, Expected::Digit))
    );
    assert_eq!(
        get_resp_array_size("*2\n".as_bytes(), 0),
        Err(malformed(2, Expected::Terminator))
    );
}

#[test]
fn array_size_does_not_depend_on_what_follows() {
    assert_eq!(get_resp_array_size("*5\r\n".as_bytes(), 0), Ok(5));
    assert_eq!(get_resp_array_size("*5\r\n:1\r\n".as_bytes(), 0), Ok(5));
    assert_eq!(get_resp_array_size("*5\r\nwhatever".as_bytes(), 0), Ok(5));
    assert_eq!(get_resp_array_size("*007\r\n".as_bytes(), 0), Ok(7));
    assert_eq!(
        get_resp_array_size("*1000000\r\n".as_bytes(), 0),
        Ok(1000000)
    );
    let greatest = format!("*{}\r\n", usize::MAX);
    assert_eq!(get_resp_array_size(greatest.as_bytes(), 0), Ok(usize::MAX));
    assert_eq!(
        deserialize_array("*5\r\n:1\r\n".as_bytes(), 0),
        Err(malformed(4, Expected::Element))
    );
}

#[test]
fn array_size_beyond_the_machine_is_rejected() {
    let beyond = format!("*{}\r\n", usize::MAX as u128 + 1);
    assert_eq!(
        get_resp_array_size(beyond.as_bytes(), 0),
        Err(malformed(beyond.len(), Expected::Element))
    );
    assert_eq!(
        get_resp_array_size("*18446744073709551616\r\n".as_bytes(), 0),
        Err(malformed(23, Expected::Element))
    );
    assert_eq!(
        get_resp_array_size("*99999999999999999999999999\r\n+a\r\n".as_bytes(), 0),
        Err(malformed(29, Expected::Element))
    );
    assert_eq!(
        deserialize_array("*99999999999999999999999999\r\n+a\r\n".as_bytes(), 0),
        Err(malformed(29, Expected::Element))
    );
}

#[test]
fn same_input_same_output() {
    let input = "*2\r\n$5\r\nHello\r\n$5\r\nWorld\r\n".as_bytes();
    assert_eq!(deserialize(input), deserialize(input));
    assert_eq!(serialize(&nested()), serialize(&nested()));
}
