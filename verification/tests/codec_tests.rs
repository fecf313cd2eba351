use crache::decimal::{parse_decimal, push_decimal, push_length};
use crache::resp::{decode, Resp, Value};
use crache::wire::{DecodeError, MAX_DEPTH};

fn bulk(s: &str) -> Value {
    Value::BulkString(Some(s.as_bytes().to_vec()))
}

fn decimal(n: i64) -> Vec<u8> {
    let mut out = Vec::new();
    push_decimal(n, &mut out);
    out
}

fn nested(depth: usize) -> Vec<u8> {
    let mut bytes = Vec::new();
    for _ in 0..depth {
        bytes.extend_from_slice(b"*1\r\n");
    }
    bytes.extend_from_slice(b":7\r\n");
    bytes
}

fn samples() -> Vec<Value> {
    vec![
        Value::SimpleString(b"OK".to_vec()),
        Value::SimpleString(vec![]),
        Value::SimpleString(b"ends with a return\r".to_vec()),
        Value::SimpleString(b"\nlone feeds\n and returns \r inside".to_vec()),
        Value::Error(b"ERR something went wrong".to_vec()),
        Value::Integer(0),
        Value::Integer(-1),
        Value::Integer(42),
        Value::Integer(i64::MAX),
        Value::Integer(i64::MIN),
        Value::BulkString(None),
        Value::BulkString(Some(vec![])),
        bulk("hello"),
        Value::BulkString(Some(b"binary \r\n safe \x00\xff".to_vec())),
        Value::Array(None),
        Value::Array(Some(vec![])),
        Value::Array(Some(vec![bulk("SET"), bulk("key"), bulk("value")])),
        Value::Array(Some(vec![
            Value::Array(Some(vec![Value::Integer(1), Value::Array(None)])),
            Value::BulkString(None),
            Value::Error(b"e".to_vec()),
            Value::Array(Some(vec![Value::Array(Some(vec![Value::Array(Some(vec![]))]))])),
        ])),
    ]
}

#[test]
fn decoding_an_encoding_gives_the_value_back() {
    for value in samples() {
        let bytes = value.marshal();
        assert_eq!(decode(&bytes), Ok((value.clone(), bytes.len())), "{:?}", value);

        // whatever follows the value is left alone
        let mut longer = bytes.clone();
        longer.extend_from_slice(b"+next\r\n");
        assert_eq!(decode(&longer), Ok((value.clone(), bytes.len())), "{:?}", value);
    }
}

#[test]
fn a_clone_is_equal_to_its_source() {
    for value in samples() {
        let copy = value.clone();
        assert_eq!(copy, value);
        assert_eq!(copy.marshal(), value.marshal());
    }
    let items = vec![Value::Integer(1), bulk("two"), Value::Array(Some(vec![Value::Array(None)]))];
    assert_eq!(Value::clone_all(&items), items);
}

#[test]
fn encoding_a_decoded_canonical_input_gives_the_bytes_back() {
    let inputs: Vec<&[u8]> = vec![
        b"+OK\r\n",
        b"-ERR unknown command 'FOO'\r\n",
        b":0\r\n",
        b":-9223372036854775808\r\n",
        b":9223372036854775807\r\n",
        b"$-1\r\n",
        b"$0\r\n\r\n",
        b"$12\r\nhello\r\nworld\r\n",
        b"*-1\r\n",
        b"*0\r\n",
        b"*3\r\n$3\r\nSET\r\n$3\r\nkey\r\n$5\r\nvalue\r\n",
        b"*2\r\n*2\r\n+Hello\r\n+World\r\n$5\r\nAhmed\r\n",
    ];
    for input in inputs {
        let (value, used) = decode(input).unwrap();
        assert_eq!(used, input.len());
        assert_eq!(value.marshal(), input);
    }
}

#[test]
fn integers_out_of_canonical_form_are_read_and_written_canonically() {
    assert_eq!(decode(b":+5\r\n"), Ok((Value::Integer(5), 5)));
    assert_eq!(decode(b":007\r\n"), Ok((Value::Integer(7), 6)));
    assert_eq!(decode(b":-0\r\n"), Ok((Value::Integer(0), 5)));
    assert_eq!(decode(b"$+5\r\nhello\r\n"), Ok((bulk("hello"), 12)));
    assert_eq!(decode(b"$05\r\nhello\r\n"), Ok((bulk("hello"), 12)));
    assert_eq!(decode(b"*01\r\n:1\r\n"), Ok((Value::Array(Some(vec![Value::Integer(1)])), 9)));
    assert_eq!(decode(b"$-01\r\n"), Ok((Value::BulkString(None), 6)));
    assert_eq!(decode(b"*-01\r\n"), Ok((Value::Array(None), 6)));

    assert_eq!(decode(b":+5\r\n").unwrap().0.marshal(), b":5\r\n");
    assert_eq!(decode(b":007\r\n").unwrap().0.marshal(), b":7\r\n");
    assert_eq!(decode(b"$05\r\nhello\r\n").unwrap().0.marshal(), b"$5\r\nhello\r\n");
}

#[test]
fn null_is_not_empty() {
    let null = decode(b"$-1\r\n").unwrap().0;
    let empty = decode(b"$0\r\n\r\n").unwrap().0;
    assert_eq!(null, Value::BulkString(None));
    assert_eq!(empty, Value::BulkString(Some(vec![])));
    assert_ne!(null, empty);

    let null = decode(b"*-1\r\n").unwrap().0;
    let empty = decode(b"*0\r\n").unwrap().0;
    assert_eq!(null, Value::Array(None));
    assert_eq!(empty, Value::Array(Some(vec![])));
    assert_ne!(null, empty);
}

#[test]
fn a_non_numeric_integer_is_a_protocol_error() {
    assert_eq!(decode(b"*1\r\n:abc\r\n"), Err(DecodeError::Protocol));
    assert_eq!(decode(b":abc\r\n"), Err(DecodeError::Protocol));
    assert_eq!(decode(b":\r\n"), Err(DecodeError::Protocol));
    assert_eq!(decode(b":-\r\n"), Err(DecodeError::Protocol));
    assert_eq!(decode(b":+\r\n"), Err(DecodeError::Protocol));
    assert_eq!(decode(b": 5\r\n"), Err(DecodeError::Protocol));
    assert_eq!(decode(b":5 \r\n"), Err(DecodeError::Protocol));
    assert_eq!(decode(b":5\n\r\n"), Err(DecodeError::Protocol));
    assert_eq!(decode(b":1-2\r\n"), Err(DecodeError::Protocol));
    assert_eq!(decode(b":--1\r\n"), Err(DecodeError::Protocol));
    assert_eq!(decode(b":9223372036854775808\r\n"), Err(DecodeError::Protocol));
    assert_eq!(decode(b":-9223372036854775809\r\n"), Err(DecodeError::Protocol));
    assert_eq!(decode(b":99999999999999999999999999\r\n"), Err(DecodeError::Protocol));
    assert_eq!(decode(b"$abc\r\n"), Err(DecodeError::Protocol));
    assert_eq!(decode(b"*x\r\n"), Err(DecodeError::Protocol));
}

#[test]
fn malformed_input_is_a_protocol_error() {
    assert_eq!(decode(b"?0\r\n"), Err(DecodeError::Protocol));
    assert_eq!(decode(b"\r\n"), Err(DecodeError::Protocol));
    assert_eq!(decode(b"hello"), Err(DecodeError::Protocol));
    assert_eq!(decode(b"$-2\r\n"), Err(DecodeError::Protocol));
    assert_eq!(decode(b"*-2\r\n"), Err(DecodeError::Protocol));
    // the bytes after the content are not a line terminator
    assert_eq!(decode(b"$5\r\nhelloXY"), Err(DecodeError::Protocol));
    assert_eq!(decode(b"$5\r\nhello\n\r"), Err(DecodeError::Protocol));
    assert_eq!(decode(b"$5\r\nhello world\r\n"), Err(DecodeError::Protocol));
    assert_eq!(decode(b"$3\r\nhello\r\n"), Err(DecodeError::Protocol));
    // an error inside an array is the array's error
    assert_eq!(decode(b"*2\r\n:1\r\n?\r\n"), Err(DecodeError::Protocol));
}

#[test]
fn input_that_ends_early_is_incomplete() {
    assert_eq!(decode(b""), Err(DecodeError::Incomplete));
    assert_eq!(decode(b"+"), Err(DecodeError::Incomplete));
    assert_eq!(decode(b"+OK"), Err(DecodeError::Incomplete));
    assert_eq!(decode(b"+OK\r"), Err(DecodeError::Incomplete));
    assert_eq!(decode(b"-ERR"), Err(DecodeError::Incomplete));
    assert_eq!(decode(b":12"), Err(DecodeError::Incomplete));
    assert_eq!(decode(b":12a"), Err(DecodeError::Incomplete));
    assert_eq!(decode(b"$"), Err(DecodeError::Incomplete));
    assert_eq!(decode(b"$5"), Err(DecodeError::Incomplete));
    assert_eq!(decode(b"$5\r\n"), Err(DecodeError::Incomplete));
    assert_eq!(decode(b"$5\r\nhel"), Err(DecodeError::Incomplete));
    assert_eq!(decode(b"$5\r\nhello"), Err(DecodeError::Incomplete));
    assert_eq!(decode(b"$5\r\nhello\r"), Err(DecodeError::Incomplete));
    assert_eq!(decode(b"$9223372036854775807\r\nabc"), Err(DecodeError::Incomplete));
    assert_eq!(decode(b"*"), Err(DecodeError::Incomplete));
    assert_eq!(decode(b"*2\r\n"), Err(DecodeError::Incomplete));
    assert_eq!(decode(b"*2\r\n:1\r\n"), Err(DecodeError::Incomplete));
    assert_eq!(decode(b"*9223372036854775807\r\n:1\r\n"), Err(DecodeError::Incomplete));
    assert_eq!(decode(b"*3\r\n$3\r\nSET\r\n$3\r\nke"), Err(DecodeError::Incomplete));
}

#[test]
fn every_proper_prefix_of_a_value_is_incomplete() {
    for value in samples() {
        let bytes = value.marshal();
        for cut in 0..bytes.len() {
            assert_eq!(
                decode(&bytes[..cut]),
                Err(DecodeError::Incomplete),
                "{:?} cut at {}",
                value,
                cut
            );
        }
    }
}

#[test]
fn nesting_is_limited() {
    assert_eq!(MAX_DEPTH, 32);
    let deepest = nested(MAX_DEPTH);
    let (value, used) = decode(&deepest).unwrap();
    assert_eq!(used, deepest.len());
    assert_eq!(value.marshal(), deepest);

    let too_deep = nested(MAX_DEPTH + 1);
    assert_eq!(decode(&too_deep), Err(DecodeError::Protocol));
    assert_eq!(decode(&nested(10_000)), Err(DecodeError::Protocol));

    // the limit is on nesting, not on the number of arrays
    let mut wide = b"*3\r\n".to_vec();
    for _ in 0..3 {
        wide.extend_from_slice(&nested(MAX_DEPTH - 1));
    }
    assert!(decode(&wide).is_ok());
}

#[test]
fn a_simple_string_ends_at_the_first_line_terminator() {
    assert_eq!(decode(b"+a\rb\r\nc\r\n"), Ok((Value::SimpleString(b"a\rb".to_vec()), 6)));
    assert_eq!(decode(b"+a\r\r\n"), Ok((Value::SimpleString(b"a\r".to_vec()), 5)));
    assert_eq!(decode(b"+\r\n"), Ok((Value::SimpleString(vec![]), 3)));
    assert_eq!(decode(b"-\xff\xfe\r\n"), Ok((Value::Error(vec![0xff, 0xfe]), 5)));
}

#[test]
fn the_helpers_marshal_their_own_variant() {
    assert_eq!(Value::null_marshal(), b"$-1\r\n");
    assert_eq!(Value::null_array_marshal(), b"*-1\r\n");
    assert_eq!(Value::error_marshal(b"ERR x"), b"-ERR x\r\n");
    assert_eq!(Value::string_marshal(b"PONG"), b"+PONG\r\n");
    assert_eq!(Value::bulk_marshal(b""), b"$0\r\n\r\n");
    assert_eq!(Value::bulk_marshal(b"0123456789"), b"$10\r\n0123456789\r\n");
    assert_eq!(Value::integer_marshal(-120), b":-120\r\n");
    assert_eq!(Value::array_marshal(&vec![]), b"*0\r\n");
    assert_eq!(
        Value::array_marshal(&vec![Value::Integer(1), Value::BulkString(None)]),
        b"*2\r\n:1\r\n$-1\r\n"
    );
    let twelve: Vec<Value> = (0..12).map(Value::Integer).collect();
    assert!(Value::array_marshal(&twelve).starts_with(b"*12\r\n:0\r\n:1\r\n"));
}

#[test]
fn print_gives_a_readable_form() {
    assert_eq!(Value::SimpleString(b"OK".to_vec()).print(), b"String: \"OK\"");
    assert_eq!(Value::Integer(-5).print(), b"Integer: -5");
    assert_eq!(bulk("").print(), b"Bulk: \"\"");
    assert_eq!(Value::Array(Some(vec![])).print(), b"Array: []");
    assert_eq!(Value::Array(Some(vec![Value::Integer(1)])).print(), b"Array: [Integer: 1]");
    assert_eq!(
        Value::Array(Some(vec![
            Value::Array(Some(vec![bulk("a"), bulk("b")])),
            Value::Error(b"e".to_vec()),
            Value::BulkString(None),
            Value::Array(None),
        ]))
        .print(),
        b"Array: [Array: [Bulk: \"a\", Bulk: \"b\"], Unknown, Unknown, Unknown]".to_vec()
    );
    assert_eq!(
        Value::print_all(&vec![Value::Integer(1), Value::Integer(2), Value::Integer(3)]),
        b"Integer: 1, Integer: 2, Integer: 3"
    );
}

#[test]
fn decimal_text_is_canonical() {
    assert_eq!(decimal(0), b"0");
    assert_eq!(decimal(7), b"7");
    assert_eq!(decimal(10), b"10");
    assert_eq!(decimal(-1), b"-1");
    assert_eq!(decimal(1234567890), b"1234567890");
    assert_eq!(decimal(i64::MAX), b"9223372036854775807");
    assert_eq!(decimal(i64::MIN), b"-9223372036854775808");
    let mut out = b"len=".to_vec();
    push_length(0, &mut out);
    push_length(305, &mut out);
    assert_eq!(out, b"len=0305");
}

#[test]
fn decimal_parsing_takes_a_sign_and_digits() {
    assert_eq!(parse_decimal(b"0"), Some(0));
    assert_eq!(parse_decimal(b"-0"), Some(0));
    assert_eq!(parse_decimal(b"+0"), Some(0));
    assert_eq!(parse_decimal(b"1000"), Some(1000));
    assert_eq!(parse_decimal(b"-1000"), Some(-1000));
    assert_eq!(parse_decimal(b"+1000"), Some(1000));
    assert_eq!(parse_decimal(b"0000000000000000000000000012"), Some(12));
    assert_eq!(parse_decimal(b"9223372036854775807"), Some(i64::MAX));
    assert_eq!(parse_decimal(b"-9223372036854775808"), Some(i64::MIN));
    assert_eq!(parse_decimal(b"9223372036854775808"), None);
    assert_eq!(parse_decimal(b"-9223372036854775809"), None);
    assert_eq!(parse_decimal(b"18446744073709551616"), None);
    assert_eq!(parse_decimal(b"184467440737095516160"), None);
    assert_eq!(parse_decimal(b""), None);
    assert_eq!(parse_decimal(b"-"), None);
    assert_eq!(parse_decimal(b"+"), None);
    assert_eq!(parse_decimal(b"+-1"), None);
    assert_eq!(parse_decimal(b"1.5"), None);
    assert_eq!(parse_decimal(b"12a"), None);
    assert_eq!(parse_decimal(b" 12"), None);
    assert_eq!(parse_decimal(b"12 "), None);
    assert_eq!(parse_decimal(b"/"), None);
    assert_eq!(parse_decimal(b":"), None);
    for n in [-1000i64, -11, -10, -9, -1, 0, 1, 9, 10, 11, 99, 100, 101, 65535, i64::MAX - 1] {
        assert_eq!(parse_decimal(&decimal(n)), Some(n));
    }
}

#[test]
fn a_reader_consumes_what_it_reads_and_nothing_on_failure() {
    let mut resp = Resp::new_resp();
    assert_eq!(resp.remaining(), 0);
    assert_eq!(resp.read(), Err(DecodeError::Incomplete));

    // a command split across two reads
    resp.feed(b"*2\r\n$3\r\nGET\r\n$3\r\nk");
    assert_eq!(resp.read(), Err(DecodeError::Incomplete));
    assert_eq!(resp.remaining(), 18);
    resp.feed(b"ey\r\n+next\r\n");
    assert_eq!(resp.read(), Ok(Value::Array(Some(vec![bulk("GET"), bulk("key")]))));
    assert_eq!(resp.remaining(), 7);
    assert_eq!(resp.read(), Ok(Value::SimpleString(b"next".to_vec())));
    assert_eq!(resp.remaining(), 0);
    assert_eq!(resp.read(), Err(DecodeError::Incomplete));

    resp.feed(b":1\r\n?");
    assert_eq!(resp.read(), Ok(Value::Integer(1)));
    assert_eq!(resp.read(), Err(DecodeError::Protocol));
    assert_eq!(resp.remaining(), 1);
}

#[test]
fn the_parts_of_a_value_can_be_read_one_by_one() {
    let mut resp = Resp::from_bytes(b"first line\r\n-12\r\n5\r\nhello\r\n2\r\n:1\r\n:2\r\nrest".to_vec());
    assert_eq!(resp.read_line(), Ok((b"first line".to_vec(), 12)));
    assert_eq!(resp.read_integer(), Ok(-12));
    assert_eq!(resp.read_bulk(), Ok(bulk("hello")));
    assert_eq!(
        resp.read_array(),
        Ok(Value::Array(Some(vec![Value::Integer(1), Value::Integer(2)])))
    );
    assert_eq!(resp.remaining(), 4);
    assert_eq!(resp.read_line(), Err(DecodeError::Incomplete));
    assert_eq!(resp.read_integer(), Err(DecodeError::Incomplete));
    assert_eq!(resp.read_bulk(), Err(DecodeError::Incomplete));
    assert_eq!(resp.read_array(), Err(DecodeError::Incomplete));
    assert_eq!(resp.remaining(), 4);
    resp.feed(b"\r\n");
    assert_eq!(resp.read_integer(), Err(DecodeError::Protocol));
    assert_eq!(resp.read_bulk(), Err(DecodeError::Protocol));
    assert_eq!(resp.read_array(), Err(DecodeError::Protocol));
    assert_eq!(resp.remaining(), 6);
    assert_eq!(resp.read_line(), Ok((b"rest".to_vec(), 6)));

    let mut resp = Resp::from_bytes(b"-1\r\n-1\r\n".to_vec());
    assert_eq!(resp.read_bulk(), Ok(Value::BulkString(None)));
    assert_eq!(resp.read_array(), Ok(Value::Array(None)));

    // after the marker of an array one level of nesting is used up
    let mut resp = Resp::from_bytes(nested(MAX_DEPTH)[1..].to_vec());
    assert!(resp.read_array().is_ok());
    let mut resp = Resp::from_bytes(nested(MAX_DEPTH + 1)[1..].to_vec());
    assert_eq!(resp.read_array(), Err(DecodeError::Protocol));
}
