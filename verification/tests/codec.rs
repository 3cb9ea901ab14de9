use redis_core::decimal::{parse_decimal, parse_signed_decimal, push_decimal, push_signed_decimal};
use redis_core::parser::{decode_at, is_digit, read_uint, ParseError, RedisParser};
use redis_core::values::{RedisValue, ValueError};

fn bulk(s: &str) -> RedisValue {
    RedisValue::BulkString(s.as_bytes().to_vec())
}

fn simple(s: &str) -> RedisValue {
    RedisValue::SimpleString(s.as_bytes().to_vec())
}

fn sample_values() -> Vec<RedisValue> {
    vec![
        simple("OK"),
        simple(""),
        simple("with\rreturn"),
        RedisValue::Error(b"ERR something".to_vec()),
        RedisValue::Integer(0),
        RedisValue::Integer(-1),
        RedisValue::Integer(i64::MAX),
        RedisValue::Integer(i64::MIN),
        bulk(""),
        bulk("bar"),
        RedisValue::BulkString(vec![0, 13, 10, 255, 36, 42]),
        RedisValue::NilBulk,
        RedisValue::NilArray,
        RedisValue::Array(vec![]),
        RedisValue::Array(vec![bulk("SET"), bulk("foo"), bulk("bar")]),
        RedisValue::Array(vec![
            RedisValue::Array(vec![RedisValue::Integer(7), RedisValue::NilBulk]),
            simple("x"),
            RedisValue::Array(vec![RedisValue::Array(vec![bulk("deep")])]),
        ]),
    ]
}

#[test]
fn encode_simple_string() {
    assert_eq!(simple("OK").encode(), b"+OK\r\n".to_vec());
}

#[test]
fn encode_error() {
    assert_eq!(RedisValue::Error(b"ERR no".to_vec()).encode(), b"-ERR no\r\n".to_vec());
}

#[test]
fn encode_integers() {
    assert_eq!(RedisValue::Integer(11).encode(), b":11\r\n".to_vec());
    assert_eq!(RedisValue::Integer(0).encode(), b":0\r\n".to_vec());
    assert_eq!(RedisValue::Integer(-42).encode(), b":-42\r\n".to_vec());
    assert_eq!(RedisValue::Integer(i64::MAX).encode(), b":9223372036854775807\r\n".to_vec());
    assert_eq!(RedisValue::Integer(i64::MIN).encode(), b":-9223372036854775808\r\n".to_vec());
}

#[test]
fn encode_bulk_string() {
    assert_eq!(bulk("bar").encode(), b"$3\r\nbar\r\n".to_vec());
    assert_eq!(bulk("").encode(), b"$0\r\n\r\n".to_vec());
    assert_eq!(bulk("0123456789").encode(), b"$10\r\n0123456789\r\n".to_vec());
}

#[test]
fn encode_nils() {
    assert_eq!(RedisValue::NilBulk.encode(), b"$-1\r\n".to_vec());
    assert_eq!(RedisValue::NilArray.encode(), b"*-1\r\n".to_vec());
}

#[test]
fn encode_arrays() {
    assert_eq!(RedisValue::Array(vec![]).encode(), b"*0\r\n".to_vec());
    let nested = RedisValue::Array(vec![
        bulk("q"),
        RedisValue::Array(vec![RedisValue::Integer(1), simple("a")]),
    ]);
    assert_eq!(nested.encode(), b"*2\r\n$1\r\nq\r\n*2\r\n:1\r\n+a\r\n".to_vec());
}

#[test]
fn encode_into_appends() {
    let mut out = b"abc".to_vec();
    RedisValue::Integer(5).encode_into(&mut out);
    assert_eq!(out, b"abc:5\r\n".to_vec());
}

#[test]
fn as_simple_string_of_both_string_kinds() {
    assert_eq!(bulk("PONG").as_simple_string(), Ok(b"+PONG\r\n".to_vec()));
    assert_eq!(simple("OK").as_simple_string(), Ok(b"+OK\r\n".to_vec()));
}

#[test]
fn as_simple_string_refuses_other_kinds() {
    assert_eq!(RedisValue::Integer(1).as_simple_string(), Err(ValueError::NotAString));
    assert_eq!(RedisValue::NilBulk.as_simple_string(), Err(ValueError::NotAString));
    assert_eq!(RedisValue::Array(vec![]).as_simple_string(), Err(ValueError::NotAString));
    assert_eq!(RedisValue::Error(b"e".to_vec()).as_simple_string(), Err(ValueError::NotAString));
}

#[test]
fn get_string_of_both_string_kinds() {
    assert_eq!(bulk("foo").get_string(), Ok(b"foo".to_vec()));
    assert_eq!(simple("foo").get_string(), Ok(b"foo".to_vec()));
}

#[test]
fn get_string_refuses_other_kinds() {
    assert_eq!(RedisValue::Integer(5).get_string(), Err(ValueError::NotAString));
    assert_eq!(RedisValue::NilArray.get_string(), Err(ValueError::NotAString));
}

#[test]
fn get_int_of_integer_and_others() {
    assert_eq!(RedisValue::Integer(-7)._get_int(), Ok(-7));
    assert_eq!(bulk("7")._get_int(), Err(ValueError::NotAnInteger));
}

#[test]
fn clone_is_equal() {
    for value in sample_values() {
        assert_eq!(value.clone(), value);
    }
}

#[test]
fn decode_inverts_encode_on_samples() {
    for value in sample_values() {
        let bytes = value.encode();
        assert_eq!(decode_at(&bytes, 0), Ok(Some((value.clone(), bytes.len()))));
        let mut longer = bytes.clone();
        longer.extend_from_slice(b"+next\r\n");
        assert_eq!(decode_at(&longer, 0), Ok(Some((value, bytes.len()))));
    }
}

#[test]
fn encode_inverts_decode_on_plain_frames() {
    let frames: Vec<&[u8]> = vec![
        b"*3\r\n$3\r\nSET\r\n$3\r\nfoo\r\n$3\r\nbar\r\n",
        b"*1\r\n$4\r\nPING\r\n",
        b":-15\r\n",
        b"$-1\r\n",
        b"*2\r\n*-1\r\n-ERR x\r\n",
    ];
    for frame in frames {
        match decode_at(frame, 0) {
            Ok(Some((value, next))) => {
                assert_eq!(next, frame.len());
                assert_eq!(value.encode(), frame.to_vec());
            }
            other => panic!("not decoded: {:?}", other),
        }
    }
}

#[test]
fn leading_zeros_are_read_but_not_written() {
    let frame = b"$03\r\nabc\r\n";
    assert_eq!(decode_at(frame, 0), Ok(Some((bulk("abc"), frame.len()))));
    assert_eq!(bulk("abc").encode(), b"$3\r\nabc\r\n".to_vec());
    assert_eq!(decode_at(b":007\r\n", 0), Ok(Some((RedisValue::Integer(7), 6))));
    assert_eq!(decode_at(b":-0\r\n", 0), Ok(Some((RedisValue::Integer(0), 5))));
}

#[test]
fn simple_string_with_line_end_does_not_round_trip() {
    let value = simple("a\r\nb");
    let bytes = value.encode();
    assert_eq!(decode_at(&bytes, 0), Ok(Some((simple("a"), 4))));
}

#[test]
fn decode_from_a_position() {
    let bytes = b"+a\r\n:12\r\n";
    assert_eq!(decode_at(bytes, 4), Ok(Some((RedisValue::Integer(12), 9))));
    assert_eq!(decode_at(bytes, 9), Ok(None));
}

#[test]
fn decode_incomplete_frames() {
    let partial: Vec<&[u8]> = vec![
        b"",
        b"+",
        b"+OK",
        b"+OK\r",
        b"$3\r\nba",
        b"$3\r\nbar",
        b"$3\r\nbar\r",
        b"*2\r\n$1\r\na\r\n",
        b"*2\r\n$1\r\na\r\n$1",
        b"*1",
    ];
    for bytes in partial {
        assert_eq!(decode_at(bytes, 0), Ok(None));
    }
}

#[test]
fn decode_malformed_frames() {
    let wrong: Vec<&[u8]> = vec![
        b"?what\r\n",
        b"hello\r\n",
        b"$x\r\nabc\r\n",
        b"$3x\r\nabc\r\n",
        b"$\r\n",
        b"$-2\r\n",
        b"*-2\r\n",
        b"*1x\r\n",
        b":\r\n",
        b":12a\r\n",
        b":+5\r\n",
        b":9223372036854775808\r\n",
        b":-9223372036854775809\r\n",
        b"$3\r\nabcde\r\n",
        b"$99999999999999999999999999\r\n",
        b"*2\r\n+a\r\n?b\r\n",
    ];
    for bytes in wrong {
        assert_eq!(decode_at(bytes, 0), Err(ParseError::Malformed));
    }
}

#[test]
fn decode_integer_limits() {
    assert_eq!(
        decode_at(b":9223372036854775807\r\n", 0),
        Ok(Some((RedisValue::Integer(i64::MAX), 22)))
    );
    assert_eq!(
        decode_at(b":-9223372036854775808\r\n", 0),
        Ok(Some((RedisValue::Integer(i64::MIN), 23)))
    );
}

#[test]
fn is_digit_on_the_borders() {
    assert!(is_digit(b'0'));
    assert!(is_digit(b'9'));
    assert!(!is_digit(b'/'));
    assert!(!is_digit(b':'));
    assert!(!is_digit(b'a'));
}

#[test]
fn read_uint_reads_digits_only() {
    assert_eq!(read_uint(b"0"), Ok(0));
    assert_eq!(read_uint(b"1024"), Ok(1024));
    assert_eq!(read_uint(b"007"), Ok(7));
    assert_eq!(read_uint(b""), Err(ParseError::Malformed));
    assert_eq!(read_uint(b"12x"), Err(ParseError::Malformed));
    assert_eq!(read_uint(b"-1"), Err(ParseError::Malformed));
    assert_eq!(read_uint(b"99999999999999999999999"), Err(ParseError::Malformed));
}

#[test]
fn read_uint_stops_at_the_line_terminator() {
    assert_eq!(read_uint(b"123\r\n"), Ok(123));
    assert_eq!(read_uint(b"0\r\n"), Ok(0));
    assert_eq!(read_uint(b"7\r\nrest"), Ok(7));
    assert_eq!(read_uint(b"3\r\n12\r\n"), Ok(3));
    assert_eq!(read_uint(b"12a\r\n"), Err(ParseError::Malformed));
    assert_eq!(read_uint(b"\r\n"), Err(ParseError::Malformed));
    assert_eq!(read_uint(b"-1\r\n"), Err(ParseError::Malformed));
    assert_eq!(read_uint(b"12\r"), Err(ParseError::Malformed));
    assert_eq!(read_uint(b"12\n"), Err(ParseError::Malformed));
    assert_eq!(read_uint(b"12\r\r\n"), Err(ParseError::Malformed));
    assert_eq!(read_uint(b"99999999999999999999999\r\n"), Err(ParseError::Malformed));
}

#[test]
fn parse_decimal_limits() {
    assert_eq!(parse_decimal(b"18446744073709551615"), Some(u64::MAX));
    assert_eq!(parse_decimal(b"18446744073709551616"), None);
    assert_eq!(parse_decimal(b"000000000000000000000000000001"), Some(1));
    assert_eq!(parse_decimal(b""), None);
    assert_eq!(parse_decimal(b"1 "), None);
}

#[test]
fn parse_signed_decimal_cases() {
    assert_eq!(parse_signed_decimal(b"10"), Some(10));
    assert_eq!(parse_signed_decimal(b"-10"), Some(-10));
    assert_eq!(parse_signed_decimal(b"-"), None);
    assert_eq!(parse_signed_decimal(b"abc"), None);
    assert_eq!(parse_signed_decimal(b"--1"), None);
    assert_eq!(parse_signed_decimal(b"-9223372036854775808"), Some(i64::MIN));
    assert_eq!(parse_signed_decimal(b"9223372036854775808"), None);
}

#[test]
fn push_decimal_writes_shortest_form() {
    let mut out = Vec::new();
    push_decimal(&mut out, 0);
    out.push(b' ');
    push_decimal(&mut out, 10);
    out.push(b' ');
    push_decimal(&mut out, u64::MAX);
    out.push(b' ');
    push_signed_decimal(&mut out, -305);
    assert_eq!(out, b"0 10 18446744073709551615 -305".to_vec());
}

#[test]
fn reader_gives_values_as_bytes_arrive() {
    let mut parser = RedisParser::new();
    assert_eq!(parser.read_value(), Ok(None));
    parser.feed(b"*2\r\n$4\r\nEC");
    assert_eq!(parser.read_value(), Ok(None));
    assert_eq!(parser.pending_len(), 10);
    parser.feed(b"HO\r\n$2\r\nhi\r\n*1\r\n$4\r\nPI");
    assert_eq!(
        parser.read_value(),
        Ok(Some(RedisValue::Array(vec![bulk("ECHO"), bulk("hi")])))
    );
    assert_eq!(parser.pending_len(), 10);
    assert_eq!(parser.read_value(), Ok(None));
    parser.feed(b"NG\r\n");
    assert_eq!(parser.read_value(), Ok(Some(RedisValue::Array(vec![bulk("PING")]))));
    assert_eq!(parser.pending_len(), 0);
}

#[test]
fn reader_keeps_the_next_frame() {
    let mut parser = RedisParser::new();
    parser.feed(b"+one\r\n+two\r\n");
    assert_eq!(parser.read_value(), Ok(Some(simple("one"))));
    assert_eq!(parser.read_value(), Ok(Some(simple("two"))));
    assert_eq!(parser.read_value(), Ok(None));
}

#[test]
fn reader_reports_disconnect_in_mid_frame() {
    let mut parser = RedisParser::new();
    parser.feed(b"$5\r\nhel");
    parser.close();
    assert_eq!(parser.read_value(), Err(ParseError::Disconnect));
    assert_eq!(parser.pending_len(), 7);
}

#[test]
fn reader_reports_disconnect_when_closed_and_empty() {
    let mut parser = RedisParser::new();
    parser.close();
    assert_eq!(parser.read_value(), Err(ParseError::Disconnect));
}

#[test]
fn reader_gives_complete_frames_after_close() {
    let mut parser = RedisParser::new();
    parser.feed(b":1\r\n");
    parser.close();
    assert_eq!(parser.read_value(), Ok(Some(RedisValue::Integer(1))));
    assert_eq!(parser.read_value(), Err(ParseError::Disconnect));
}

#[test]
fn reader_reports_malformed_and_consumes_nothing() {
    let mut parser = RedisParser::new();
    parser.feed(b"!oops\r\n");
    assert_eq!(parser.read_value(), Err(ParseError::Malformed));
    assert_eq!(parser.pending_len(), 7);
}
