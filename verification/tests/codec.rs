//! Tests for the wire-protocol codec: frame decoding, encoding, and the
//! decode/encode round trips.

use redis_from_scratch_rust::resp::parse;
use redis_from_scratch_rust::resp::utils::parse_int;
use redis_from_scratch_rust::resp::utils::read_until_crlf;
use redis_from_scratch_rust::resp::utils::split_at_crlf;
use redis_from_scratch_rust::resp::RespValue;

#[test]
fn decodes_command_array_of_three_bulk_strings() {
    let buf = b"*3\r\n$3\r\nSET\r\n$3\r\nfoo\r\n$3\r\nbar\r\n";
    let (value, consumed) = parse(buf).unwrap();
    assert_eq!(consumed, buf.len());
    let expected = RespValue::Array(vec![
        RespValue::BulkString(b"SET".to_vec()),
        RespValue::BulkString(b"foo".to_vec()),
        RespValue::BulkString(b"bar".to_vec()),
    ]);
    assert_eq!(value, expected);
}

#[test]
fn decodes_null_bulk_string_in_five_bytes() {
    let (value, consumed) = parse(b"$-1\r\n").unwrap();
    assert_eq!(value, RespValue::Null);
    assert_eq!(consumed, 5);
}

#[test]
fn decodes_status_text() {
    let (value, consumed) = parse(b"+PONG\r\n").unwrap();
    assert_eq!(value, RespValue::Text(b"PONG".to_vec()));
    assert_eq!(consumed, 7);
}

#[test]
fn decodes_integers_with_signs_and_leading_zeros() {
    assert_eq!(parse(b"-42\r\n").unwrap(), (RespValue::Integer(42), 5));
    assert_eq!(parse(b"--7\r\n").unwrap(), (RespValue::Integer(-7), 5));
    assert_eq!(parse(b"-007\r\n").unwrap(), (RespValue::Integer(7), 6));
    assert_eq!(parse(b"-+5\r\n").unwrap(), (RespValue::Integer(5), 5));
    assert_eq!(
        parse(b"--9223372036854775808\r\n").unwrap(),
        (RespValue::Integer(i64::MIN), 23)
    );
}

#[test]
fn rejects_integer_overflow_and_junk() {
    assert!(parse(b"-9223372036854775808\r\n").is_err());
    assert!(parse(b"-12a\r\n").is_err());
    assert!(parse(b"-\r\n").is_err());
}

#[test]
fn decodes_bulk_string_by_byte_length() {
    let (value, consumed) = parse(b"$5\r\nhello\r\n").unwrap();
    assert_eq!(value, RespValue::BulkString(b"hello".to_vec()));
    assert_eq!(consumed, 11);
    // binary-safe: the payload may hold CRLF itself
    let (value, consumed) = parse(b"$4\r\na\r\nb\r\n").unwrap();
    assert_eq!(value, RespValue::BulkString(b"a\r\nb".to_vec()));
    assert_eq!(consumed, 10);
}

#[test]
fn decodes_empty_payloads() {
    assert_eq!(
        parse(b"$0\r\n\r\n").unwrap(),
        (RespValue::BulkString(vec![]), 6)
    );
    assert_eq!(parse(b"+\r\n").unwrap(), (RespValue::Text(vec![]), 3));
}

#[test]
fn rejects_malformed_frames() {
    assert!(parse(b"").is_err());
    assert!(parse(b"&oops\r\n").is_err());
    assert!(parse(b"+no-crlf").is_err());
    assert!(parse(b"$x\r\n").is_err());
    assert!(parse(b"$5\r\nab\r\n").is_err());
    assert!(parse(b"$3\r\nabcXY").is_err());
    assert!(parse(b"$-2\r\n").is_err());
    assert!(parse(b"*2\r\n$1\r\na\r\n").is_err());
}

#[test]
fn decodes_empty_and_negative_count_arrays() {
    assert_eq!(parse(b"*0\r\n").unwrap(), (RespValue::Array(vec![]), 4));
    assert_eq!(parse(b"*-1\r\n").unwrap(), (RespValue::Array(vec![]), 5));
}

#[test]
fn decodes_nested_arrays() {
    let buf = b"*2\r\n*1\r\n+a\r\n$1\r\nb\r\n";
    let (value, consumed) = parse(buf).unwrap();
    assert_eq!(consumed, buf.len());
    let expected = RespValue::Array(vec![
        RespValue::Array(vec![RespValue::Text(b"a".to_vec())]),
        RespValue::BulkString(b"b".to_vec()),
    ]);
    assert_eq!(value, expected);
}

#[test]
fn round_trips_status_integer_and_bulk_frames() {
    let values = vec![
        RespValue::Text(b"PONG".to_vec()),
        RespValue::Integer(0),
        RespValue::Integer(42),
        RespValue::Integer(-42),
        RespValue::Integer(i64::MAX),
        RespValue::Integer(i64::MIN),
        RespValue::BulkString(b"".to_vec()),
        RespValue::BulkString(b"hello world".to_vec()),
        RespValue::BulkString(b"bin\r\n\x00\xff".to_vec()),
        RespValue::Null,
    ];
    for v in values {
        let bytes = v.serializer().unwrap();
        let (back, consumed) = parse(&bytes).unwrap();
        assert_eq!(back, v);
        assert_eq!(consumed, bytes.len());
    }
}

#[test]
fn encoding_an_array_is_rejected() {
    let v = RespValue::Array(vec![RespValue::Text(b"a".to_vec())]);
    assert!(v.serializer().is_err());
}

#[test]
fn encodes_expected_wire_bytes() {
    assert_eq!(
        RespValue::Text(b"OK".to_vec()).serializer().unwrap(),
        b"+OK\r\n".to_vec()
    );
    assert_eq!(
        RespValue::Integer(-15).serializer().unwrap(),
        b"--15\r\n".to_vec()
    );
    assert_eq!(
        RespValue::BulkString(b"foo".to_vec()).serializer().unwrap(),
        b"$3\r\nfoo\r\n".to_vec()
    );
    assert_eq!(RespValue::Null.serializer().unwrap(), b"$-1\r\n".to_vec());
}

#[test]
fn read_until_crlf_finds_first_pair() {
    assert_eq!(read_until_crlf(b"ab\r\ncd"), Some((&b"ab"[..], 4)));
    assert_eq!(read_until_crlf(b"a\r\r\nz"), Some((&b"a\r"[..], 4)));
    assert_eq!(read_until_crlf(b"abc"), None);
}

#[test]
fn parse_int_reads_signed_decimals() {
    assert_eq!(parse_int(b"123").unwrap(), 123);
    assert_eq!(parse_int(b"-45").unwrap(), -45);
    assert_eq!(parse_int(b"+45").unwrap(), 45);
    assert!(parse_int(b"").is_err());
    assert!(parse_int(b"12a").is_err());
    assert!(parse_int(b"9223372036854775808").is_err());
}

#[test]
fn split_at_crlf_reads_the_numeric_header() {
    assert_eq!(split_at_crlf(b"$13\r\nrest").unwrap(), (13, 5));
    assert!(split_at_crlf(b"$nope\r\n").is_err());
    assert!(split_at_crlf(b"$13").is_err());
}
