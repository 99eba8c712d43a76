//! Wire-format tests: each protocol value encodes to its exact byte form.

use miniredis::resp::RespData;
use miniredis::util::assert_format_repr;

fn written(value: &RespData) -> Vec<u8> {
    let mut buf = String::new();
    value.write(&mut buf);
    buf.into_bytes()
}

#[test]
fn test_simple_string_write_to_buf() {
    assert_format_repr(&RespData::SimpleString("OK".into()), b"+OK\r\n");
    assert_eq!(written(&RespData::SimpleString("OK".into())), b"+OK\r\n");
}

#[test]
fn test_error_write_to_buf() {
    assert_format_repr(
        &RespData::Error("Invalid command".to_string()),
        b"-ERR Invalid command\r\n",
    );
    assert_eq!(
        written(&RespData::Error("Invalid command".to_string())),
        b"-ERR Invalid command\r\n"
    );
}

#[test]
fn test_integer_write_to_buf() {
    assert_format_repr(&RespData::Integer(123), b":123\r\n");
    assert_format_repr(&RespData::Integer(-123), b":-123\r\n");
    assert_eq!(written(&RespData::Integer(123)), b":123\r\n");
    assert_eq!(written(&RespData::Integer(-123)), b":-123\r\n");
}

#[test]
fn test_bulk_string_write_to_buf() {
    assert_format_repr(
        &RespData::BulkString("hello".to_string()),
        b"$5\r\nhello\r\n",
    );
    assert_format_repr(&RespData::BulkString("".to_string()), b"$0\r\n\r\n");
    assert_eq!(
        written(&RespData::BulkString("hello".to_string())),
        b"$5\r\nhello\r\n"
    );
    assert_eq!(written(&RespData::BulkString("".to_string())), b"$0\r\n\r\n");
}

#[test]
fn test_array_write_to_buf() {
    assert_format_repr(
        &RespData::Array(vec![
            RespData::SimpleString("OK".to_string()),
            RespData::Integer(123),
            RespData::BulkString("hello".to_string()),
        ]),
        b"*3\r\n+OK\r\n:123\r\n$5\r\nhello\r\n",
    );
    assert_format_repr(&RespData::Array(vec![]), b"*0\r\n");
    assert_eq!(
        written(&RespData::Array(vec![
            RespData::SimpleString("OK".to_string()),
            RespData::Integer(123),
            RespData::BulkString("hello".to_string()),
        ])),
        b"*3\r\n+OK\r\n:123\r\n$5\r\nhello\r\n"
    );
    assert_eq!(written(&RespData::Array(vec![])), b"*0\r\n");
}

#[test]
fn test_null_write_to_buf() {
    assert_format_repr(&RespData::Null, b"$-1\r\n");
    assert_eq!(written(&RespData::Null), b"$-1\r\n");
}

#[test]
fn write_extreme_integers() {
    assert_eq!(
        written(&RespData::Integer(i64::MIN)),
        b":-9223372036854775808\r\n"
    );
    assert_eq!(
        written(&RespData::Integer(i64::MAX)),
        b":9223372036854775807\r\n"
    );
    assert_eq!(written(&RespData::Integer(0)), b":0\r\n");
}

#[test]
fn write_nested_array() {
    let v = RespData::Array(vec![
        RespData::Array(vec![RespData::Integer(1)]),
        RespData::Null,
    ]);
    assert_eq!(written(&v), b"*2\r\n*1\r\n:1\r\n$-1\r\n");
}
