//! Decoder tests: values read back from lines, quirks included.

use miniredis::handler::{CommandHandler, Store};
use miniredis::resp::{DecodeError, Resp, RespData};

fn lines(raw: &[&str]) -> Vec<String> {
    raw.iter().map(|s| s.to_string()).collect()
}

#[test]
fn decode_bulk_string() {
    let mut r = Resp::new(lines(&["$5\r\n", "hello\r\n"]));
    assert_eq!(r.read(), Ok(RespData::BulkString("hello".to_string())));
}

#[test]
fn decode_empty_bulk_string() {
    let mut r = Resp::new(lines(&["$0\r\n", "\r\n"]));
    assert_eq!(r.read(), Ok(RespData::BulkString("".to_string())));
}

#[test]
fn decode_integers() {
    let mut r = Resp::new(lines(&[":123\r\n"]));
    assert_eq!(r.read(), Ok(RespData::Integer(123)));
    let mut r = Resp::new(lines(&[":-9223372036854775808\r\n"]));
    assert_eq!(r.read(), Ok(RespData::Integer(i64::MIN)));
    let mut r = Resp::new(lines(&[":+42\r\n"]));
    assert_eq!(r.read(), Ok(RespData::Integer(42)));
}

#[test]
fn decode_array() {
    let mut r = Resp::new(lines(&["*2\r\n", ":1\r\n", "$3\r\n", "foo\r\n"]));
    assert_eq!(
        r.read(),
        Ok(RespData::Array(vec![
            RespData::Integer(1),
            RespData::BulkString("foo".to_string()),
        ]))
    );
}

#[test]
fn decode_empty_array() {
    let mut r = Resp::new(lines(&["*0\r\n"]));
    assert_eq!(r.read(), Ok(RespData::Array(vec![])));
}

#[test]
fn decode_malformed_count_fails() {
    let mut r = Resp::new(lines(&["*x\r\n"]));
    assert_eq!(r.read(), Err(DecodeError::InvalidInteger));
    let mut r = Resp::new(lines(&[":12a\r\n"]));
    assert_eq!(r.read(), Err(DecodeError::InvalidInteger));
    let mut r = Resp::new(lines(&[":9223372036854775808\r\n"]));
    assert_eq!(r.read(), Err(DecodeError::InvalidInteger));
}

#[test]
fn decode_negative_count_fails() {
    let mut r = Resp::new(lines(&["*-1\r\n"]));
    assert_eq!(r.read(), Err(DecodeError::InvalidInteger));
}

#[test]
fn decode_unknown_tag() {
    let mut r = Resp::new(lines(&["hello\r\n"]));
    assert_eq!(r.read(), Ok(RespData::Error("Unknown error".to_string())));
}

#[test]
fn decode_at_end_of_input() {
    let mut r = Resp::new(Vec::new());
    assert_eq!(r.read(), Ok(RespData::Error("Unknown error".to_string())));
}

#[test]
fn decode_simple_string_takes_next_line() {
    // the decoder reads the line after the `+` tag line as the content
    let mut r = Resp::new(lines(&["+OK\r\n", "next\r\n"]));
    assert_eq!(r.read(), Ok(RespData::SimpleString("next".to_string())));
}

#[test]
fn decode_records_raw_data() {
    let mut r = Resp::new(lines(&[":1\r\n", ":2\r\n"]));
    assert_eq!(r.read(), Ok(RespData::Integer(1)));
    assert_eq!(r.raw_data, ":1\r\n");
    assert_eq!(r.read(), Ok(RespData::Integer(2)));
    assert_eq!(r.raw_data, ":1\r\n:2\r\n");
}

#[test]
fn read_line_trims_and_ends_empty() {
    let mut r = Resp::new(lines(&["  spaced  \r\n"]));
    assert_eq!(r.read_line(), "spaced");
    assert_eq!(r.read_line(), "");
}

#[test]
fn read_integer_trims() {
    let mut r = Resp::new(Vec::new());
    assert_eq!(r.read_integer(" 42 "), Ok(42));
    assert_eq!(r.read_integer("abc"), Err(DecodeError::InvalidInteger));
    assert_eq!(r.read_integer(""), Err(DecodeError::InvalidInteger));
}

fn round_trips(value: RespData) {
    let mut buf = String::new();
    value.write(&mut buf);
    let split: Vec<String> = buf.split_inclusive('\n').map(|s| s.to_string()).collect();
    let mut r = Resp::new(split);
    assert_eq!(r.read(), Ok(value));
}

#[test]
fn encode_then_decode_round_trips() {
    round_trips(RespData::Integer(-7));
    round_trips(RespData::BulkString("hello world".to_string()));
    round_trips(RespData::Array(vec![]));
    round_trips(RespData::Array(vec![
        RespData::Integer(1),
        RespData::BulkString("a".to_string()),
        RespData::Array(vec![RespData::Integer(2), RespData::Integer(3)]),
    ]));
    round_trips(RespData::Error("Unknown error".to_string()));
    round_trips(RespData::SimpleString("".to_string()));
}

#[test]
fn null_does_not_round_trip() {
    // Null encodes in the bulk-string form, so it reads back as a bulk string
    let mut buf = String::new();
    RespData::Null.write(&mut buf);
    let split: Vec<String> = buf.split_inclusive('\n').map(|s| s.to_string()).collect();
    let mut r = Resp::new(split);
    assert_eq!(r.read(), Ok(RespData::BulkString("".to_string())));
}

#[test]
fn wire_request_to_wire_reply() {
    // a client sends SET k v as an array of bulk strings
    let request = lines(&[
        "*3\r\n", "$3\r\n", "SET\r\n", "$1\r\n", "k\r\n", "$1\r\n", "v\r\n",
    ]);
    let mut r = Resp::new(request);
    let decoded = r.read().unwrap();
    let mut h = CommandHandler::from(Store::new());
    let reply = h.handle(&decoded);
    let mut out = String::new();
    reply.write(&mut out);
    assert_eq!(out, "+OK\r\n");

    let request = lines(&["*2\r\n", "$3\r\n", "GET\r\n", "$1\r\n", "k\r\n"]);
    let mut r = Resp::new(request);
    let decoded = r.read().unwrap();
    let reply = h.handle(&decoded);
    let mut out = String::new();
    reply.write(&mut out);
    assert_eq!(out, "$1\r\nv\r\n");
}

#[test]
fn read_line_trims_unicode_whitespace() {
    let mut r = Resp::new(lines(&["\u{A0}x\r\n"]));
    assert_eq!(r.read_line(), "x");
}

#[test]
fn read_integer_trims_unicode_whitespace() {
    let mut r = Resp::new(Vec::new());
    assert_eq!(r.read_integer("\u{A0}42\u{2009}"), Ok(42));
}

#[test]
fn clone_copies_deeply() {
    let v = RespData::Array(vec![
        RespData::Integer(1),
        RespData::BulkString("a".to_string()),
        RespData::Array(vec![RespData::Null, RespData::SimpleString("x".to_string())]),
        RespData::Error("e".to_string()),
    ]);
    let c = v.clone();
    assert_eq!(c, v);
}

