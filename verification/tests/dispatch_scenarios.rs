//! Scenarios across commands: round trips through the store, type
//! mismatches, partial HSET writes, and case-insensitive dispatch.

use miniredis::handler::{CommandHandler, RedisValue, Store};
use miniredis::resp::RespData;
use miniredis::text::{fmt_i64, parse_i64, trim_str, upper_eq};

fn bulk(s: &str) -> RespData {
    RespData::BulkString(s.to_string())
}

fn simple(s: &str) -> RespData {
    RespData::SimpleString(s.to_string())
}

fn req(parts: &[&str]) -> RespData {
    RespData::Array(parts.iter().map(|p| bulk(p)).collect())
}

#[test]
fn set_then_get_returns_value() {
    let mut h = CommandHandler::from(Store::new());
    assert_eq!(
        h.handle(&req(&["SET", "k", "v"])),
        RespData::SimpleString("OK".to_string())
    );
    assert_eq!(h.handle(&req(&["GET", "k"])), bulk("v"));
}

#[test]
fn set_overwrites_hash_value() {
    let mut h = CommandHandler::from(Store::new());
    assert_eq!(h.handle(&req(&["HSET", "k", "f", "v"])), RespData::Integer(1));
    assert_eq!(
        h.handle(&req(&["SET", "k", "plain"])),
        RespData::SimpleString("OK".to_string())
    );
    assert_eq!(h.handle(&req(&["GET", "k"])), bulk("plain"));
}

#[test]
fn get_on_hash_key_returns_null() {
    // the documented quirk: GET against a mapping degrades to Null
    let mut h = CommandHandler::from(Store::new());
    h.handle(&req(&["HSET", "h", "f", "v"]));
    assert_eq!(h.handle(&req(&["GET", "h"])), RespData::Null);
}

#[test]
fn hget_on_string_key_is_wrongtype() {
    let mut h = CommandHandler::from(Store::new());
    h.handle(&req(&["SET", "k", "v"]));
    assert_eq!(
        h.handle(&req(&["HGET", "k", "f"])),
        RespData::Error(
            "WRONGTYPE Operation against a key holding the wrong kind of value".to_string()
        )
    );
}

#[test]
fn hset_on_string_key_is_refused() {
    let mut h = CommandHandler::from(Store::new());
    h.handle(&req(&["SET", "k", "v"]));
    assert_eq!(
        h.handle(&req(&["HSET", "k", "f", "w"])),
        RespData::Error("Key exists but value is not a map".to_string())
    );
    assert_eq!(h.handle(&req(&["GET", "k"])), bulk("v"));
}

#[test]
fn hset_counts_only_new_fields() {
    let mut h = CommandHandler::from(Store::new());
    assert_eq!(h.handle(&req(&["HSET", "h", "f1", "v1"])), RespData::Integer(1));
    assert_eq!(h.handle(&req(&["HSET", "h", "f1", "v2"])), RespData::Integer(0));
    assert_eq!(h.handle(&req(&["HGET", "h", "f1"])), bulk("v2"));
    assert_eq!(
        h.handle(&req(&["HSET", "h", "f1", "v3", "f2", "w"])),
        RespData::Integer(1)
    );
}

#[test]
fn hset_partial_write_survives_type_error() {
    let mut h = CommandHandler::from(Store::new());
    let input = RespData::Array(vec![
        bulk("HSET"),
        bulk("h"),
        bulk("f1"),
        bulk("v1"),
        RespData::Integer(5),
        bulk("v2"),
    ]);
    assert_eq!(
        h.handle(&input),
        RespData::Error("Invalid field type".to_string())
    );
    // the pair applied before the bad one stays applied
    assert_eq!(h.handle(&req(&["HGET", "h", "f1"])), bulk("v1"));
}

#[test]
fn hset_bad_value_type() {
    let mut h = CommandHandler::from(Store::new());
    let input = RespData::Array(vec![
        bulk("HSET"),
        bulk("h"),
        bulk("f1"),
        RespData::Integer(9),
    ]);
    assert_eq!(
        h.handle(&input),
        RespData::Error("Invalid value type".to_string())
    );
}

#[test]
fn hgetall_lists_all_pairs() {
    let mut h = CommandHandler::from(Store::new());
    h.handle(&req(&["HSET", "h", "f1", "v1", "f2", "v2"]));
    assert_eq!(
        h.handle(&req(&["HGETALL", "h"])),
        RespData::Array(vec![bulk("f1"), bulk("v1"), bulk("f2"), bulk("v2")])
    );
}

#[test]
fn hgetall_missing_key_is_empty_array() {
    let mut h = CommandHandler::from(Store::new());
    assert_eq!(h.handle(&req(&["HGETALL", "nope"])), RespData::Array(vec![]));
}

#[test]
fn hgetall_on_string_key_is_empty_array() {
    let mut h = CommandHandler::from(Store::new());
    h.handle(&req(&["SET", "k", "v"]));
    assert_eq!(h.handle(&req(&["HGETALL", "k"])), RespData::Array(vec![]));
}

#[test]
fn dispatch_is_case_insensitive() {
    let mut h = CommandHandler::from(Store::new());
    assert_eq!(
        h.handle(&req(&["ping"])),
        RespData::SimpleString("PONG".to_string())
    );
    assert_eq!(
        h.handle(&RespData::SimpleString("PiNg".to_string())),
        RespData::SimpleString("PONG".to_string())
    );
    assert_eq!(h.handle(&req(&["sEt", "a", "b"])), RespData::SimpleString("OK".to_string()));
    assert_eq!(h.handle(&req(&["get", "a"])), bulk("b"));
}

#[test]
fn unknown_commands_are_refused() {
    let mut h = CommandHandler::from(Store::new());
    assert_eq!(
        h.handle(&req(&["FLUSHALL"])),
        RespData::Error("Invalid command".to_string())
    );
    assert_eq!(
        h.handle(&req(&["pingg"])),
        RespData::Error("Invalid command".to_string())
    );
    assert_eq!(
        h.handle(&RespData::Integer(3)),
        RespData::Error("Invalid command".to_string())
    );
    assert_eq!(
        h.handle(&RespData::Array(vec![])),
        RespData::Error("Invalid command".to_string())
    );
    assert_eq!(
        h.handle(&RespData::Array(vec![RespData::Integer(1)])),
        RespData::Error("Invalid command".to_string())
    );
}

#[test]
fn set_error_wordings_stay_distinct() {
    let mut h = CommandHandler::from(Store::new());
    let too_many = h.handle(&req(&["SET", "k", "v", "extra"]));
    let too_few = h.handle(&req(&["SET", "k"]));
    assert_eq!(too_many, RespData::Error("syntax error".to_string()));
    assert_eq!(
        too_few,
        RespData::Error("wrong number of arguments for 'set' command".to_string())
    );
    assert_ne!(too_many, too_few);
}

#[test]
fn text_helpers_match_std() {
    assert_eq!(fmt_i64(0), "0");
    assert_eq!(fmt_i64(i64::MIN), "-9223372036854775808");
    assert_eq!(fmt_i64(i64::MAX), "9223372036854775807");
    assert_eq!(parse_i64("42"), Some(42));
    assert_eq!(parse_i64("-0"), Some(0));
    assert_eq!(parse_i64("+7"), Some(7));
    assert_eq!(parse_i64("9223372036854775808"), None);
    assert_eq!(parse_i64("-9223372036854775808"), Some(i64::MIN));
    assert_eq!(parse_i64(""), None);
    assert_eq!(parse_i64("1 2"), None);
    assert_eq!(trim_str("  a b \r\n"), "a b");
    assert_eq!(trim_str("\t\r\n"), "");
    assert!(upper_eq("hGeTaLl", "HGETALL"));
    assert!(!upper_eq("pings", "PING"));
}

#[test]
fn store_seeded_handler_answers_get() {
    let mut store = Store::new();
    store.insert("a".to_string(), RedisValue::Str("1".to_string()));
    store.insert("a".to_string(), RedisValue::Str("2".to_string()));
    let mut h = CommandHandler::from(store);
    assert_eq!(h.handle(&req(&["GET", "a"])), bulk("2"));
}

#[test]
fn hgetall_non_string_key_is_syntax_error() {
    let mut h = CommandHandler::from(Store::new());
    let input = RespData::Array(vec![bulk("HGETALL"), RespData::Integer(1)]);
    assert_eq!(h.handle(&input), RespData::Error("syntax error".to_string()));
}

#[test]
fn get_non_string_key_is_syntax_error() {
    let mut h = CommandHandler::from(Store::new());
    let input = RespData::Array(vec![bulk("GET"), RespData::Null]);
    assert_eq!(h.handle(&input), RespData::Error("syntax error".to_string()));
}

#[test]
fn dispatch_folds_unicode_case() {
    // U+017F (long s) uppercases to S, U+0131 (dotless i) to I: such
    // spellings reach the same commands
    let mut h = CommandHandler::from(Store::new());
    assert_eq!(
        h.handle(&req(&["\u{17F}et", "k", "v"])),
        RespData::SimpleString("OK".to_string())
    );
    assert_eq!(h.handle(&req(&["GET", "k"])), bulk("v"));
    assert_eq!(
        h.handle(&req(&["p\u{131}ng"])),
        RespData::SimpleString("PONG".to_string())
    );
    assert_eq!(
        h.handle(&req(&["\u{17F}"])),
        RespData::Error("Invalid command".to_string())
    );
}

#[test]
fn trim_handles_unicode_whitespace() {
    assert_eq!(trim_str("\u{A0}x\u{2003}"), "x");
    assert_eq!(trim_str("\u{3000}\u{85}"), "");
    assert_eq!(parse_i64(""), None);
}

#[test]
fn set_accepts_simple_string_arguments() {
    // "string-like" admits simple strings in key and value positions
    let mut h = CommandHandler::from(Store::new());
    let input = RespData::Array(vec![bulk("SET"), simple("k"), simple("v")]);
    assert_eq!(h.handle(&input), simple("OK"));
    assert_eq!(h.handle(&req(&["GET", "k"])), bulk("v"));
    let by_simple = RespData::Array(vec![bulk("GET"), simple("k")]);
    assert_eq!(h.handle(&by_simple), bulk("v"));
}

#[test]
fn hset_and_hget_accept_simple_string_arguments() {
    let mut h = CommandHandler::from(Store::new());
    let input = RespData::Array(vec![bulk("HSET"), simple("h"), simple("f"), simple("v")]);
    assert_eq!(h.handle(&input), RespData::Integer(1));
    let probe = RespData::Array(vec![bulk("HGET"), simple("h"), simple("f")]);
    assert_eq!(h.handle(&probe), bulk("v"));
    let all = RespData::Array(vec![bulk("HGETALL"), simple("h")]);
    assert_eq!(h.handle(&all), RespData::Array(vec![bulk("f"), bulk("v")]));
}

