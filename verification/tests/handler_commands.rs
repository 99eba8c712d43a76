//! Dispatcher tests: each command against seeded stores.

use std::collections::HashSet;

use miniredis::handler::{CommandHandler, FieldMap, RedisValue, Store};
use miniredis::resp::RespData;

fn create_empty_handler() -> CommandHandler {
    CommandHandler::from(Store::new())
}

#[test]
fn test_ping() {
    let mut handler = create_empty_handler();

    let result = handler.ping();

    assert_eq!(result, RespData::SimpleString("PONG".to_string()));
}

#[test]
fn test_set() {
    let mut handler = create_empty_handler();

    let test_cases = [
        (
            "Valid SET command",
            RespData::Array(vec![
                RespData::BulkString("SET".to_string()),
                RespData::BulkString("key1".to_string()),
                RespData::BulkString("value1".to_string()),
            ]),
            RespData::SimpleString("OK".to_string()),
        ),
        (
            "Not enough arguments",
            RespData::Array(vec![
                RespData::BulkString("SET".to_string()),
                RespData::BulkString("key1".to_string()),
            ]),
            RespData::Error("wrong number of arguments for 'set' command".to_string()),
        ),
        (
            "Too many arguments",
            RespData::Array(vec![
                RespData::BulkString("SET".to_string()),
                RespData::BulkString("key1".to_string()),
                RespData::BulkString("value1".to_string()),
                RespData::BulkString("value2".to_string()),
            ]),
            RespData::Error("syntax error".to_string()),
        ),
    ];

    for (name, input, expected_output) in test_cases {
        let result = handler.set(&input);
        assert_eq!(result, expected_output, "{}", name);
    }
}

#[test]
fn test_get() {
    let mut handler = create_empty_handler();

    handler.db.insert(
        "existing_key".to_string(),
        RedisValue::Str("existing_value".to_string()),
    );

    let test_cases = [
        (
            "Valid GET for existing key",
            RespData::Array(vec![
                RespData::BulkString("GET".to_string()),
                RespData::BulkString("existing_key".to_string()),
            ]),
            RespData::BulkString("existing_value".to_string()),
        ),
        (
            "Valid GET for non-existing key",
            RespData::Array(vec![
                RespData::BulkString("GET".to_string()),
                RespData::BulkString("non_existing_key".to_string()),
            ]),
            RespData::Null,
        ),
        (
            "Not enough arguments",
            RespData::Array(vec![RespData::BulkString("GET".to_string())]),
            RespData::Error("wrong number of arguments for 'get' command".to_string()),
        ),
        (
            "Too many arguments",
            RespData::Array(vec![
                RespData::BulkString("GET".to_string()),
                RespData::BulkString("key1".to_string()),
                RespData::BulkString("key2".to_string()),
            ]),
            RespData::Error("wrong number of arguments for 'get' command".to_string()),
        ),
    ];

    for (name, input, expected_output) in test_cases {
        let result = handler.get(&input);
        assert_eq!(result, expected_output, "{}", name);
    }
}

#[test]
fn test_hset() {
    let mut handler = create_empty_handler();

    let mut initial_hash = FieldMap::new();
    initial_hash.insert("field1".to_string(), "value1".to_string());
    handler
        .db
        .insert("existing_hash".to_string(), RedisValue::Hash(initial_hash));
    handler.db.insert(
        "string_key".to_string(),
        RedisValue::Str("string_value".to_string()),
    );

    let test_cases = [
        (
            "Valid HSET create a new hash",
            RespData::Array(vec![
                RespData::BulkString("HSET".to_string()),
                RespData::BulkString("new_hash".to_string()),
                RespData::BulkString("field1".to_string()),
                RespData::BulkString("value1".to_string()),
            ]),
            RespData::Integer(1), // New field
        ),
        (
            "Valid HSET adding new field to existing hash",
            RespData::Array(vec![
                RespData::BulkString("HSET".to_string()),
                RespData::BulkString("existing_hash".to_string()),
                RespData::BulkString("field2".to_string()),
                RespData::BulkString("value2".to_string()),
            ]),
            RespData::Integer(1), // New field
        ),
        (
            "Valid HSET updating existing field",
            RespData::Array(vec![
                RespData::BulkString("HSET".to_string()),
                RespData::BulkString("existing_hash".to_string()),
                RespData::BulkString("field1".to_string()),
                RespData::BulkString("new_value".to_string()),
            ]),
            RespData::Integer(0), // Existing field
        ),
        (
            "Not enough arguments",
            RespData::Array(vec![
                RespData::BulkString("HSET".to_string()),
                RespData::BulkString("hash".to_string()),
                RespData::BulkString("field".to_string()),
            ]),
            RespData::Error("wrong number of arguments for 'hset' command".to_string()),
        ),
        (
            "Invalid key value pair arguments",
            RespData::Array(vec![
                RespData::BulkString("HSET".to_string()),
                RespData::BulkString("hash".to_string()),
                RespData::BulkString("field1".to_string()),
                RespData::BulkString("value1".to_string()),
                RespData::BulkString("field2".to_string()),
            ]),
            RespData::Error("wrong number of arguments for 'hset' command".to_string()),
        ),
    ];

    for (name, input, expected_output) in test_cases {
        let result = handler.hset(&input);
        assert_eq!(result, expected_output, "{}", name);
    }
}

#[test]
fn test_hget() {
    let mut handler = create_empty_handler();

    // Set up some test data in the DB
    let mut test_hash = FieldMap::new();
    test_hash.insert("existing_field".to_string(), "field_value".to_string());
    handler
        .db
        .insert("existing_hash".to_string(), RedisValue::Hash(test_hash));
    handler.db.insert(
        "string_key".to_string(),
        RedisValue::Str("string_value".to_string()),
    );

    // Test cases with different inputs
    let test_cases = [
        (
            "Valid HGET for existing hash and field",
            RespData::Array(vec![
                RespData::BulkString("HGET".to_string()),
                RespData::BulkString("existing_hash".to_string()),
                RespData::BulkString("existing_field".to_string()),
            ]),
            RespData::BulkString("field_value".to_string()),
        ),
        (
            "Valid HGET for existing hash but non-existing field",
            RespData::Array(vec![
                RespData::BulkString("HGET".to_string()),
                RespData::BulkString("existing_hash".to_string()),
                RespData::BulkString("non_existing_field".to_string()),
            ]),
            RespData::Null,
        ),
        (
            "HGET for non-existing hash",
            RespData::Array(vec![
                RespData::BulkString("HGET".to_string()),
                RespData::BulkString("non_existing_hash".to_string()),
                RespData::BulkString("field".to_string()),
            ]),
            RespData::Null,
        ),
        (
            "Not enough arguments",
            RespData::Array(vec![
                RespData::BulkString("HGET".to_string()),
                RespData::BulkString("hash".to_string()),
            ]),
            RespData::Error("wrong number of arguments for 'hget' command".to_string()),
        ),
    ];

    for (name, input, expected_output) in test_cases {
        let result = handler.hget(&input);
        assert_eq!(result, expected_output, "{}", name);
    }
}

#[test]
fn test_hgetall() {
    let mut handler = create_empty_handler();

    let mut hash_map = FieldMap::new();
    hash_map.insert("field1".to_string(), "value1".to_string());
    hash_map.insert("field2".to_string(), "value2".to_string());
    handler
        .db
        .insert("hash_key".to_string(), RedisValue::Hash(hash_map));

    handler.db.insert(
        "string_key".to_string(),
        RedisValue::Str("some_string".to_string()),
    );

    let test_cases = [
        (
            "Valid HGETALL for existing hash",
            RespData::Array(vec![
                RespData::BulkString("HGETALL".to_string()),
                RespData::BulkString("hash_key".to_string()),
            ]),
            // Expected result is an array with field-value pairs
            // Note: we can't predict the exact order of fields due to HashMap
            RespData::Array(vec![
                RespData::BulkString("field1".to_string()),
                RespData::BulkString("value1".to_string()),
                RespData::BulkString("field2".to_string()),
                RespData::BulkString("value2".to_string()),
            ]),
        ),
        (
            "HGETALL for non-existing hash",
            RespData::Array(vec![
                RespData::BulkString("HGETALL".to_string()),
                RespData::BulkString("non_existing_key".to_string()),
            ]),
            RespData::Array(vec![]),
        ),
        (
            "Not enough arguments",
            RespData::Array(vec![RespData::BulkString("HGETALL".to_string())]),
            RespData::Error("wrong number of arguments for 'hgetall' command".to_string()),
        ),
    ];

    for (name, input, expected_result) in test_cases {
        let result = handler.hgetall(&input);
        match (result, expected_result) {
            (RespData::Array(res), RespData::Array(exp)) => {
                let result_hashset: HashSet<RespData> = res.into_iter().collect();
                assert_eq!(result_hashset, exp.into_iter().collect(), "{}", name);
            }
            (RespData::Error(res), RespData::Error(exp)) => {
                assert_eq!(res, exp, "{}", name);
            }
            _ => {
                panic!("Unexpected result for {}", name);
            }
        }
    }
}
