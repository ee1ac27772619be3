use kelpyshark_stdlib::json::{json_encode, value_to_json};
use kelpyshark_stdlib::json_parse::{json_decode, parse_json_value};
use kelpyshark_stdlib::value::{is_well_keyed, Entry, Value};

fn s(val: &str) -> Value {
    Value::String(val.to_string())
}

fn num(text: &str) -> Value {
    Value::Number(text.to_string())
}

fn entry(key: &str, value: Value) -> Entry {
    Entry { key: key.to_string(), value }
}

fn get<'a>(entries: &'a [Entry], key: &str) -> Option<&'a Value> {
    entries.iter().find(|e| e.key == key).map(|e| &e.value)
}

#[test]
fn test_encode_number() {
    let result = json_encode(&num("42"));
    assert_eq!(result, s("42"));
}

#[test]
fn test_encode_string() {
    let result = json_encode(&s("hello"));
    assert_eq!(result, s("\"hello\""));
}

#[test]
fn test_encode_list() {
    let list = Value::List(vec![num("1"), num("2")]);
    let result = json_encode(&list);
    assert_eq!(result, s("[1, 2]"));
}

#[test]
fn test_encode_dict() {
    let dict = Value::Dict(vec![entry("name", s("Bob"))]);
    let result = json_encode(&dict);
    match result {
        Value::String(json) => assert!(json.contains("\"name\": \"Bob\"")),
        _ => panic!(),
    }
}

#[test]
fn test_decode_number() {
    let result = json_decode("42").unwrap();
    assert_eq!(result, num("42"));
}

#[test]
fn test_decode_string() {
    let result = json_decode("\"hello\"").unwrap();
    assert_eq!(result, s("hello"));
}

#[test]
fn test_decode_bool() {
    assert_eq!(json_decode("true").unwrap(), Value::Boolean(true));
    assert_eq!(json_decode("false").unwrap(), Value::Boolean(false));
}

#[test]
fn test_decode_null() {
    assert_eq!(json_decode("null").unwrap(), Value::Null);
}

#[test]
fn test_decode_array() {
    let result = json_decode("[1, 2, 3]").unwrap();
    match result {
        Value::List(items) => {
            assert_eq!(items.len(), 3);
            assert_eq!(items[0], num("1"));
        }
        _ => panic!("expected list"),
    }
}

#[test]
fn test_decode_object() {
    let result = json_decode("{\"name\": \"Bob\", \"age\": 27}").unwrap();
    match result {
        Value::Dict(map) => {
            assert_eq!(get(&map, "name"), Some(&s("Bob")));
            assert_eq!(get(&map, "age"), Some(&num("27")));
        }
        _ => panic!("expected dict"),
    }
}

#[test]
fn test_roundtrip() {
    let original = Value::Dict(vec![entry("x", num("10"))]);
    let encoded = json_encode(&original);
    let text = match encoded {
        Value::String(t) => t,
        _ => panic!("expected string"),
    };
    let decoded = json_decode(&text).unwrap();
    match decoded {
        Value::Dict(m) => assert_eq!(get(&m, "x"), Some(&num("10"))),
        _ => panic!("expected dict"),
    }
}

#[test]
fn encode_escapes_strings_and_keys() {
    assert_eq!(value_to_json(&s("a\"b\\c")), "\"a\\\"b\\\\c\"");
    let dict = Value::Dict(vec![entry("a\"b", num("1"))]);
    assert_eq!(value_to_json(&dict), "{\"a\\\"b\": 1}");
    assert_eq!(value_to_json(&Value::Class { name: "Q\"".to_string() }), "\"<class Q\\\">\"");
}

#[test]
fn encode_other_values() {
    assert_eq!(value_to_json(&Value::Boolean(false)), "false");
    assert_eq!(value_to_json(&Value::Null), "null");
    assert_eq!(value_to_json(&Value::List(vec![])), "[]");
    assert_eq!(value_to_json(&Value::Dict(vec![])), "{}");
    assert_eq!(value_to_json(&Value::Function { name: "f".to_string() }), "\"<function f>\"");
    assert_eq!(value_to_json(&Value::NativeFunction { name: "g".to_string() }), "\"<native g>\"");
    assert_eq!(value_to_json(&Value::Class { name: "C".to_string() }), "\"<class C>\"");
    let inst = Value::Instance {
        class_name: "P".to_string(),
        fields: vec![entry("x", num("1")), entry("y", Value::List(vec![s("a")]))],
    };
    assert_eq!(value_to_json(&inst), "{\"__class__\": \"P\", \"x\": 1, \"y\": [\"a\"]}");
    let empty = Value::Instance { class_name: "E".to_string(), fields: vec![] };
    assert_eq!(value_to_json(&empty), "{\"__class__\": \"E\"}");
}

#[test]
fn decode_nested_and_white_space() {
    let v = json_decode("\u{3000} { \"a\" : [ 1 , {\"b\":null} ] ,\"c\":\"x\\ny\\t\\\\\\\"\\q\" } \n").unwrap();
    assert_eq!(
        v,
        Value::Dict(vec![
            entry("a", Value::List(vec![num("1"), Value::Dict(vec![entry("b", Value::Null)])])),
            entry("c", s("x\ny\t\\\"q")),
        ])
    );
}

#[test]
fn decode_ignores_what_follows() {
    assert_eq!(json_decode("1 2").unwrap(), num("1"));
    assert_eq!(json_decode("truex").unwrap(), Value::Boolean(true));
    assert_eq!(json_decode("[]]").unwrap(), Value::List(vec![]));
}

#[test]
fn decode_numbers() {
    assert_eq!(json_decode("-1.5e+3").unwrap(), num("-1.5e+3"));
    assert_eq!(json_decode("1.").unwrap(), num("1."));
    assert_eq!(json_decode("0.5E2").unwrap(), num("0.5E2"));
}

#[test]
fn decode_duplicate_keys_keep_the_last_value_in_place() {
    let v = json_decode("{\"a\": 1, \"b\": 2, \"a\": 3}").unwrap();
    assert_eq!(v, Value::Dict(vec![entry("a", num("3")), entry("b", num("2"))]));
}

fn err(text: &str) -> String {
    json_decode(text).unwrap_err()
}

#[test]
fn decode_errors() {
    assert_eq!(err("   "), "json_decode(): unexpected end of JSON");
    assert_eq!(err("[1,"), "json_decode(): unexpected end of JSON");
    assert_eq!(err("x"), "json_decode(): unexpected character 'x' in JSON");
    assert_eq!(err("[1,]"), "json_decode(): unexpected character ']' in JSON");
    assert_eq!(err("é"), "json_decode(): unexpected character 'Ã' in JSON");
    assert_eq!(err("{1: 2}"), "json_decode(): expected '\"'");
    assert_eq!(err("{\"a\": 1,}"), "json_decode(): expected '\"'");
    assert_eq!(err("\"abc"), "json_decode(): unterminated string");
    assert_eq!(err("\"abc\\"), "json_decode(): unterminated escape");
    assert_eq!(err("1.2.3"), "json_decode(): invalid number: 1.2.3");
    assert_eq!(err("-"), "json_decode(): invalid number: -");
    assert_eq!(err("1e"), "json_decode(): invalid number: 1e");
    assert_eq!(err("[-x]"), "json_decode(): invalid number: -");
    assert_eq!(err("tru"), "json_decode(): expected 'true' or 'false'");
    assert_eq!(err("nul"), "json_decode(): expected 'null'");
    assert_eq!(err("[1 2]"), "json_decode(): expected ',' or ']' in array");
    assert_eq!(err("{\"a\" 1}"), "json_decode(): expected ':' after object key");
    assert_eq!(err("{\"a\": 1 2}"), "json_decode(): expected ',' or '}' in object");
}

#[test]
fn parse_value_skips_leading_white_space_and_returns_the_rest() {
    assert_eq!(parse_json_value("  [1] tail"), Ok((Value::List(vec![num("1")]), " tail".to_string())));
    assert_eq!(parse_json_value("\t\"a\",b"), Ok((s("a"), ",b".to_string())));
    assert_eq!(parse_json_value(" ?"), Err("unexpected character '?' in JSON".to_string()));
    assert_eq!(parse_json_value("\n"), Err("unexpected end of JSON".to_string()));
}

#[test]
fn well_keyed_values() {
    assert!(is_well_keyed(&Value::Dict(vec![entry("a", num("1")), entry("b", num("2"))])));
    assert!(!is_well_keyed(&Value::Dict(vec![entry("a", num("1")), entry("a", num("2"))])));
    assert!(!is_well_keyed(&Value::List(vec![Value::Dict(vec![entry("k", Value::Null), entry("k", Value::Null)])])));
    assert!(is_well_keyed(&num("3")));
}

#[test]
fn decoded_keys_read_back_escaped() {
    let v = Value::Dict(vec![entry("q\"uo\\te", s("x"))]);
    assert_eq!(json_decode(&value_to_json(&v)), Ok(v));
}
