use kelpyshark_stdlib::json::value_to_json;
use kelpyshark_stdlib::json_parse::json_decode;
use kelpyshark_stdlib::strings::{
    str_char_at, str_contains, str_ends_with, str_join, str_replace, str_reverse, str_split,
    str_starts_with, str_substring, str_trim,
};
use kelpyshark_stdlib::value::{Entry, Value};

#[test]
fn join_of_split_gives_back_the_string() {
    for (s, d) in [("a,b,,c,", ","), ("abc", ""), ("", "x"), ("aaaa", "aa"), ("héllo wörld", "ö")] {
        assert_eq!(str_join(&str_split(s, d), d), s);
    }
}

#[test]
fn replacing_a_pattern_by_itself_changes_nothing() {
    for (s, p) in [("hello world", "o"), ("abc", ""), ("aaa", "aa")] {
        assert_eq!(str_replace(s, p, p), s);
    }
}

#[test]
fn replacing_an_absent_pattern_changes_nothing() {
    assert!(!str_contains("hello", "xyz"));
    assert_eq!(str_replace("hello", "xyz", "Q"), "hello");
}

#[test]
fn affixes_are_contained() {
    assert!(str_starts_with("kelpy", "ke") && str_contains("kelpy", "ke"));
    assert!(str_ends_with("kelpy", "py") && str_contains("kelpy", "py"));
}

#[test]
fn reversing_twice_gives_back_the_string() {
    assert_eq!(str_reverse(&str_reverse("añb c")), "añb c");
}

#[test]
fn trimming_is_idempotent() {
    let once = str_trim("\t  a b \u{2003}");
    assert_eq!(once, "a b");
    assert_eq!(str_trim(&once), once);
}

#[test]
fn char_at_is_the_one_character_substring() {
    assert_eq!(str_char_at("héllo", 1), str_substring("héllo", 1, 2));
    assert_eq!(str_substring("héllo", 0, 5), Ok("héllo".to_string()));
}

#[test]
fn decoding_the_encoding_gives_back_the_value() {
    let v = Value::Dict(vec![
        Entry { key: "a".to_string(), value: Value::List(vec![
            Value::Number("-1.5e3".to_string()),
            Value::String("q\"uote\\ and \n".to_string()),
            Value::Boolean(true),
            Value::Null,
        ]) },
        Entry { key: "b".to_string(), value: Value::Dict(vec![]) },
        Entry { key: "c".to_string(), value: Value::List(vec![]) },
    ]);
    let text = value_to_json(&v);
    assert_eq!(json_decode(&text), Ok(v));
}

#[test]
fn split_pieces_hold_no_delimiter() {
    for piece in str_split("xaaybaaz", "aa") {
        assert!(!str_contains(&piece, "aa"));
    }
}

#[test]
fn white_space_around_json_text_changes_nothing() {
    assert_eq!(json_decode(" \t[1, \"a\"]\n\u{2028}"), json_decode("[1, \"a\"]"));
    assert_eq!(json_decode("\u{a0}\"x"), json_decode("\"x"));
}

#[test]
fn decoding_ignores_what_follows_the_first_value() {
    let v = Value::List(vec![Value::Number("7".to_string())]);
    let mut text = value_to_json(&v);
    text.push_str(" trailing ]");
    assert_eq!(json_decode(&text), Ok(v));
    assert_eq!(json_decode("12x"), Ok(Value::Number("12".to_string())));
}
