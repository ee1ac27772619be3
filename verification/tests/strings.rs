use kelpyshark_stdlib::strings::{
    str_char_at, str_contains, str_ends_with, str_join, str_lower, str_replace, str_reverse,
    str_split, str_starts_with, str_substring, str_trim, str_upper,
};

fn strings(v: &[&str]) -> Vec<String> {
    v.iter().map(|x| x.to_string()).collect()
}

#[test]
fn test_upper_lower() {
    assert_eq!(str_upper("hello"), "HELLO");
    assert_eq!(str_lower("HELLO"), "hello");
}

#[test]
fn test_trim() {
    assert_eq!(str_trim("  hi  "), "hi");
}

#[test]
fn test_split() {
    let items = str_split("a,b,c", ",");
    assert_eq!(items.len(), 3);
}

#[test]
fn test_join() {
    let items = strings(&["a", "b", "c"]);
    assert_eq!(str_join(&items, "-"), "a-b-c");
}

#[test]
fn test_contains() {
    assert_eq!(str_contains("hello world", "world"), true);
    assert_eq!(str_contains("hello", "xyz"), false);
}

#[test]
fn test_replace() {
    assert_eq!(str_replace("hello world", "world", "Kelpy"), "hello Kelpy");
}

#[test]
fn test_starts_ends_with() {
    assert_eq!(str_starts_with("hello", "hel"), true);
    assert_eq!(str_ends_with("hello", "llo"), true);
}

#[test]
fn test_char_at() {
    assert_eq!(str_char_at("abc", 1), Ok("b".to_string()));
}

#[test]
fn test_substring() {
    assert_eq!(str_substring("hello", 1, 4), Ok("ell".to_string()));
}

#[test]
fn test_reverse() {
    assert_eq!(str_reverse("abc"), "cba");
}

#[test]
fn upper_lower_unicode() {
    assert_eq!(str_upper("straße"), "STRASSE");
    assert_eq!(str_lower("ÀÉ"), "àé");
}

#[test]
fn trim_unicode_white_space() {
    assert_eq!(str_trim("\u{3000}\t x y \n\u{a0}"), "x y");
    assert_eq!(str_trim(" \r\n "), "");
    assert_eq!(str_trim(""), "");
}

#[test]
fn split_pieces() {
    assert_eq!(str_split("a,b,c", ","), strings(&["a", "b", "c"]));
    assert_eq!(str_split("a,,b,", ","), strings(&["a", "", "b", ""]));
    assert_eq!(str_split("abc", "x"), strings(&["abc"]));
    assert_eq!(str_split("aaa", "aa"), strings(&["", "a"]));
    assert_eq!(str_split("", ","), strings(&[""]));
}

#[test]
fn split_empty_delimiter() {
    assert_eq!(str_split("abc", ""), strings(&["", "a", "b", "c", ""]));
    assert_eq!(str_split("", ""), strings(&["", ""]));
}

#[test]
fn join_edges() {
    assert_eq!(str_join(&Vec::new(), ", "), "");
    assert_eq!(str_join(&strings(&["only"]), ", "), "only");
    assert_eq!(str_join(&strings(&["a", "b"]), ""), "ab");
}

#[test]
fn replace_edges() {
    assert_eq!(str_replace("ab", "", "x"), "xaxbx");
    assert_eq!(str_replace("aaaa", "aa", "b"), "bb");
    assert_eq!(str_replace("abc", "z", "y"), "abc");
    assert_eq!(str_replace("a.b.c", ".", ""), "abc");
}

#[test]
fn contains_edges() {
    assert!(str_contains("abc", ""));
    assert!(str_contains("", ""));
    assert!(!str_contains("ab", "abc"));
    assert!(str_contains("abc", "abc"));
}

#[test]
fn affix_edges() {
    assert!(str_starts_with("abc", ""));
    assert!(str_ends_with("abc", ""));
    assert!(!str_starts_with("ab", "abc"));
    assert!(!str_ends_with("abc", "ab"));
}

#[test]
fn char_at_out_of_bounds() {
    assert_eq!(
        str_char_at("abc", 3),
        Err("str_char_at(): index 3 out of bounds for string of length 3".to_string())
    );
    // the length in the message counts UTF-8 bytes
    assert_eq!(
        str_char_at("é", 5),
        Err("str_char_at(): index 5 out of bounds for string of length 2".to_string())
    );
    assert_eq!(str_char_at("héllo", 1), Ok("é".to_string()));
}

#[test]
fn substring_errors() {
    assert_eq!(
        str_substring("hello", 4, 2),
        Err("str_substring(): invalid range 4..2 for string of length 5".to_string())
    );
    assert_eq!(
        str_substring("héllo", 0, 10),
        Err("str_substring(): invalid range 0..10 for string of length 5".to_string())
    );
    assert_eq!(str_substring("hello", 5, 5), Ok("".to_string()));
    assert_eq!(str_substring("héllo", 0, 2), Ok("hé".to_string()));
}

#[test]
fn reverse_unicode() {
    assert_eq!(str_reverse("añb"), "bña");
    assert_eq!(str_reverse(""), "");
}

#[test]
fn white_space_test_matches_std() {
    for u in 0u32..0x110000 {
        if let Some(c) = char::from_u32(u) {
            assert_eq!(kelpyshark_stdlib::text::char_is_whitespace(c), c.is_whitespace(), "{:?}", c);
        }
    }
}
