use kelpyshark_stdlib::io::strip_line_ending;

#[test]
fn strips_one_line_ending() {
    assert_eq!(strip_line_ending("abc\n"), "abc");
    assert_eq!(strip_line_ending("abc\r\n"), "abc");
    assert_eq!(strip_line_ending("abc"), "abc");
    assert_eq!(strip_line_ending("abc\r"), "abc\r");
    assert_eq!(strip_line_ending("a\n\n"), "a\n");
    assert_eq!(strip_line_ending("\n"), "");
    assert_eq!(strip_line_ending(""), "");
}
