use text_toolkit::trim::trim;

#[test]
fn strips_trailing_whitespace() {
    assert_eq!(trim("hello   \nworld\t\n"), "hello\nworld\n");
}

#[test]
fn collapses_blank_runs() {
    assert_eq!(trim("a\n\n\n\nb\n"), "a\n\nb\n");
}

#[test]
fn removes_leading_and_trailing_blanks() {
    assert_eq!(trim("\n\nhello\n\n\n"), "hello\n");
}

#[test]
fn strips_cr_from_crlf() {
    assert_eq!(trim("a\r\nb\r\n"), "a\nb\n");
}

#[test]
fn whitespace_only_line_becomes_blank_then_collapses() {
    assert_eq!(trim("a\n   \nb\n"), "a\n\nb\n");
}

#[test]
fn all_blank_input_yields_empty() {
    assert_eq!(trim("\n\n   \n\t\n"), "");
}

#[test]
fn single_line_no_newline_gets_one() {
    assert_eq!(trim("hello   "), "hello\n");
}

#[test]
fn empty_text_stays_empty() {
    assert_eq!(trim(""), "");
}

#[test]
fn leading_whitespace_is_kept() {
    assert_eq!(trim("  indented\t \n"), "  indented\n");
}

#[test]
fn other_trailing_whitespace_is_kept() {
    assert_eq!(trim("a\u{a0}\n"), "a\u{a0}\n");
}

#[test]
fn trimming_twice_is_trimming_once() {
    for text in ["\n a \n\n\n b\t\r\n\n", "x", "", " \n", "p\n\nq\n"] {
        let once = trim(text);
        assert_eq!(trim(&once), once);
    }
}

#[test]
fn output_ends_with_exactly_one_newline() {
    let out = trim("a\n\nb  \n \n\n");
    assert_eq!(out, "a\n\nb\n");
    assert!(out.ends_with('\n') && !out.ends_with("\n\n"));
}
