use text_toolkit::{join_lines, split_lines};

#[test]
fn split_lines_basic() {
    assert_eq!(split_lines("a\nb\nc"), vec!["a", "b", "c"]);
}

#[test]
fn split_lines_trailing_newline_no_empty() {
    assert_eq!(split_lines("a\nb\n"), vec!["a", "b"]);
}

#[test]
fn split_lines_crlf() {
    assert_eq!(split_lines("a\r\nb\r\n"), vec!["a", "b"]);
}

#[test]
fn split_lines_empty_input() {
    assert!(split_lines("").is_empty());
}

#[test]
fn split_lines_single_newline_is_one_blank() {
    assert_eq!(split_lines("\n"), vec![""]);
}

#[test]
fn split_lines_internal_blanks_preserved() {
    assert_eq!(split_lines("a\n\nb\n"), vec!["a", "", "b"]);
}

#[test]
fn join_round_trip() {
    let lines = split_lines("a\nb\nc\n");
    assert_eq!(join_lines(&lines), "a\nb\nc\n");
}

#[test]
fn join_empty_is_empty() {
    let empty: Vec<&str> = Vec::new();
    assert_eq!(join_lines(&empty), "");
}

#[test]
fn split_lines_strips_only_one_carriage_return() {
    assert_eq!(split_lines("a\r\r\nb"), vec!["a\r", "b"]);
}

#[test]
fn split_lines_keeps_interior_carriage_return() {
    assert_eq!(split_lines("a\rb\n"), vec!["a\rb"]);
}

#[test]
fn split_lines_two_trailing_newlines_give_blank_last_line() {
    assert_eq!(split_lines("a\n\n"), vec!["a", ""]);
}

#[test]
fn split_lines_multibyte_characters() {
    assert_eq!(split_lines("café\nnaïve\r\n€"), vec!["café", "naïve", "€"]);
}

#[test]
fn split_of_join_gives_lines_back() {
    let lines = vec!["x", "", "y z", "é"];
    let joined = join_lines(&lines);
    assert_eq!(joined, "x\n\ny z\né\n");
    assert_eq!(split_lines(&joined), lines);
}

#[test]
fn join_of_split_gives_text_back() {
    let text = "one\n\ntwo three\n";
    assert_eq!(join_lines(&split_lines(text)), text);
}
