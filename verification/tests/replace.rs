use text_toolkit::pattern::PatternError;
use text_toolkit::replace::replace;

#[test]
fn literal_replace() {
    assert_eq!(replace("foo bar foo", "foo", "baz").unwrap(), "baz bar baz");
}

#[test]
fn capture_group_reorder() {
    let real = replace("Alice Smith", r"(\w+) (\w+)", "$2, $1").unwrap();
    assert_eq!(real, "Smith, Alice");
}

#[test]
fn named_capture_group() {
    let real = replace("2026-06-21", r"(?P<y>\d{4})-(?P<m>\d{2})-(?P<d>\d{2})", "$m/$d/$y").unwrap();
    assert_eq!(real, "06/21/2026");
}

#[test]
fn replace_across_newlines() {
    let out = replace("a\nb\na", "a", "X").unwrap();
    assert_eq!(out, "X\nb\nX");
}

#[test]
fn no_match_returns_unchanged() {
    assert_eq!(replace("hello", "zzz", "q").unwrap(), "hello");
}

#[test]
fn invalid_regex_errors() {
    assert!(replace("x", "(", "y").is_err());
}

#[test]
fn digits_to_hash() {
    let out = replace("abc123def456", r"\d+", "#").unwrap();
    assert_eq!(out, "abc#def#");
}

#[test]
fn invalid_regex_gives_invalid_error() {
    match replace("x", "[a-", "y") {
        Err(PatternError::Invalid(_)) => {}
        other => panic!("expected an invalid-pattern error, got {other:?}"),
    }
}

#[test]
fn dollar_dollar_is_a_literal_dollar() {
    assert_eq!(replace("cost 5", r"\d", "$$").unwrap(), "cost $");
}

#[test]
fn braced_group_reference() {
    assert_eq!(replace("ab", "(a)(b)", "${2}x${1}").unwrap(), "bxa");
}
