use text_toolkit::split_lines;
use text_toolkit::wc::{self, count, count_pattern, Counts, Select};

const SAMPLE: &str = "hello world foo\nbar  baz\tqux\nthe café end\n";

#[test]
fn counts_lines_words_chars_bytes() {
    let c = count(SAMPLE);
    assert_eq!(c.lines, 3, "three newline terminators");
    assert_eq!(c.words, 9, "split_whitespace collapses runs/tabs");
    assert_eq!(c.chars, SAMPLE.chars().count());
    assert_eq!(c.bytes, SAMPLE.len());
    assert!(c.bytes > c.chars, "é makes bytes exceed chars");
    assert_eq!(c.bytes, c.chars + 1, "exactly one extra byte from é");
}

#[test]
fn no_trailing_newline_counts_one_fewer_line() {
    assert_eq!(count("a\nb").lines, 1);
    assert_eq!(count("a\nb\n").lines, 2);
}

#[test]
fn empty_input_all_zero() {
    assert_eq!(count(""), Counts::default());
}

#[test]
fn format_default_is_lines_words_bytes() {
    let c = count(SAMPLE);
    let s = wc::format(&c, &Select::default());
    assert_eq!(s, format!("{} {} {}", c.lines, c.words, c.bytes));
}

#[test]
fn format_selected_only_words() {
    let c = count(SAMPLE);
    let sel = Select { words: true, ..Default::default() };
    assert_eq!(wc::format(&c, &sel), c.words.to_string());
}

#[test]
fn format_selected_chars_and_lines_order() {
    let c = count(SAMPLE);
    let sel = Select { lines: true, chars: true, ..Default::default() };
    assert_eq!(wc::format(&c, &sel), format!("{} {}", c.lines, c.chars));
}

#[test]
fn pattern_count_simple() {
    let n = count_pattern(SAMPLE, "ba").unwrap();
    assert_eq!(n, 2, "matches 'ba' in bar and baz");
}

#[test]
fn pattern_count_word_boundary() {
    let n = count_pattern("foo foofoo foo", r"\bfoo\b").unwrap();
    assert_eq!(n, 2);
}

#[test]
fn pattern_count_invalid_regex_errors() {
    assert!(count_pattern("x", "(").is_err());
}

#[test]
fn exact_counts_of_sample() {
    assert_eq!(count(SAMPLE), Counts { lines: 3, words: 9, chars: 42, bytes: 43 });
}

#[test]
fn unicode_whitespace_separates_words() {
    let c = count("a\u{3000}b\u{85}c\u{a0}d");
    assert_eq!(c.words, 4);
    assert_eq!(c.lines, 0);
    assert_eq!(c.chars, 7);
    assert_eq!(c.bytes, 11);
}

#[test]
fn is_empty_only_without_selection() {
    assert!(Select::default().is_empty());
    assert!(!Select { bytes: true, ..Default::default() }.is_empty());
}

#[test]
fn format_all_fields() {
    let c = Counts { lines: 1, words: 22, chars: 333, bytes: 4444 };
    let all = Select { lines: true, words: true, chars: true, bytes: true };
    assert_eq!(wc::format(&c, &all), "1 22 333 4444");
    assert_eq!(wc::format(&Counts::default(), &Select::default()), "0 0 0");
}

#[test]
fn line_count_against_split_lines() {
    for text in ["a\nb\n", "a\nb", "\n", "x", "a\n\n"] {
        let n = count(text).lines;
        let rows = split_lines(text).len();
        if text.ends_with('\n') {
            assert_eq!(n, rows, "{text:?}");
        } else {
            assert_eq!(n + 1, rows, "{text:?}");
        }
    }
}

#[test]
fn bytes_between_chars_and_four_times() {
    let c = count("aé€😀");
    assert_eq!(c.chars, 4);
    assert_eq!(c.bytes, 1 + 2 + 3 + 4);
    let ascii = count("plain ascii\n");
    assert_eq!(ascii.bytes, ascii.chars);
}

#[test]
fn pattern_count_across_lines() {
    assert_eq!(count_pattern("a\na\nb", "(?m)^a$").unwrap(), 2);
    assert_eq!(count_pattern("", "x").unwrap(), 0);
}

#[test]
fn counts_of_joined_texts_add_up() {
    for (a, b) in [("one two", "three\n"), ("one two ", "three\n"), ("é\n", "x y"), ("", "a"), ("ab", "")] {
        let (x, y, z) = (count(a), count(b), count(&[a, b].concat()));
        let cut = !a.is_empty() && !b.is_empty()
            && !a.chars().last().unwrap().is_whitespace()
            && !b.chars().next().unwrap().is_whitespace();
        assert_eq!(z.lines, x.lines + y.lines);
        assert_eq!(z.chars, x.chars + y.chars);
        assert_eq!(z.bytes, x.bytes + y.bytes);
        assert_eq!(z.words + usize::from(cut), x.words + y.words, "{a:?} {b:?}");
    }
}
