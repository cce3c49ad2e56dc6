use text_toolkit::casing::{convert, Mode};
use text_toolkit::dedup::{self, dedup};
use text_toolkit::freq::{self, frequencies};
use text_toolkit::number::{head, number, tail};
use text_toolkit::replace::replace;
use text_toolkit::sort::{self, key_for, numeric_prefix, sort};
use text_toolkit::trim::trim;
use text_toolkit::wc::{self, count, count_pattern, Select};
use text_toolkit::wrap::wrap;
use text_toolkit::{join_lines, split_lines};

fn order_key(x: f64) -> u64 {
    text_toolkit::sort::order_key(x.to_bits())
}

/// What the `sort` command writes for `input`.
fn sort_command(input: &str, opts: &sort::Options) -> String {
    let lines = split_lines(input);
    let numbers: Vec<u64> = if opts.numeric {
        lines
            .iter()
            .map(|l| {
                let key: String = key_for(l, opts).into_iter().collect();
                order_key(numeric_prefix(&key).parse::<f64>().unwrap_or(0.0))
            })
            .collect()
    } else {
        Vec::new()
    };
    join_lines(&sort(&lines, opts, &numbers))
}

fn sort_opts() -> sort::Options {
    sort::Options { delim: ' ', ..Default::default() }
}

#[test]
fn wc_via_stdin_default_counts() {
    let c = count("a b\nc d e\n");
    assert_eq!(format!("{}\n", wc::format(&c, &Select::default())), "2 5 10\n");
}

#[test]
fn wc_select_words_only() {
    let c = count("one two three\n");
    let sel = Select { words: true, ..Default::default() };
    assert_eq!(format!("{}\n", wc::format(&c, &sel)), "3\n");
}

#[test]
fn wc_pattern_count() {
    let n = count_pattern("bar baz bat\n", "ba").unwrap();
    assert_eq!(format!("{n}\n"), "3\n");
}

#[test]
fn dedup_global_via_stdin() {
    let lines = split_lines("a\nb\na\nc\nb\n");
    let out = dedup(&lines, dedup::Options::default());
    assert_eq!(join_lines(&out), "a\nb\nc\n");
}

#[test]
fn dedup_adjacent_keeps_nonadjacent() {
    let lines = split_lines("a\nb\na\nc\nb\n");
    let out = dedup(&lines, dedup::Options { adjacent: true, ignore_case: false });
    assert_eq!(join_lines(&out), "a\nb\na\nc\nb\n");
}

#[test]
fn dedup_ignore_case() {
    let lines = split_lines("Apple\napple\nBanana\n");
    let out = dedup(&lines, dedup::Options { adjacent: false, ignore_case: true });
    assert_eq!(join_lines(&out), "Apple\nBanana\n");
}

#[test]
fn sort_numeric_via_stdin() {
    let opts = sort::Options { numeric: true, ..sort_opts() };
    assert_eq!(sort_command("10\n2\n100\n9\n", &opts), "2\n9\n10\n100\n");
}

#[test]
fn sort_lexical_default() {
    assert_eq!(sort_command("banana\napple\ncherry\n", &sort_opts()), "apple\nbanana\ncherry\n");
}

#[test]
fn sort_reverse_unique() {
    let opts = sort::Options { reverse: true, unique: true, ..sort_opts() };
    assert_eq!(sort_command("b\na\nb\nc\na\n", &opts), "c\nb\na\n");
}

#[test]
fn sort_by_field_with_delim() {
    let opts = sort::Options { numeric: true, by_field: Some(2), delim: ',', ..Default::default() };
    assert_eq!(sort_command("alice,30\nbob,5\ncarol,12\n", &opts), "bob,5\ncarol,12\nalice,30\n");
}

#[test]
fn case_upper_and_title() {
    assert_eq!(convert("hello world\n", Mode::Upper), "HELLO WORLD\n");
    assert_eq!(convert("the quick brown fox\n", Mode::Title), "The Quick Brown Fox\n");
}

#[test]
fn freq_top_n_ordering() {
    let e = frequencies("a a a b b c\n", freq::Options { top: Some(2), ..Default::default() });
    assert_eq!(freq::format(&e), "3\ta\n2\tb\n");
}

#[test]
fn freq_ignore_case() {
    let e = frequencies(
        "The the THE cat\n",
        freq::Options { ignore_case: true, top: Some(1), ..Default::default() },
    );
    assert_eq!(freq::format(&e), "3\tthe\n");
}

#[test]
fn wrap_respects_width() {
    let stdout = wrap("the quick brown fox jumps\n", 12);
    for line in stdout.lines() {
        assert!(line.chars().count() <= 12, "line too long: {line:?}");
    }
    for w in ["the", "quick", "brown", "fox", "jumps"] {
        assert!(stdout.split_whitespace().any(|t| t == w));
    }
}

#[test]
fn replace_with_capture_group() {
    assert_eq!(replace("Alice Smith\n", r"(\w+) (\w+)", "$2, $1").unwrap(), "Smith, Alice\n");
}

#[test]
fn trim_normalizes_blank_lines_and_trailing_ws() {
    assert_eq!(trim("\n\nhello   \n\n\nworld\t\n\n"), "hello\n\nworld\n");
}

#[test]
fn number_prefixes_lines() {
    assert_eq!(number(&split_lines("a\nb\nc\n")), "1\ta\n2\tb\n3\tc\n");
}

#[test]
fn head_and_tail() {
    let lines = split_lines("1\n2\n3\n4\n5\n");
    assert_eq!(join_lines(&head(&lines, 2)), "1\n2\n");
    assert_eq!(join_lines(&tail(&lines, 2)), "4\n5\n");
}

#[test]
fn invalid_regex_errors_nonzero() {
    assert!(replace("hello\n", "(", "x").is_err());
}
