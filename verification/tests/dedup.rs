use text_toolkit::dedup::{dedup, Options};
use text_toolkit::split_lines;

fn lines(s: &str) -> Vec<&str> {
    split_lines(s)
}

#[test]
fn global_removes_nonadjacent_duplicates() {
    let input = lines("a\nb\na\nc\nb\n");
    let out = dedup(&input, Options::default());
    assert_eq!(out, vec!["a", "b", "c"]);
}

#[test]
fn adjacent_keeps_nonadjacent_duplicates() {
    let input = lines("a\nb\na\nc\nb\n");
    let out = dedup(&input, Options { adjacent: true, ..Default::default() });
    assert_eq!(out, vec!["a", "b", "a", "c", "b"]);
}

#[test]
fn adjacent_collapses_runs() {
    let input = lines("a\na\na\nb\nb\nc\n");
    let out = dedup(&input, Options { adjacent: true, ..Default::default() });
    assert_eq!(out, vec!["a", "b", "c"]);
}

#[test]
fn ignore_case_global() {
    let input = lines("Apple\napple\nBANANA\nbanana\n");
    let out = dedup(&input, Options { ignore_case: true, ..Default::default() });
    assert_eq!(out, vec!["Apple", "BANANA"]);
}

#[test]
fn ignore_case_adjacent() {
    let input = lines("Foo\nfoo\nFOO\nbar\n");
    let out = dedup(&input, Options { adjacent: true, ignore_case: true });
    assert_eq!(out, vec!["Foo", "bar"]);
}

#[test]
fn case_sensitive_keeps_differing_case() {
    let input = lines("a\nA\na\n");
    let out = dedup(&input, Options::default());
    assert_eq!(out, vec!["a", "A"]);
}

#[test]
fn empty_input() {
    let input: Vec<&str> = Vec::new();
    assert!(dedup(&input, Options::default()).is_empty());
}

#[test]
fn blank_lines_are_deduplicated_too() {
    let input = vec!["", "x", "", ""];
    assert_eq!(dedup(&input, Options::default()), vec!["", "x"]);
    assert_eq!(dedup(&input, Options { adjacent: true, ignore_case: false }), vec!["", "x", ""]);
}

#[test]
fn ignore_case_folds_non_ascii() {
    let input = vec!["Éclair", "éCLAIR", "ÉCLAIR"];
    assert_eq!(dedup(&input, Options { adjacent: false, ignore_case: true }), vec!["Éclair"]);
}

#[test]
fn global_output_has_each_key_once() {
    let input = vec!["b", "a", "B", "c", "a", "b", "C"];
    let out = dedup(&input, Options { adjacent: false, ignore_case: true });
    assert_eq!(out, vec!["b", "a", "c"]);
    for (i, x) in out.iter().enumerate() {
        for y in &out[i + 1..] {
            assert_ne!(x.to_lowercase(), y.to_lowercase());
        }
    }
}

#[test]
fn adjacent_output_has_no_neighbouring_repeats() {
    let input = vec!["x", "x", "y", "Y", "x", "x"];
    let out = dedup(&input, Options { adjacent: true, ignore_case: false });
    assert_eq!(out, vec!["x", "y", "Y", "x"]);
    for w in out.windows(2) {
        assert_ne!(w[0], w[1]);
    }
}

#[test]
fn dedup_twice_is_dedup_once() {
    let input = vec!["a", "A", "a", "b", "b", "a"];
    for opts in [
        Options { adjacent: false, ignore_case: false },
        Options { adjacent: false, ignore_case: true },
        Options { adjacent: true, ignore_case: false },
        Options { adjacent: true, ignore_case: true },
    ] {
        let once = dedup(&input, opts);
        let twice = dedup(&once, opts);
        assert_eq!(once, twice);
    }
}
