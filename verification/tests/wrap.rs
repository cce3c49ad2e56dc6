use text_toolkit::wrap::wrap;

fn max_width(s: &str) -> usize {
    s.lines().map(|l| l.chars().count()).max().unwrap_or(0)
}

#[test]
fn wraps_at_width() {
    let input = "the quick brown fox jumps over the lazy dog";
    let out = wrap(input, 15);
    for line in out.lines() {
        assert!(line.chars().count() <= 15, "line too long: {line:?}");
    }
}

#[test]
fn never_splits_words() {
    let input = "alpha bravo charlie delta";
    let out = wrap(input, 10);
    for w in ["alpha", "bravo", "charlie", "delta"] {
        assert!(out.split_whitespace().any(|t| t == w), "word {w} was split or lost");
    }
}

#[test]
fn long_word_overflows_on_own_line() {
    let input = "hi supercalifragilistic bye";
    let out = wrap(input, 5);
    let lines: Vec<&str> = out.lines().collect();
    assert!(lines.contains(&"supercalifragilistic"));
    assert!(lines.contains(&"hi"));
    assert!(lines.contains(&"bye"));
}

#[test]
fn exact_fit_packs_words() {
    assert_eq!(wrap("ab cd", 5), "ab cd\n");
    assert_eq!(wrap("ab cd", 4), "ab\ncd\n");
}

#[test]
fn preserves_paragraph_breaks() {
    let input = "one two\n\nthree four";
    let out = wrap(input, 80);
    assert_eq!(out, "one two\n\nthree four\n");
}

#[test]
fn collapses_internal_whitespace() {
    let out = wrap("a    b\tc", 80);
    assert_eq!(out, "a b c\n");
}

#[test]
fn width_respected_unless_single_word_too_long() {
    let prose = "Lorem ipsum dolor sit amet consectetur adipiscing elit sed do";
    for w in [10, 20, 40] {
        let out = wrap(prose, w);
        for line in out.lines() {
            if line.chars().count() > w {
                assert!(!line.contains(' '), "width {w}: over-width line packed multiple words: {line:?}");
            }
        }
    }
}

#[test]
fn width_respected_when_all_words_fit() {
    let prose = "the cat sat on a mat and ran far away today now";
    for w in [6, 12, 20] {
        let out = wrap(prose, w);
        assert!(max_width(&out) <= w, "width {w} exceeded with short words");
    }
}

#[test]
fn empty_input_empty_output() {
    assert_eq!(wrap("", 80), "");
}

#[test]
fn exact_greedy_layout() {
    assert_eq!(
        wrap("the quick brown fox jumps over the lazy dog", 10),
        "the quick\nbrown fox\njumps over\nthe lazy\ndog\n"
    );
}

#[test]
fn width_zero_means_no_wrapping() {
    assert_eq!(wrap("a b", 0), "a b\n");
    assert_eq!(wrap("a  bb   ccc\nd", 0), "a bb ccc\nd\n");
}

#[test]
fn trailing_newline_ends_the_last_line() {
    assert_eq!(wrap("a b\n", 80), "a b\n");
    assert_eq!(wrap("one two\n", 80), "one two\n");
    assert_eq!(wrap("a\n\n", 80), "a\n\n");
    assert_eq!(wrap("\n", 80), "");
}

#[test]
fn crlf_lines_and_blank_lines() {
    assert_eq!(wrap("a b\r\n   \r\nc", 3), "a b\n\nc\n");
}

#[test]
fn width_counts_characters_not_bytes() {
    assert_eq!(wrap("éé éé", 5), "éé éé\n");
}

#[test]
fn words_survive_wrapping_in_order() {
    let text = "  one two\tthree\n\nfour  five six seven eight  ";
    for w in [0, 1, 3, 7, 12, 100] {
        let out = wrap(text, w);
        let before: Vec<&str> = text.split_whitespace().collect();
        let after: Vec<&str> = out.split_whitespace().collect();
        assert_eq!(before, after, "width {w}");
    }
}
