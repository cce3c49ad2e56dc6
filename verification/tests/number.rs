use text_toolkit::number::{head, number, tail};
use text_toolkit::split_lines;

fn lines(s: &str) -> Vec<&str> {
    split_lines(s)
}

#[test]
fn numbers_lines_with_tab() {
    let input = lines("a\nb\nc\n");
    assert_eq!(number(&input), "1\ta\n2\tb\n3\tc\n");
}

#[test]
fn numbering_is_right_aligned_to_width() {
    let v: Vec<&str> = (0..10).map(|_| "x").collect();
    let out = number(&v);
    assert!(out.starts_with(" 1\tx\n"), "got: {out:?}");
    assert!(out.contains("10\tx\n"));
}

#[test]
fn head_takes_first_n() {
    let input = lines("1\n2\n3\n4\n5\n");
    assert_eq!(head(&input, 3), vec!["1", "2", "3"]);
}

#[test]
fn head_clamps_to_len() {
    let input = lines("1\n2\n");
    assert_eq!(head(&input, 10), vec!["1", "2"]);
}

#[test]
fn tail_takes_last_n_in_order() {
    let input = lines("1\n2\n3\n4\n5\n");
    assert_eq!(tail(&input, 2), vec!["4", "5"]);
}

#[test]
fn tail_clamps_to_len() {
    let input = lines("1\n2\n");
    assert_eq!(tail(&input, 10), vec!["1", "2"]);
}

#[test]
fn empty_inputs() {
    let empty: Vec<&str> = Vec::new();
    assert_eq!(number(&empty), "");
    assert!(head(&empty, 5).is_empty());
    assert!(tail(&empty, 5).is_empty());
}

#[test]
fn head_and_tail_of_zero_lines() {
    let input = vec!["a", "b"];
    assert!(head(&input, 0).is_empty());
    assert!(tail(&input, 0).is_empty());
}

#[test]
fn head_then_tail_cover_all_lines() {
    let input = vec!["a", "b", "c", "d"];
    for k in 0..=input.len() {
        let mut both = head(&input, k);
        both.extend(tail(&input, input.len() - k));
        assert_eq!(both, input);
    }
}

#[test]
fn numbering_columns_align_at_every_width() {
    let v: Vec<&str> = (0..105).map(|_| "y").collect();
    let out = number(&v);
    for (i, line) in out.lines().enumerate() {
        assert_eq!(line.find('\t'), Some(3), "line {i}: {line:?}");
        assert_eq!(line.trim_start().split('\t').next().unwrap(), (i + 1).to_string());
    }
    assert!(out.starts_with("  1\ty\n"));
    assert!(out.ends_with("105\ty\n"));
}

#[test]
fn numbering_keeps_blank_lines() {
    assert_eq!(number(&["", "z"]), "1\t\n2\tz\n");
}
