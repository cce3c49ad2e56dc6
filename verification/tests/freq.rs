use text_toolkit::freq::{self, frequencies, Entry, Options};

#[test]
fn word_counts_basic() {
    let e = frequencies("a b a c a b", Options::default());
    assert_eq!(e[0], Entry { item: "a".into(), count: 3 });
    assert_eq!(e[1], Entry { item: "b".into(), count: 2 });
    assert_eq!(e[2], Entry { item: "c".into(), count: 1 });
}

#[test]
fn tie_break_is_lexical() {
    let e = frequencies("c b c b a", Options::default());
    assert_eq!(e[0].item, "b");
    assert_eq!(e[1].item, "c");
    assert_eq!(e[2].item, "a");
}

#[test]
fn top_n_truncates() {
    let e = frequencies("a a a b b c", Options { top: Some(2), ..Default::default() });
    assert_eq!(e.len(), 2);
    assert_eq!(e[0].item, "a");
    assert_eq!(e[1].item, "b");
}

#[test]
fn ignore_case_combines() {
    let e = frequencies("The the THE cat", Options { ignore_case: true, ..Default::default() });
    assert_eq!(e[0], Entry { item: "the".into(), count: 3 });
}

#[test]
fn case_sensitive_separates() {
    let e = frequencies("The the", Options::default());
    assert_eq!(e.len(), 2);
    assert_eq!(e[0].item, "The");
    assert_eq!(e[1].item, "the");
}

#[test]
fn strips_punctuation() {
    let e = frequencies("world. world, world!", Options::default());
    assert_eq!(e.len(), 1);
    assert_eq!(e[0], Entry { item: "world".into(), count: 3 });
}

#[test]
fn char_frequency_skips_whitespace() {
    let e = frequencies("aab b", Options { chars: true, ..Default::default() });
    assert_eq!(e[0], Entry { item: "a".into(), count: 2 });
    assert_eq!(e[1], Entry { item: "b".into(), count: 2 });
    assert!(e.iter().all(|x| x.item != " "));
}

#[test]
fn format_is_count_tab_item() {
    let e = vec![Entry { item: "x".into(), count: 5 }];
    assert_eq!(freq::format(&e), "5\tx\n");
}

#[test]
fn empty_text_has_no_entries() {
    assert!(frequencies("", Options::default()).is_empty());
    assert!(frequencies("  \n\t", Options { chars: true, ..Default::default() }).is_empty());
}

#[test]
fn punctuation_only_tokens_are_dropped() {
    let e = frequencies("-- ... ok!", Options::default());
    assert_eq!(e, vec![Entry { item: "ok".into(), count: 1 }]);
}

#[test]
fn inner_punctuation_is_kept() {
    let e = frequencies("\"don't\" don't", Options::default());
    assert_eq!(e, vec![Entry { item: "don't".into(), count: 2 }]);
}

#[test]
fn top_zero_keeps_nothing() {
    assert!(frequencies("a b", Options { top: Some(0), ..Default::default() }).is_empty());
}

#[test]
fn top_larger_than_table_keeps_all() {
    let e = frequencies("a b b", Options { top: Some(10), ..Default::default() });
    assert_eq!(e.len(), 2);
}

#[test]
fn char_frequency_ignore_case() {
    let e = frequencies("AaB", Options { chars: true, ignore_case: true, top: None });
    assert_eq!(
        e,
        vec![Entry { item: "a".into(), count: 2 }, Entry { item: "b".into(), count: 1 }]
    );
}

#[test]
fn top_is_prefix_of_full_table() {
    let text = "z y x z y z w w v";
    let full = frequencies(text, Options::default());
    for n in 0..6 {
        let limited = frequencies(text, Options { top: Some(n), ..Default::default() });
        let m = n.min(full.len());
        assert_eq!(limited, full[..m].to_vec());
    }
}

#[test]
fn table_is_the_same_every_time() {
    let text = "b a c a b c d";
    let first = frequencies(text, Options::default());
    assert_eq!(first, frequencies(text, Options::default()));
    assert_eq!(freq::format(&first), "2\ta\n2\tb\n2\tc\n1\td\n");
}

#[test]
fn format_of_no_entries_is_empty() {
    assert_eq!(freq::format(&[]), "");
}
