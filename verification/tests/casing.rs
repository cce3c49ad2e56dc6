use text_toolkit::casing::{convert, sentence_step, title_step, CaseAction, Mode};

#[test]
fn upper_lower() {
    assert_eq!(convert("Hello World", Mode::Upper), "HELLO WORLD");
    assert_eq!(convert("Hello World", Mode::Lower), "hello world");
}

#[test]
fn title_basic() {
    assert_eq!(convert("the quick brown fox", Mode::Title), "The Quick Brown Fox");
}

#[test]
fn title_lowercases_rest_of_word() {
    assert_eq!(convert("hELLO wORLD", Mode::Title), "Hello World");
}

#[test]
fn title_handles_punctuation_boundaries() {
    assert_eq!(convert("o'brien-smith", Mode::Title), "O'Brien-Smith");
}

#[test]
fn title_preserves_whitespace_runs() {
    assert_eq!(convert("a  b\tc", Mode::Title), "A  B\tC");
}

#[test]
fn sentence_basic() {
    assert_eq!(
        convert("hello world. goodbye world.", Mode::Sentence),
        "Hello world. Goodbye world."
    );
}

#[test]
fn sentence_multiple_terminators() {
    assert_eq!(convert("really? yes! ok then.", Mode::Sentence), "Really? Yes! Ok then.");
}

#[test]
fn sentence_lowercases_interior_caps() {
    assert_eq!(
        convert("THE CAT SAT. THE DOG RAN.", Mode::Sentence),
        "The cat sat. The dog ran."
    );
}

#[test]
fn sentence_leading_number_then_letter() {
    assert_eq!(convert("3 apples fell.", Mode::Sentence), "3 Apples fell.");
}

#[test]
fn sentence_abbrev_edge_known_limitation() {
    assert_eq!(convert("the u.s. army", Mode::Sentence), "The u.S. Army");
}

#[test]
fn upper_expands_sharp_s() {
    assert_eq!(convert("straße", Mode::Upper), "STRASSE");
}

#[test]
fn title_uppercase_may_expand_a_character() {
    assert_eq!(convert("ßa", Mode::Title), "SSa");
}

#[test]
fn title_uppercases_first_letter_after_digits() {
    assert_eq!(convert("3RD place", Mode::Title), "3Rd Place");
    assert_eq!(convert("3d printing", Mode::Title), "3D Printing");
    assert_eq!(convert("x2y 42", Mode::Title), "X2y 42");
}

#[test]
fn title_of_empty_text_is_empty() {
    assert_eq!(convert("", Mode::Title), "");
    assert_eq!(convert("", Mode::Sentence), "");
}

#[test]
fn title_cases_each_word_on_its_own() {
    let a = "hello, ";
    let b = "wORLD again";
    let whole = format!("{a}{b}");
    assert_eq!(
        convert(&whole, Mode::Title),
        format!("{}{}", convert(a, Mode::Title), convert(b, Mode::Title))
    );
}

#[test]
fn sentence_cases_each_sentence_on_its_own() {
    let a = "first ONE. ";
    let b = "second two";
    let whole = format!("{a}{b}");
    assert_eq!(convert(&whole, Mode::Sentence), "First one. Second two");
    assert_eq!(
        convert(&whole, Mode::Sentence),
        format!("{}{}", convert(a, Mode::Sentence), convert(b, Mode::Sentence))
    );
}

#[test]
fn text_without_letters_is_kept() {
    let s = "  ...!? -- 12\t\n";
    assert_eq!(convert(" .,;-- \t\n", Mode::Title), " .,;-- \t\n");
    assert_eq!(convert(s, Mode::Sentence), s);
}

#[test]
fn title_step_decisions() {
    // punctuation: kept, and the next run has no letter yet
    assert_eq!(title_step(false, false, false), (CaseAction::Keep, true));
    // first letter of a run: uppercased
    assert_eq!(title_step(true, true, true), (CaseAction::Upper, false));
    // a later letter: lowercased
    assert_eq!(title_step(true, true, false), (CaseAction::Lower, false));
    // a digit before any letter leaves the first letter to come
    assert_eq!(title_step(true, false, true), (CaseAction::Lower, true));
    assert_eq!(title_step(true, false, false), (CaseAction::Lower, false));
}

#[test]
fn sentence_step_decisions() {
    assert_eq!(sentence_step('a', true, true), (CaseAction::Upper, false));
    assert_eq!(sentence_step('a', true, false), (CaseAction::Lower, false));
    assert_eq!(sentence_step('.', false, false), (CaseAction::Keep, true));
    assert_eq!(sentence_step('!', false, false), (CaseAction::Keep, true));
    assert_eq!(sentence_step('?', false, false), (CaseAction::Keep, true));
    assert_eq!(sentence_step('3', false, true), (CaseAction::Keep, true));
    assert_eq!(sentence_step(' ', false, false), (CaseAction::Keep, false));
}
