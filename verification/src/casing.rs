//! Case transformations over text.
use vstd::prelude::*;
use vstd::string::StringExecFns;
use crate::text::{
    chars_of, push_char, is_alphanumeric, is_alphabetic, char_to_uppercase, char_to_lowercase,
    text_to_uppercase, text_to_lowercase, is_alphanumeric_char, is_alphabetic_char,
    upper_of_char, lower_of_char, upper_of_text, lower_of_text,
};

verus! {

/// The case transformation to apply.
#[derive(Debug, Clone, Copy, PartialEq, Eq, Structural)]
pub enum Mode {
    /// Everything uppercase.
    Upper,
    /// Everything lowercase.
    Lower,
    /// Title Case: first letter of each run of alphanumeric characters
    /// uppercased, the rest of the run lowercased.
    Title,
    /// Sentence case: first letter of each sentence uppercased, the rest
    /// lowercased. Sentences end at `.`, `!`, or `?`.
    Sentence,
}

/// What title or sentence case does to one character.
#[derive(Debug, Clone, Copy, PartialEq, Eq, Structural)]
pub enum CaseAction {
    /// Write its uppercase mapping.
    Upper,
    /// Write its lowercase mapping.
    Lower,
    /// Write it as it is.
    Keep,
}

/// What `action` writes for `c`.
pub open spec fn apply_action(c: char, action: CaseAction) -> Seq<char> {
    match action {
        CaseAction::Upper => upper_of_char(c),
        CaseAction::Lower => lower_of_char(c),
        CaseAction::Keep => seq![c],
    }
}

/// One step of title case, for a character that is or is not alphanumeric
/// and alphabetic, when its run has (or has not) had a letter yet: the action
/// for the character, and whether the next character's run has no letter yet.
/// A non-alphanumeric character is kept and ends the run; the first letter of
/// a run is uppercased; its other letters and digits are lowercased.
pub open spec fn spec_title_step(alphanumeric: bool, alphabetic: bool, letter_pending: bool) -> (CaseAction, bool) {
    if !alphanumeric {
        (CaseAction::Keep, true)
    } else if alphabetic && letter_pending {
        (CaseAction::Upper, false)
    } else if alphabetic {
        (CaseAction::Lower, false)
    } else {
        (CaseAction::Lower, letter_pending)
    }
}

/// One step of title case; see [`spec_title_step`].
pub fn title_step(alphanumeric: bool, alphabetic: bool, letter_pending: bool) -> (r: (CaseAction, bool))
    ensures
        r == spec_title_step(alphanumeric, alphabetic, letter_pending),
{
    if !alphanumeric {
        (CaseAction::Keep, true)
    } else if alphabetic && letter_pending {
        (CaseAction::Upper, false)
    } else if alphabetic {
        (CaseAction::Lower, false)
    } else {
        (CaseAction::Lower, letter_pending)
    }
}

/// After reading `s`, whether the run of alphanumeric characters that `s`
/// ends in (if any) has no letter yet, so that its next letter is its first.
pub open spec fn title_letter_pending(s: Seq<char>) -> bool
    decreases s.len(),
{
    if s.len() == 0 {
        true
    } else {
        spec_title_step(
            is_alphanumeric_char(s.last()),
            is_alphabetic_char(s.last()),
            title_letter_pending(s.drop_last()),
        ).1
    }
}

/// What title case writes for `c`, given whether its run has no letter yet.
pub open spec fn title_piece(c: char, letter_pending: bool) -> Seq<char> {
    apply_action(c, spec_title_step(is_alphanumeric_char(c), is_alphabetic_char(c), letter_pending).0)
}

/// Title case of `s`: the first letter of each run of alphanumeric
/// characters uppercased, the other alphanumeric characters lowercased, every
/// other character kept as it is.
pub open spec fn spec_title_case(s: Seq<char>) -> Seq<char>
    decreases s.len(),
{
    if s.len() == 0 {
        Seq::empty()
    } else {
        spec_title_case(s.drop_last()) + title_piece(s.last(), title_letter_pending(s.drop_last()))
    }
}

/// Whether `c` ends a sentence.
pub open spec fn is_sentence_end(c: char) -> bool {
    c == '.' || c == '!' || c == '?'
}

/// One step of sentence case, for character `c` that is or is not
/// alphabetic, when a sentence start is (or is not) pending: the action for
/// `c`, and whether a sentence start is pending after it. A letter is
/// uppercased when a start is pending and lowercased otherwise, and clears
/// it; `.`, `!` and `?` are kept and make a start pending; other characters
/// are kept and leave it as it is.
pub open spec fn spec_sentence_step(c: char, alphabetic: bool, pending: bool) -> (CaseAction, bool) {
    if alphabetic {
        (if pending { CaseAction::Upper } else { CaseAction::Lower }, false)
    } else if is_sentence_end(c) {
        (CaseAction::Keep, true)
    } else {
        (CaseAction::Keep, pending)
    }
}

/// One step of sentence case; see [`spec_sentence_step`].
pub fn sentence_step(c: char, alphabetic: bool, pending: bool) -> (r: (CaseAction, bool))
    ensures
        r == spec_sentence_step(c, alphabetic, pending),
{
    if alphabetic {
        (if pending { CaseAction::Upper } else { CaseAction::Lower }, false)
    } else if c == '.' || c == '!' || c == '?' {
        (CaseAction::Keep, true)
    } else {
        (CaseAction::Keep, pending)
    }
}

/// After reading `s`, whether the next letter starts a sentence: at the start
/// of the text, and after a `.`, `!` or `?` until the next letter.
pub open spec fn sentence_pending(s: Seq<char>) -> bool
    decreases s.len(),
{
    if s.len() == 0 {
        true
    } else {
        spec_sentence_step(s.last(), is_alphabetic_char(s.last()), sentence_pending(s.drop_last())).1
    }
}

/// What sentence case writes for `c`, given whether a sentence start is pending.
pub open spec fn sentence_piece(c: char, pending: bool) -> Seq<char> {
    apply_action(c, spec_sentence_step(c, is_alphabetic_char(c), pending).0)
}

/// Sentence case of `s`: the first letter of each sentence uppercased, every
/// other letter lowercased, every other character kept as it is.
pub open spec fn spec_sentence_case(s: Seq<char>) -> Seq<char>
    decreases s.len(),
{
    if s.len() == 0 {
        Seq::empty()
    } else {
        spec_sentence_case(s.drop_last()) + sentence_piece(s.last(), sentence_pending(s.drop_last()))
    }
}

/// The result of converting `text` in `mode`.
pub open spec fn spec_convert(text: Seq<char>, mode: Mode) -> Seq<char> {
    match mode {
        Mode::Upper => upper_of_text(text),
        Mode::Lower => lower_of_text(text),
        Mode::Title => spec_title_case(text),
        Mode::Sentence => spec_sentence_case(text),
    }
}

/// Apply the case transformation to `text`, preserving all non-letter
/// characters (whitespace, punctuation, newlines) exactly.
pub fn convert(text: &str, mode: Mode) -> (out: String)
    ensures
        out@ == spec_convert(text@, mode),
{
    match mode {
        Mode::Upper => text_to_uppercase(text),
        Mode::Lower => text_to_lowercase(text),
        Mode::Title => title_case(text),
        Mode::Sentence => sentence_case(text),
    }
}

/// Title-case: uppercase the first letter of each run of alphanumeric
/// characters, lowercase the rest of the run. Word boundaries are any
/// non-alphanumeric character, so "o'brien-smith" -> "O'Brien-Smith" and
/// "3d printing" -> "3D Printing".
fn title_case(text: &str) -> (out: String)
    ensures
        out@ == spec_title_case(text@),
{
    let cs = chars_of(text);
    let mut out = String::new();
    let mut letter_pending = true;
    let mut i: usize = 0;
    while i < cs.len()
        invariant
            i <= cs@.len(),
            out@ == spec_title_case(cs@.take(i as int)),
            letter_pending == title_letter_pending(cs@.take(i as int)),
        decreases cs@.len() - i,
    {
        let ch = cs[i];
        proof {
            assert(cs@.take(i + 1).drop_last() =~= cs@.take(i as int));
        }
        let (action, next) = title_step(is_alphanumeric(ch), is_alphabetic(ch), letter_pending);
        push_action(&mut out, ch, action);
        letter_pending = next;
        i = i + 1;
    }
    assert(cs@.take(cs@.len() as int) =~= cs@);
    out
}

/// Appends what `action` writes for `c`.
fn push_action(out: &mut String, c: char, action: CaseAction)
    ensures
        final(out)@ == old(out)@ + apply_action(c, action),
{
    match action {
        CaseAction::Upper => {
            let u = char_to_uppercase(c);
            out.append(u.as_str());
        },
        CaseAction::Lower => {
            let l = char_to_lowercase(c);
            out.append(l.as_str());
        },
        CaseAction::Keep => {
            push_char(out, c);
            assert(old(out)@.push(c) =~= old(out)@ + seq![c]);
        },
    }
}

/// Sentence-case: uppercase the first letter of each sentence, lowercase
/// every other letter. A new sentence begins at the start of input and after
/// a `.`, `!`, or `?`; other characters (digits among them) leave a pending
/// sentence start in place.
fn sentence_case(text: &str) -> (out: String)
    ensures
        out@ == spec_sentence_case(text@),
{
    let cs = chars_of(text);
    let mut out = String::new();
    let mut start_pending = true;
    let mut i: usize = 0;
    while i < cs.len()
        invariant
            i <= cs@.len(),
            out@ == spec_sentence_case(cs@.take(i as int)),
            start_pending == sentence_pending(cs@.take(i as int)),
        decreases cs@.len() - i,
    {
        let ch = cs[i];
        proof {
            assert(cs@.take(i + 1).drop_last() =~= cs@.take(i as int));
        }
        let (action, next) = sentence_step(ch, is_alphabetic(ch), start_pending);
        push_action(&mut out, ch, action);
        start_pending = next;
        i = i + 1;
    }
    assert(cs@.take(cs@.len() as int) =~= cs@);
    out
}


// ---------------------------------------------------------------------------
// Words and sentences are cased on their own
// ---------------------------------------------------------------------------

proof fn lemma_pending_after(a: Seq<char>, x: Seq<char>)
    requires
        sentence_pending(a),
    ensures
        sentence_pending(a + x) == sentence_pending(x),
    decreases x.len(),
{
    if x.len() == 0 {
        assert(a + x =~= a);
    } else {
        lemma_pending_after(a, x.drop_last());
        assert((a + x).drop_last() =~= a + x.drop_last());
        assert((a + x).last() == x.last());
    }
}

proof fn lemma_letter_pending_after(a: Seq<char>, x: Seq<char>)
    requires
        title_letter_pending(a),
    ensures
        title_letter_pending(a + x) == title_letter_pending(x),
    decreases x.len(),
{
    if x.len() == 0 {
        assert(a + x =~= a);
    } else {
        lemma_letter_pending_after(a, x.drop_last());
        assert((a + x).drop_last() =~= a + x.drop_last());
        assert((a + x).last() == x.last());
    }
}

/// Title case works word by word: once the text so far leaves no letter of
/// its last run behind (at a word boundary, for one), title-casing the rest
/// with it is title-casing the rest on its own.
pub proof fn law_title_case_splits(a: Seq<char>, b: Seq<char>)
    requires
        title_letter_pending(a),
    ensures
        spec_title_case(a + b) == spec_title_case(a) + spec_title_case(b),
    decreases b.len(),
{
    if b.len() == 0 {
        assert(a + b =~= a);
        assert(spec_title_case(a) + spec_title_case(b) =~= spec_title_case(a));
    } else {
        law_title_case_splits(a, b.drop_last());
        assert((a + b).drop_last() =~= a + b.drop_last());
        assert((a + b).last() == b.last());
        lemma_letter_pending_after(a, b.drop_last());
        assert(spec_title_case(a + b) =~= spec_title_case(a) + spec_title_case(b));
    }
}

/// Sentence case works sentence by sentence: once a sentence start is
/// pending (at the start, or after `.`, `!` or `?`), the rest of the text is
/// cased as a text of its own.
pub proof fn law_sentence_case_splits(a: Seq<char>, b: Seq<char>)
    requires
        sentence_pending(a),
    ensures
        spec_sentence_case(a + b) == spec_sentence_case(a) + spec_sentence_case(b),
    decreases b.len(),
{
    if b.len() == 0 {
        assert(a + b =~= a);
        assert(spec_sentence_case(a) + spec_sentence_case(b) =~= spec_sentence_case(a));
    } else {
        law_sentence_case_splits(a, b.drop_last());
        assert((a + b).drop_last() =~= a + b.drop_last());
        assert((a + b).last() == b.last());
        lemma_pending_after(a, b.drop_last());
        assert(spec_sentence_case(a + b) =~= spec_sentence_case(a) + spec_sentence_case(b));
    }
}

/// Text without letters or digits comes out of title case unchanged, and
/// text without letters comes out of sentence case unchanged.
pub proof fn law_case_keeps_other_characters(s: Seq<char>)
    ensures
        (forall|i: int| 0 <= i < s.len() ==> !is_alphanumeric_char(#[trigger] s[i])) ==> spec_title_case(s)
            == s,
        (forall|i: int| 0 <= i < s.len() ==> !is_alphabetic_char(#[trigger] s[i])) ==> spec_sentence_case(s)
            == s,
    decreases s.len(),
{
    if s.len() > 0 {
        let p = s.drop_last();
        law_case_keeps_other_characters(p);
        assert(s[s.len() - 1] == s.last());
        if forall|i: int| 0 <= i < s.len() ==> !is_alphanumeric_char(#[trigger] s[i]) {
            assert forall|i: int| 0 <= i < p.len() implies !is_alphanumeric_char(#[trigger] p[i]) by {
                assert(p[i] == s[i]);
            }
            assert(p.push(s.last()) =~= s);
        }
        if forall|i: int| 0 <= i < s.len() ==> !is_alphabetic_char(#[trigger] s[i]) {
            assert forall|i: int| 0 <= i < p.len() implies !is_alphabetic_char(#[trigger] p[i]) by {
                assert(p[i] == s[i]);
            }
            assert(p.push(s.last()) =~= s);
        }
    } else {
        assert(spec_title_case(s) =~= s);
        assert(spec_sentence_case(s) =~= s);
    }
}

/// Whether a sentence start is pending after reading `b`, when it was
/// `pending` before it.
spec fn pending_after(pending: bool, b: Seq<char>) -> bool
    decreases b.len(),
{
    if b.len() == 0 {
        pending
    } else {
        spec_sentence_step(b.last(), is_alphabetic_char(b.last()), pending_after(pending, b.drop_last())).1
    }
}

/// Sentence case of `b` read with a start `pending` or not before it.
spec fn sentence_case_after(pending: bool, b: Seq<char>) -> Seq<char>
    decreases b.len(),
{
    if b.len() == 0 {
        Seq::empty()
    } else {
        sentence_case_after(pending, b.drop_last()) + sentence_piece(b.last(), pending_after(pending, b.drop_last()))
    }
}

proof fn lemma_sentence_concat(a: Seq<char>, b: Seq<char>)
    ensures
        sentence_pending(a + b) == pending_after(sentence_pending(a), b),
        spec_sentence_case(a + b) == spec_sentence_case(a) + sentence_case_after(sentence_pending(a), b),
    decreases b.len(),
{
    if b.len() == 0 {
        assert(a + b =~= a);
        assert(spec_sentence_case(a) + Seq::<char>::empty() =~= spec_sentence_case(a));
    } else {
        lemma_sentence_concat(a, b.drop_last());
        assert((a + b).drop_last() =~= a + b.drop_last());
        assert((a + b).last() == b.last());
        assert(spec_sentence_case(a + b) =~= spec_sentence_case(a) + sentence_case_after(sentence_pending(a), b));
    }
}

/// Only `.`, `!` and `?` end a sentence. Putting any other character that is
/// not a letter between two texts changes nothing in how the text around it
/// is cased: the result is the casing of the first text, that character, and
/// the rest of the casing of the two texts put together.
pub proof fn law_sentence_neutral_character(a: Seq<char>, c: char, b: Seq<char>)
    requires
        !is_alphabetic_char(c),
        c != '.' && c != '!' && c != '?',
    ensures
        spec_sentence_case(a.push(c) + b) == spec_sentence_case(a).push(c) + spec_sentence_case(a + b).skip(
            spec_sentence_case(a).len() as int,
        ),
{
    let pa = sentence_pending(a);
    assert(a.push(c).drop_last() =~= a);
    assert(sentence_pending(a.push(c)) == pa);
    assert(sentence_piece(c, pa) =~= seq![c]);
    assert(spec_sentence_case(a.push(c)) =~= spec_sentence_case(a).push(c));
    lemma_sentence_concat(a.push(c), b);
    lemma_sentence_concat(a, b);
    let r = sentence_case_after(pa, b);
    assert((spec_sentence_case(a) + r).skip(spec_sentence_case(a).len() as int) =~= r);
    assert(spec_sentence_case(a).push(c) + r =~= spec_sentence_case(a.push(c)) + r);
}

/// After `.`, `!` or `?` a new sentence starts: the text after it is cased
/// as a text of its own, with its first letter uppercased.
pub proof fn law_sentence_after_terminator(a: Seq<char>, c: char, b: Seq<char>)
    requires
        !is_alphabetic_char(c),
        c == '.' || c == '!' || c == '?',
    ensures
        spec_sentence_case(a.push(c) + b) == spec_sentence_case(a).push(c) + spec_sentence_case(b),
{
    let pa = sentence_pending(a);
    assert(a.push(c).drop_last() =~= a);
    assert(sentence_pending(a.push(c)));
    assert(sentence_piece(c, pa) =~= seq![c]);
    assert(spec_sentence_case(a.push(c)) =~= spec_sentence_case(a).push(c));
    lemma_sentence_concat(a.push(c), b);
    let e = Seq::<char>::empty();
    lemma_sentence_concat(e, b);
    assert(e + b =~= b);
    assert(spec_sentence_case(e) + sentence_case_after(true, b) =~= sentence_case_after(true, b));
}

/// The alphanumeric run that `a` ends in holds a letter (a character that is
/// alphanumeric and alphabetic).
pub open spec fn run_has_letter(a: Seq<char>) -> bool {
    exists|x: int|
        0 <= x < a.len() && is_alphabetic_char(#[trigger] a[x]) && is_alphanumeric_char(a[x]) && forall|y: int|
            x <= y < a.len() ==> is_alphanumeric_char(#[trigger] a[y])
}

/// A non-letter that ends a sentence: `.`, `!` or `?`.
pub open spec fn ends_sentence(c: char) -> bool {
    !is_alphabetic_char(c) && (c == '.' || c == '!' || c == '?')
}

/// A letter has come in `a` since the last `.`, `!` or `?`.
pub open spec fn letter_since_end(a: Seq<char>) -> bool {
    exists|x: int|
        0 <= x < a.len() && is_alphabetic_char(#[trigger] a[x]) && forall|y: int|
            x < y < a.len() ==> !ends_sentence(#[trigger] a[y])
}

proof fn lemma_title_pending_is_no_letter(a: Seq<char>)
    ensures
        title_letter_pending(a) == !run_has_letter(a),
    decreases a.len(),
{
    if a.len() > 0 {
        let p = a.drop_last();
        let c = a.last();
        lemma_title_pending_is_no_letter(p);
        assert(a[a.len() - 1] == c);
        if !is_alphanumeric_char(c) {
            if run_has_letter(a) {
                let x = choose|x: int|
                    0 <= x < a.len() && is_alphabetic_char(#[trigger] a[x]) && is_alphanumeric_char(a[x])
                        && forall|y: int| x <= y < a.len() ==> is_alphanumeric_char(#[trigger] a[y]);
                assert(is_alphanumeric_char(a[a.len() - 1]));
            }
        } else if is_alphabetic_char(c) {
            assert(run_has_letter(a)) by {
                let x = a.len() - 1;
                assert(is_alphabetic_char(a[x]) && is_alphanumeric_char(a[x]));
                assert(forall|y: int| x <= y < a.len() ==> is_alphanumeric_char(#[trigger] a[y]));
            }
        } else {
            if run_has_letter(a) {
                let x = choose|x: int|
                    0 <= x < a.len() && is_alphabetic_char(#[trigger] a[x]) && is_alphanumeric_char(a[x])
                        && forall|y: int| x <= y < a.len() ==> is_alphanumeric_char(#[trigger] a[y]);
                assert(x < a.len() - 1);
                assert(p[x] == a[x]);
                assert forall|y: int| x <= y < p.len() implies is_alphanumeric_char(#[trigger] p[y]) by {
                    assert(p[y] == a[y]);
                }
                assert(run_has_letter(p));
            }
            if run_has_letter(p) {
                let x = choose|x: int|
                    0 <= x < p.len() && is_alphabetic_char(#[trigger] p[x]) && is_alphanumeric_char(p[x])
                        && forall|y: int| x <= y < p.len() ==> is_alphanumeric_char(#[trigger] p[y]);
                assert(a[x] == p[x]);
                assert forall|y: int| x <= y < a.len() implies is_alphanumeric_char(#[trigger] a[y]) by {
                    if y < p.len() {
                        assert(a[y] == p[y]);
                    }
                }
                assert(run_has_letter(a));
            }
        }
    }
}

proof fn lemma_sentence_pending_is_no_letter(a: Seq<char>)
    ensures
        sentence_pending(a) == !letter_since_end(a),
    decreases a.len(),
{
    if a.len() > 0 {
        let p = a.drop_last();
        let c = a.last();
        lemma_sentence_pending_is_no_letter(p);
        assert(a[a.len() - 1] == c);
        if is_alphabetic_char(c) {
            assert(letter_since_end(a)) by {
                let x = a.len() - 1;
                assert(is_alphabetic_char(a[x]));
            }
        } else if is_sentence_end(c) {
            if letter_since_end(a) {
                let x = choose|x: int|
                    0 <= x < a.len() && is_alphabetic_char(#[trigger] a[x]) && forall|y: int|
                        x < y < a.len() ==> !ends_sentence(#[trigger] a[y]);
                assert(x < a.len() - 1);
                assert(ends_sentence(a[a.len() - 1]));
            }
        } else {
            assert(!ends_sentence(c));
            if letter_since_end(a) {
                let x = choose|x: int|
                    0 <= x < a.len() && is_alphabetic_char(#[trigger] a[x]) && forall|y: int|
                        x < y < a.len() ==> !ends_sentence(#[trigger] a[y]);
                assert(x < a.len() - 1);
                assert(p[x] == a[x]);
                assert forall|y: int| x < y < p.len() implies !ends_sentence(#[trigger] p[y]) by {
                    assert(p[y] == a[y]);
                }
                assert(letter_since_end(p));
            }
            if letter_since_end(p) {
                let x = choose|x: int|
                    0 <= x < p.len() && is_alphabetic_char(#[trigger] p[x]) && forall|y: int|
                        x < y < p.len() ==> !ends_sentence(#[trigger] p[y]);
                assert(a[x] == p[x]);
                assert forall|y: int| x < y < a.len() implies !ends_sentence(#[trigger] a[y]) by {
                    if y < p.len() {
                        assert(a[y] == p[y]);
                    }
                }
                assert(letter_since_end(a));
            }
        }
    }
}

/// Title case, character by character: a character that is not alphanumeric
/// is kept; a letter is uppercased when the alphanumeric run it ends has no
/// letter before it, and lowercased otherwise; any other alphanumeric
/// character is lowercased. Empty text stays empty.
pub proof fn law_title_case_by_character(a: Seq<char>, c: char)
    ensures
        spec_title_case(Seq::<char>::empty()) == Seq::<char>::empty(),
        spec_title_case(a.push(c)) == spec_title_case(a) + (if !is_alphanumeric_char(c) {
            seq![c]
        } else if is_alphabetic_char(c) && !run_has_letter(a) {
            upper_of_char(c)
        } else {
            lower_of_char(c)
        }),
{
    lemma_title_pending_is_no_letter(a);
    assert(a.push(c).drop_last() =~= a);
}

/// Sentence case, character by character: a character that is not a letter
/// is kept; a letter is uppercased when no letter has come since the start
/// of the text or the last `.`, `!` or `?`, and lowercased otherwise. Empty
/// text stays empty.
pub proof fn law_sentence_case_by_character(a: Seq<char>, c: char)
    ensures
        spec_sentence_case(Seq::<char>::empty()) == Seq::<char>::empty(),
        spec_sentence_case(a.push(c)) == spec_sentence_case(a) + (if !is_alphabetic_char(c) {
            seq![c]
        } else if !letter_since_end(a) {
            upper_of_char(c)
        } else {
            lower_of_char(c)
        }),
{
    lemma_sentence_pending_is_no_letter(a);
    assert(a.push(c).drop_last() =~= a);
}

} // verus!
