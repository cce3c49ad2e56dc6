//! Word/line/char/byte counting, plus pattern occurrence counting.
use vstd::prelude::*;
use vstd::string::StringSliceAdditionalSpecFns;
use crate::pattern::{compile, count_matches, regex_compiles, regex_match_count, PatternError};
use vstd::utf8::encode_utf8;
use crate::{split_on, spec_split_lines, strip_final_newline};
use crate::text::{words_merge, lemma_words_len_concat, lemma_encode_concat, lemma_encode_single, lemma_encode_scalar_nonempty, chars_of, is_whitespace, is_white_space, spec_words, spec_decimal, push_decimal, push_char};

verus! {

/// Counts produced by [`count`].
#[derive(Debug, Clone, Copy, PartialEq, Eq, Default)]
pub struct Counts {
    pub lines: usize,
    pub words: usize,
    pub chars: usize,
    pub bytes: usize,
}

/// Which fields to display. If none are selected the caller should default to
/// showing lines, words, and bytes (the classic `wc` default).
#[derive(Debug, Clone, Copy, Default)]
pub struct Select {
    pub lines: bool,
    pub words: bool,
    pub chars: bool,
    pub bytes: bool,
}

impl Select {
    /// No field is selected.
    pub open spec fn none_selected(&self) -> bool {
        !(self.lines || self.words || self.chars || self.bytes)
    }

    /// True if no field flag was explicitly requested.
    pub fn is_empty(&self) -> (r: bool)
        ensures
            r == self.none_selected(),
    {
        !(self.lines || self.words || self.chars || self.bytes)
    }
}

/// The number of `'\n'` characters in `s`.
pub open spec fn count_newlines(s: Seq<char>) -> nat
    decreases s.len(),
{
    if s.len() == 0 {
        0
    } else {
        count_newlines(s.drop_last()) + if s.last() == '\n' {
            1nat
        } else {
            0nat
        }
    }
}

/// Compute all counts over `text`.
///
/// - `lines`: number of newline (`\n`) characters (line terminators, as GNU
///   `wc -l` counts them).
/// - `words`: maximal runs of non-whitespace separated by Unicode whitespace.
/// - `chars`: number of Unicode scalar values (`char`s).
/// - `bytes`: number of UTF-8 bytes.
pub fn count(text: &str) -> (c: Counts)
    ensures
        c.lines == count_newlines(text@),
        c.words == spec_words(text@).len(),
        c.chars == text@.len(),
        c.bytes == text.spec_bytes().len(),
{
    let cs = chars_of(text);
    let mut lines: usize = 0;
    let mut words: usize = 0;
    let mut in_word = false;
    let mut i: usize = 0;
    while i < cs.len()
        invariant
            i <= cs@.len(),
            lines == count_newlines(cs@.take(i as int)),
            words == spec_words(cs@.take(i as int)).len(),
            lines <= i,
            words <= i,
            in_word == (i > 0 && !is_white_space(cs@[i - 1])),
            in_word ==> spec_words(cs@.take(i as int)).len() > 0,
        decreases cs@.len() - i,
    {
        let c = cs[i];
        proof {
            assert(cs@.take(i + 1).drop_last() =~= cs@.take(i as int));
            assert(cs@.take(i + 1).last() == c);
            if i >= 1 {
                assert(cs@.take(i + 1)[i - 1] == cs@[i - 1]);
            }
        }
        if c == '\n' {
            lines = lines + 1;
        }
        if is_whitespace(c) {
            in_word = false;
        } else {
            if !in_word {
                words = words + 1;
            }
            in_word = true;
        }
        i = i + 1;
    }
    assert(cs@.take(cs@.len() as int) =~= cs@);
    let bytes = text.as_bytes().len();
    Counts { lines, words, chars: cs.len(), bytes }
}

/// The fields that `sel` shows, or lines/words/bytes when it selects none.
pub open spec fn effective_select(sel: Select) -> Select {
    if sel.none_selected() {
        Select { lines: true, words: true, chars: false, bytes: true }
    } else {
        sel
    }
}

/// The numbers that `sel` shows, in the order lines, words, chars, bytes.
pub open spec fn shown_numbers(c: Counts, sel: Select) -> Seq<nat> {
    let s = effective_select(sel);
    (if s.lines { seq![c.lines as nat] } else { Seq::empty() })
        + (if s.words { seq![c.words as nat] } else { Seq::empty() })
        + (if s.chars { seq![c.chars as nat] } else { Seq::empty() })
        + (if s.bytes { seq![c.bytes as nat] } else { Seq::empty() })
}

/// The decimal numerals of `ns`, separated by single spaces.
pub open spec fn spaced_numerals(ns: Seq<nat>) -> Seq<char>
    decreases ns.len(),
{
    if ns.len() == 0 {
        Seq::empty()
    } else if ns.len() == 1 {
        spec_decimal(ns[0])
    } else {
        spaced_numerals(ns.drop_last()).push(' ') + spec_decimal(ns.last())
    }
}

fn push_field(out: &mut String, first: &mut bool, n: usize, shown: Ghost<Seq<nat>>)
    requires
        old(out)@ == spaced_numerals(shown@),
        *old(first) == (shown@.len() == 0),
    ensures
        final(out)@ == spaced_numerals(shown@.push(n as nat)),
        !*final(first),
{
    proof {
        assert(shown@.push(n as nat).drop_last() =~= shown@);
    }
    if !*first {
        push_char(out, ' ');
    }
    push_decimal(out, n);
    *first = false;
    proof {
        if shown@.len() == 0 {
            assert(Seq::<char>::empty() + spec_decimal(n as nat) =~= spec_decimal(n as nat));
            assert(shown@.push(n as nat)[0] == n);
        }
    }
}

/// Format `counts` honoring `select`. When `select.is_empty()`, defaults to
/// lines/words/bytes. Fields are emitted in the fixed order lines, words,
/// chars, bytes, separated by a single space.
pub fn format(counts: &Counts, select: &Select) -> (out: String)
    ensures
        out@ == spaced_numerals(shown_numbers(*counts, *select)),
{
    let sel = if select.is_empty() {
        Select { lines: true, words: true, chars: false, bytes: true }
    } else {
        *select
    };
    let mut out = String::new();
    let mut first = true;
    let ghost mut shown: Seq<nat> = Seq::empty();
    if sel.lines {
        push_field(&mut out, &mut first, counts.lines, Ghost(shown));
        proof { shown = shown.push(counts.lines as nat); }
    }
    if sel.words {
        push_field(&mut out, &mut first, counts.words, Ghost(shown));
        proof { shown = shown.push(counts.words as nat); }
    }
    if sel.chars {
        push_field(&mut out, &mut first, counts.chars, Ghost(shown));
        proof { shown = shown.push(counts.chars as nat); }
    }
    if sel.bytes {
        push_field(&mut out, &mut first, counts.bytes, Ghost(shown));
        proof { shown = shown.push(counts.bytes as nat); }
    }
    assert(shown =~= shown_numbers(*counts, *select));
    out
}

/// Count occurrences of `pattern` (a regex) in `text`: non-overlapping
/// matches across the whole input (multi-line). Returns an error exactly when
/// `pattern` is not a valid regex (or compiles too big).
pub fn count_pattern(text: &str, pattern: &str) -> (r: Result<usize, PatternError>)
    ensures
        r is Ok <==> regex_compiles(pattern@),
        r matches Ok(n) ==> n == regex_match_count(pattern@, text@),
{
    match compile(pattern) {
        Ok(p) => Ok(count_matches(&p, text)),
        Err(e) => Err(PatternError::Invalid(e)),
    }
}


// ---------------------------------------------------------------------------
// How the counts relate
// ---------------------------------------------------------------------------

proof fn lemma_pieces_count(s: Seq<char>)
    ensures
        split_on(s, '\n').len() == count_newlines(s) + 1,
    decreases s.len(),
{
    if s.len() > 0 {
        lemma_pieces_count(s.drop_last());
    }
}

/// The line count counts terminators: text that ends with a newline has as
/// many lines as it counts, and other non-empty text has one line more than
/// it counts (its last line has no terminator).
pub proof fn law_lines_are_terminators(text: Seq<char>)
    ensures
        text.len() == 0 ==> count_newlines(text) == 0 && spec_split_lines(text).len() == 0,
        text.len() > 0 && text.last() == '\n' ==> count_newlines(text) == spec_split_lines(text).len(),
        text.len() > 0 && text.last() != '\n' ==> count_newlines(text) + 1 == spec_split_lines(text).len(),
{
    if text.len() > 0 {
        lemma_pieces_count(strip_final_newline(text));
    }
}

/// Each character takes one to four bytes of UTF-8, and an ASCII character
/// exactly one, so the byte count is between the character count and four
/// times it, and equal to it for ASCII text.
pub proof fn law_bytes_and_chars(s: Seq<char>)
    ensures
        s.len() <= encode_utf8(s).len() <= 4 * s.len(),
        (forall|i: int| 0 <= i < s.len() ==> (#[trigger] s[i] as u32) < 0x80) ==> encode_utf8(s).len() == s.len(),
    decreases s.len(),
{
    if s.len() > 0 {
        let p = s.drop_last();
        let c = s.last();
        law_bytes_and_chars(p);
        lemma_encode_concat(p, seq![c]);
        assert(p + seq![c] =~= s);
        lemma_encode_single(c);
        lemma_encode_scalar_nonempty(c);
        if forall|i: int| 0 <= i < s.len() ==> (#[trigger] s[i] as u32) < 0x80 {
            assert forall|i: int| 0 <= i < p.len() implies (#[trigger] p[i] as u32) < 0x80 by {
                assert(p[i] == s[i]);
            }
            assert(s[s.len() - 1] == c);
        }
    } else {
        assert(encode_utf8(s) =~= Seq::<u8>::empty());
    }
}

proof fn lemma_newlines_concat(a: Seq<char>, b: Seq<char>)
    ensures
        count_newlines(a + b) == count_newlines(a) + count_newlines(b),
    decreases b.len(),
{
    if b.len() == 0 {
        assert(a + b =~= a);
    } else {
        lemma_newlines_concat(a, b.drop_last());
        assert((a + b).drop_last() =~= a + b.drop_last());
        assert((a + b).last() == b.last());
    }
}

/// Counting two texts put together: lines, characters and bytes add up, and
/// words add up too, less one when the join cuts a word in two (the first
/// text ends and the second starts with a non-whitespace character).
pub proof fn law_count_concat(a: Seq<char>, b: Seq<char>)
    ensures
        count_newlines(a + b) == count_newlines(a) + count_newlines(b),
        spec_words(a + b).len() == spec_words(a).len() + spec_words(b).len() - (if words_merge(a, b) {
            1int
        } else {
            0int
        }),
        (a + b).len() == a.len() + b.len(),
        encode_utf8(a + b).len() == encode_utf8(a).len() + encode_utf8(b).len(),
{
    lemma_newlines_concat(a, b);
    lemma_words_len_concat(a, b);
    lemma_encode_concat(a, b);
}

} // verus!
