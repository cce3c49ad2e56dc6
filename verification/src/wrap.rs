//! Word-wrapping text to a maximum column width.
use vstd::prelude::*;
use crate::{split_on, split_pieces, strip_cr, strip_final_newline, spec_split_lines, spec_join_lines, law_split_of_join, lemma_split_on_nonempty};
use crate::text::{copy_chars, chars_of, char_views, words_of, spec_words, push_char, is_white_space, is_word, lemma_words_shape, lemma_words_push_space, lemma_words_concat, lemma_words_of_word};

verus! {

/// Whether a line of `len` characters fits `width`; a width of 0 sets no
/// limit.
pub open spec fn fits(len: nat, width: nat) -> bool {
    width == 0 || len <= width
}

/// Greedy packing of `words` into lines of at most `width` characters (no
/// limit for a width of 0): each word joins the current line (after one
/// space) when it fits, and starts a new line otherwise. A word longer than
/// `width` stands on a line of its own.
pub open spec fn pack_words(words: Seq<Seq<char>>, width: nat) -> Seq<Seq<char>>
    decreases words.len(),
{
    if words.len() == 0 {
        Seq::empty()
    } else {
        let lines = pack_words(words.drop_last(), width);
        let w = words.last();
        if lines.len() == 0 {
            seq![w]
        } else if fits(lines.last().len() + 1 + w.len(), width) {
            lines.update(lines.len() - 1, lines.last().push(' ') + w)
        } else {
            lines.push(w)
        }
    }
}

/// The output lines for one input line: its words packed, or one blank line
/// when it has no words.
pub open spec fn wrap_line(line: Seq<char>, width: nat) -> Seq<Seq<char>> {
    let ws = spec_words(strip_cr(line));
    if ws.len() == 0 {
        seq![Seq::<char>::empty()]
    } else {
        pack_words(ws, width)
    }
}

/// The output lines for the input lines `lines`.
pub open spec fn wrap_lines(lines: Seq<Seq<char>>, width: nat) -> Seq<Seq<char>>
    decreases lines.len(),
{
    if lines.len() == 0 {
        Seq::empty()
    } else {
        wrap_lines(lines.drop_last(), width) + wrap_line(lines.last(), width)
    }
}

/// `lines` joined with `'\n'` between them.
pub open spec fn join_with_newlines(lines: Seq<Seq<char>>) -> Seq<char>
    decreases lines.len(),
{
    if lines.len() == 0 {
        Seq::empty()
    } else if lines.len() == 1 {
        lines[0]
    } else {
        join_with_newlines(lines.drop_last()).push('\n') + lines.last()
    }
}

/// The output lines of wrapping `text`: the wrapped lines of each of its
/// newline-separated pieces, in order, once one final newline is dropped (it
/// ends the last line rather than starting another).
pub open spec fn wrapped_lines(text: Seq<char>, width: nat) -> Seq<Seq<char>> {
    wrap_lines(split_on(strip_final_newline(text), '\n'), width)
}

/// The wrapped text: the output lines joined by newlines, with a final
/// newline unless that is empty. A width of 0 means no wrapping.
pub open spec fn spec_wrap(text: Seq<char>, width: nat) -> Seq<char> {
    let joined = join_with_newlines(wrapped_lines(text, width));
    if joined.len() == 0 {
        joined
    } else {
        joined.push('\n')
    }
}

fn pack(words: &Vec<Vec<char>>, width: usize) -> (lines: Vec<Vec<char>>)
    ensures
        char_views(lines@) == pack_words(char_views(words@), width as nat),
{
    let ghost wv = char_views(words@);
    let mut lines: Vec<Vec<char>> = Vec::new();
    let mut current: Vec<char> = Vec::new();
    let mut i: usize = 0;
    while i < words.len()
        invariant
            i <= words@.len(),
            wv == char_views(words@),
            i == 0 ==> current@.len() == 0 && lines@.len() == 0,
            i > 0 ==> char_views(lines@).push(current@) == pack_words(wv.take(i as int), width as nat),
        decreases words@.len() - i,
    {
        let word = &words[i];
        let ghost before = char_views(lines@);
        proof {
            assert(wv.take(i + 1).drop_last() =~= wv.take(i as int));
            assert(wv.take(i + 1).last() == word@);
            assert(wv.take(0) =~= Seq::<Seq<char>>::empty());
        }
        proof {
            if i > 0 {
                let pw = pack_words(wv.take(i as int), width as nat);
                assert(pw.len() > 0);
                assert(pw.last() == current@);
            }
        }
        if i == 0 {
            current = copy_chars(word);
            proof {
                assert(char_views(lines@).push(current@) =~= seq![word@]);
                assert(pack_words(wv.take(0), width as nat) =~= Seq::<Seq<char>>::empty());
            }
        } else if width == 0 || (current.len() < width && word.len() <= width - current.len() - 1) {
            let ghost cur0 = current@;
            push_word(&mut current, word);
            proof {
                assert(char_views(lines@).push(current@) =~= before.push(cur0).update(
                    before.len() as int,
                    cur0.push(' ') + word@,
                ));
                assert(char_views(lines@).push(current@) == pack_words(wv.take(i + 1), width as nat));
            }
        } else {
            let full = current;
            lines.push(full);
            current = copy_chars(word);
            proof {
                assert(char_views(lines@) =~= before.push(full@));
                assert(char_views(lines@).push(current@) == pack_words(wv.take(i + 1), width as nat));
            }
        }
        i = i + 1;
    }
    if i > 0 {
        let ghost before = char_views(lines@);
        let last = current;
        lines.push(last);
        proof {
            assert(char_views(lines@) =~= before.push(last@));
            assert(wv.take(i as int) =~= wv);
        }
    } else {
        assert(wv =~= Seq::<Seq<char>>::empty());
    }
    lines
}

fn without_final_newline(cs: &Vec<char>) -> (r: Vec<char>)
    ensures
        r@ == strip_final_newline(cs@),
{
    let n = cs.len();
    let end = if n > 0 && cs[n - 1] == '\n' { n - 1 } else { n };
    let mut r: Vec<char> = Vec::new();
    let mut i: usize = 0;
    while i < end
        invariant
            end <= n == cs@.len(),
            i <= end,
            r@ == cs@.take(i as int),
        decreases end - i,
    {
        r.push(cs[i]);
        assert(cs@.take(i + 1) =~= cs@.take(i as int).push(cs@[i as int]));
        i = i + 1;
    }
    assert(cs@.take(end as int) =~= strip_final_newline(cs@));
    r
}

fn push_word(current: &mut Vec<char>, word: &Vec<char>)
    ensures
        final(current)@ == old(current)@.push(' ') + word@,
{
    current.push(' ');
    let ghost base = current@;
    let mut k: usize = 0;
    while k < word.len()
        invariant
            k <= word@.len(),
            current@ == base + word@.take(k as int),
        decreases word@.len() - k,
    {
        current.push(word[k]);
        assert(word@.take(k + 1) =~= word@.take(k as int).push(word@[k as int]));
        k = k + 1;
    }
    assert(word@.take(word@.len() as int) =~= word@);
}

/// Word-wrap `text` so that no output line exceeds `width` columns, never
/// splitting a word across lines. Width is measured in characters.
///
/// - Each input line (separated by `\n`, one trailing `\r` dropped) is
///   wrapped independently, so existing hard line breaks are preserved.
/// - Words are maximal runs of non-whitespace; on output, words on a line are
///   joined with a single space.
/// - A word longer than `width` is placed on its own line and left intact.
/// - Blank input lines are preserved as blank output lines.
/// - A final newline ends the last line; it does not start an empty one.
/// - A `width` of 0 means no wrapping: the words of each input line stay on
///   one line.
pub fn wrap(text: &str, width: usize) -> (out: String)
    ensures
        out@ == spec_wrap(text@, width as nat),
{
    let cs = without_final_newline(&chars_of(text));
    let pieces = split_pieces(&cs, '\n');
    let ghost pv = char_views(pieces@);
    let mut out_lines: Vec<Vec<char>> = Vec::new();
    let mut i: usize = 0;
    while i < pieces.len()
        invariant
            i <= pieces@.len(),
            pv == char_views(pieces@),
            char_views(out_lines@) == wrap_lines(pv.take(i as int), width as nat),
        decreases pieces@.len() - i,
    {
        let piece = &pieces[i];
        let n = piece.len();
        let line: Vec<char> = if n > 0 && piece[n - 1] == '\r' {
            let mut l: Vec<char> = Vec::new();
            let mut k: usize = 0;
            while k < n - 1
                invariant
                    n == piece@.len(),
                    n > 0,
                    k <= n - 1,
                    l@ == piece@.take(k as int),
                decreases n - 1 - k,
            {
                l.push(piece[k]);
                assert(piece@.take(k + 1) =~= piece@.take(k as int).push(piece@[k as int]));
                k = k + 1;
            }
            l
        } else {
            copy_chars(piece)
        };
        proof {
            assert(line@ == strip_cr(piece@)) by {
                if n > 0 && piece@[n - 1] == '\r' {
                    assert(piece@.drop_last() =~= piece@.take(n - 1));
                }
            }
            assert(pv.take(i + 1).drop_last() =~= pv.take(i as int));
            assert(pv.take(i + 1).last() == piece@);
        }
        let words = words_of(&line);
        let ghost before = char_views(out_lines@);
        if words.len() == 0 {
            out_lines.push(Vec::new());
            proof {
                assert(char_views(out_lines@) =~= before + seq![Seq::<char>::empty()]);
            }
        } else {
            let packed = pack(&words, width);
            let mut k: usize = 0;
            while k < packed.len()
                invariant
                    k <= packed@.len(),
                    char_views(out_lines@) == before + char_views(packed@).take(k as int),
                decreases packed@.len() - k,
            {
                let ghost prev = char_views(out_lines@);
                let c = copy_chars(&packed[k]);
                out_lines.push(c);
                assert(char_views(out_lines@) =~= prev.push(c@));
                assert(char_views(packed@).take(k + 1) =~= char_views(packed@).take(k as int).push(
                    packed@[k as int]@,
                ));
                assert(char_views(out_lines@) =~= before + char_views(packed@).take(k + 1));
                k = k + 1;
            }
            assert(char_views(packed@).take(packed@.len() as int) =~= char_views(packed@));
        }
        i = i + 1;
    }
    assert(pv.take(pieces@.len() as int) =~= pv);
    let ghost ov = char_views(out_lines@);
    let mut out = String::new();
    let mut j: usize = 0;
    while j < out_lines.len()
        invariant
            j <= out_lines@.len(),
            ov == char_views(out_lines@),
            out@ == join_with_newlines(ov.take(j as int)),
        decreases out_lines@.len() - j,
    {
        let line = &out_lines[j];
        proof {
            assert(ov.take(j + 1).drop_last() =~= ov.take(j as int));
            assert(ov.take(j + 1).last() == line@);
        }
        if j > 0 {
            push_char(&mut out, '\n');
        }
        let ghost before = out@;
        let mut k: usize = 0;
        while k < line.len()
            invariant
                k <= line@.len(),
                out@ == before + line@.take(k as int),
            decreases line@.len() - k,
        {
            push_char(&mut out, line[k]);
            assert(line@.take(k + 1) =~= line@.take(k as int).push(line@[k as int]));
            k = k + 1;
        }
        proof {
            assert(line@.take(line@.len() as int) =~= line@);
            if j == 0 {
                assert(ov.take(1) =~= seq![line@]);
                assert(out@ =~= line@);
            }
        }
        j = j + 1;
    }
    assert(ov.take(out_lines@.len() as int) =~= ov);
    if out.as_str().is_empty() {
        out
    } else {
        push_char(&mut out, '\n');
        out
    }
}


// ---------------------------------------------------------------------------
// What wrapping keeps
// ---------------------------------------------------------------------------

/// The words of each of `lines`, one after another.
pub open spec fn words_of_lines(lines: Seq<Seq<char>>) -> Seq<Seq<char>>
    decreases lines.len(),
{
    if lines.len() == 0 {
        Seq::empty()
    } else {
        words_of_lines(lines.drop_last()) + spec_words(lines.last())
    }
}

/// A line made of words and single spaces: no character of it is whitespace
/// other than `' '`.
pub open spec fn spaces_only(line: Seq<char>) -> bool {
    forall|j: int| 0 <= j < line.len() ==> #[trigger] line[j] == ' ' || !is_white_space(line[j])
}

proof fn lemma_words_of_lines_concat(a: Seq<Seq<char>>, b: Seq<Seq<char>>)
    ensures
        words_of_lines(a + b) == words_of_lines(a) + words_of_lines(b),
    decreases b.len(),
{
    if b.len() == 0 {
        assert(a + b =~= a);
        assert(words_of_lines(a) + words_of_lines(b) =~= words_of_lines(a));
    } else {
        lemma_words_of_lines_concat(a, b.drop_last());
        assert((a + b).drop_last() =~= a + b.drop_last());
        assert((a + b).last() == b.last());
        assert(words_of_lines(a + b) =~= words_of_lines(a) + words_of_lines(b));
    }
}

proof fn lemma_words_of_join(lines: Seq<Seq<char>>)
    ensures
        spec_words(join_with_newlines(lines)) == words_of_lines(lines),
    decreases lines.len(),
{
    if lines.len() == 0 {
        assert(spec_words(Seq::<char>::empty()) =~= Seq::<Seq<char>>::empty());
    } else if lines.len() == 1 {
        assert(lines.drop_last() =~= Seq::<Seq<char>>::empty());
        assert(words_of_lines(lines.drop_last()) == Seq::<Seq<char>>::empty());
        assert(words_of_lines(lines) =~= spec_words(lines[0]));
    } else {
        let init = join_with_newlines(lines.drop_last());
        lemma_words_of_join(lines.drop_last());
        lemma_words_concat(init.push('\n'), lines.last());
        lemma_words_push_space(init, '\n');
    }
}

proof fn lemma_join_of_split(s: Seq<char>)
    ensures
        join_with_newlines(split_on(s, '\n')) == s,
    decreases s.len(),
{
    if s.len() == 0 {
        assert(split_on(s, '\n') =~= seq![Seq::<char>::empty()]);
    } else {
        let p = s.drop_last();
        lemma_join_of_split(p);
        lemma_split_on_nonempty(p, '\n');
        let sp = split_on(p, '\n');
        if s.last() == '\n' {
            let r = sp.push(Seq::<char>::empty());
            assert(r.drop_last() =~= sp);
            assert(join_with_newlines(r) =~= p.push('\n'));
        } else {
            let r = sp.update(sp.len() - 1, sp.last().push(s.last()));
            if sp.len() == 1 {
                assert(join_with_newlines(r) == r[0]);
            } else {
                assert(r.drop_last() =~= sp.drop_last());
                assert(join_with_newlines(r) =~= join_with_newlines(sp).push(s.last()));
            }
        }
        assert(p.push(s.last()) =~= s);
    }
}

proof fn lemma_join_push(lines: Seq<Seq<char>>)
    requires
        lines.len() >= 1,
    ensures
        join_with_newlines(lines).push('\n') == spec_join_lines(lines),
    decreases lines.len(),
{
    if lines.len() == 1 {
        assert(lines.drop_last() =~= Seq::<Seq<char>>::empty());
        assert(spec_join_lines(lines.drop_last()) == Seq::<char>::empty());
        assert(spec_join_lines(lines) =~= lines[0].push('\n'));
    } else {
        lemma_join_push(lines.drop_last());
        assert(join_with_newlines(lines).push('\n') =~= spec_join_lines(lines.drop_last())
            + lines.last().push('\n'));
    }
}

proof fn lemma_contains_right(a: Seq<Seq<char>>, b: Seq<Seq<char>>, x: Seq<char>)
    requires
        b.contains(x),
    ensures
        (a + b).contains(x),
{
    let k = choose|k: int| 0 <= k < b.len() && b[k] == x;
    assert((a + b)[a.len() + k] == x);
}

proof fn lemma_contains_left(a: Seq<Seq<char>>, b: Seq<Seq<char>>, x: Seq<char>)
    requires
        a.contains(x),
    ensures
        (a + b).contains(x),
{
    let k = choose|k: int| 0 <= k < a.len() && a[k] == x;
    assert((a + b)[k] == x);
}

/// Packing keeps the words in order; each packed line fits the width or is
/// one of the words, and holds only word characters and spaces.
proof fn lemma_pack_words(ws: Seq<Seq<char>>, width: nat)
    requires
        forall|i: int| 0 <= i < ws.len() ==> is_word(#[trigger] ws[i]),
    ensures
        words_of_lines(pack_words(ws, width)) == ws,
        pack_words(ws, width).len() > 0 <==> ws.len() > 0,
        forall|i: int|
            0 <= i < pack_words(ws, width).len() ==> fits((#[trigger] pack_words(ws, width)[i]).len(), width)
                || ws.contains(pack_words(ws, width)[i]),
        forall|i: int| 0 <= i < pack_words(ws, width).len() ==> spaces_only(#[trigger] pack_words(ws, width)[i]),
    decreases ws.len(),
{
    if ws.len() > 0 {
        let init = ws.drop_last();
        let w = ws.last();
        lemma_pack_words(init, width);
        let lines = pack_words(init, width);
        let r = pack_words(ws, width);
        assert(is_word(ws[ws.len() - 1]));
        lemma_words_of_word(w);
        assert(ws.contains(w)) by {
            assert(ws[ws.len() - 1] == w);
        }
        assert forall|x: Seq<char>| init.contains(x) implies ws.contains(x) by {
            let k = choose|k: int| 0 <= k < init.len() && init[k] == x;
            assert(ws[k] == x);
        }
        assert(init.push(w) =~= ws);
        if lines.len() == 0 {
            assert(init.len() == 0);
            assert(r =~= seq![w]);
            assert(r.drop_last() =~= Seq::<Seq<char>>::empty());
            assert(words_of_lines(r) =~= seq![w]);
            assert(spaces_only(w));
        } else if fits(lines.last().len() + 1 + w.len(), width) {
            let l = lines.last();
            let nl = l.push(' ') + w;
            assert(r == lines.update(lines.len() - 1, nl));
            assert(r.drop_last() =~= lines.drop_last());
            lemma_words_concat(l.push(' '), w);
            lemma_words_push_space(l, ' ');
            assert(words_of_lines(r) =~= words_of_lines(lines.drop_last()) + spec_words(l) + seq![w]);
            assert(words_of_lines(lines) == words_of_lines(lines.drop_last()) + spec_words(l));
            assert(spaces_only(lines[lines.len() - 1]));
            assert(spaces_only(nl)) by {
                assert forall|j: int| 0 <= j < nl.len() implies #[trigger] nl[j] == ' '
                    || !is_white_space(nl[j]) by {
                    if j < l.len() {
                        assert(nl[j] == l[j]);
                    } else if j > l.len() {
                        assert(nl[j] == w[j - l.len() - 1]);
                    }
                }
            }
            assert forall|i: int| 0 <= i < r.len() implies fits((#[trigger] r[i]).len(), width)
                || ws.contains(r[i]) by {
                if i < r.len() - 1 {
                    assert(r[i] == lines[i]);
                }
            }
        } else {
            assert(r == lines.push(w));
            assert(r.drop_last() =~= lines);
            assert(spaces_only(w));
        }
    }
}

/// The wrapped lines of some input lines: their words are the words of the
/// input lines; each fits the width or is one input word; and each holds only
/// word characters and spaces.
proof fn lemma_wrap_lines(ps: Seq<Seq<char>>, width: nat)
    ensures
        words_of_lines(wrap_lines(ps, width)) == words_of_lines(ps),
        wrap_lines(ps, width).len() >= ps.len(),
        forall|i: int|
            0 <= i < wrap_lines(ps, width).len() ==> fits((#[trigger] wrap_lines(ps, width)[i]).len(), width)
                || words_of_lines(ps).contains(wrap_lines(ps, width)[i]),
        forall|i: int| 0 <= i < wrap_lines(ps, width).len() ==> spaces_only(#[trigger] wrap_lines(ps, width)[i]),
    decreases ps.len(),
{
    if ps.len() > 0 {
        let init = ps.drop_last();
        let l = ps.last();
        lemma_wrap_lines(init, width);
        let a = wrap_lines(init, width);
        let b = wrap_line(l, width);
        lemma_words_of_lines_concat(a, b);
        let ws = spec_words(strip_cr(l));
        assert(ws == spec_words(l)) by {
            if l.len() > 0 && l.last() == '\r' {
                lemma_words_push_space(l.drop_last(), '\r');
                assert(l.drop_last().push('\r') =~= l);
            }
        }
        lemma_words_shape(strip_cr(l));
        if ws.len() == 0 {
            assert(b =~= seq![Seq::<char>::empty()]);
            assert(b.drop_last() =~= Seq::<Seq<char>>::empty());
            assert(spec_words(Seq::<char>::empty()) =~= Seq::<Seq<char>>::empty());
            assert(words_of_lines(b.drop_last()) == Seq::<Seq<char>>::empty());
            assert(b.last() == Seq::<char>::empty());
            assert(words_of_lines(b) =~= ws);
            assert(spaces_only(b[0]));
        } else {
            lemma_pack_words(ws, width);
        }
        let r = wrap_lines(ps, width);
        assert(r == a + b);
        assert forall|i: int| 0 <= i < r.len() implies fits((#[trigger] r[i]).len(), width)
            || words_of_lines(ps).contains(r[i]) by {
            if i < a.len() {
                assert(r[i] == a[i]);
                if !fits(a[i].len(), width) {
                    lemma_contains_left(words_of_lines(init), spec_words(l), a[i]);
                }
            } else {
                assert(r[i] == b[i - a.len()]);
                if !fits(b[i - a.len()].len(), width) {
                    lemma_contains_right(words_of_lines(init), spec_words(l), b[i - a.len()]);
                }
            }
        }
        assert forall|i: int| 0 <= i < r.len() implies spaces_only(#[trigger] r[i]) by {
            if i < a.len() {
                assert(r[i] == a[i]);
            } else {
                assert(r[i] == b[i - a.len()]);
            }
        }
    }
}

/// Wrapping keeps the words: the words of the wrapped text are exactly the
/// words of the input, in the same order. No word is split, lost or added.
pub proof fn law_wrap_keeps_words(text: Seq<char>, width: nat)
    ensures
        spec_words(spec_wrap(text, width)) == spec_words(text),
{
    let body = strip_final_newline(text);
    let ps = split_on(body, '\n');
    let lines = wrapped_lines(text, width);
    lemma_wrap_lines(ps, width);
    lemma_words_of_join(lines);
    lemma_words_of_join(ps);
    lemma_join_of_split(body);
    lemma_words_strip_final_newline(text);
    let joined = join_with_newlines(lines);
    if joined.len() > 0 {
        lemma_words_push_space(joined, '\n');
    }
}

proof fn lemma_words_strip_final_newline(text: Seq<char>)
    ensures
        spec_words(strip_final_newline(text)) == spec_words(text),
{
    if text.len() > 0 && text.last() == '\n' {
        lemma_words_push_space(text.drop_last(), '\n');
        assert(text.drop_last().push('\n') =~= text);
    }
}

/// The lines of the wrapped text are the wrapped lines, and each of them fits
/// the width (any line fits a width of 0, which means no wrapping), except a
/// line that is a single word of the input too long to fit on any line.
pub proof fn law_wrap_width(text: Seq<char>, width: nat)
    ensures
        spec_wrap(text, width).len() > 0 ==> spec_split_lines(spec_wrap(text, width))
            == wrapped_lines(text, width),
        forall|i: int|
            0 <= i < wrapped_lines(text, width).len() ==> width == 0 || (#[trigger] wrapped_lines(
                text,
                width,
            )[i]).len() <= width || spec_words(text).contains(wrapped_lines(text, width)[i]),
{
    let body = strip_final_newline(text);
    let ps = split_on(body, '\n');
    let lines = wrapped_lines(text, width);
    lemma_wrap_lines(ps, width);
    lemma_words_of_join(ps);
    lemma_join_of_split(body);
    lemma_words_strip_final_newline(text);
    lemma_split_on_nonempty(body, '\n');
    let joined = join_with_newlines(lines);
    if joined.len() > 0 {
        lemma_join_push(lines);
        assert forall|i: int| 0 <= i < lines.len() implies !(#[trigger] lines[i]).contains('\n') by {
            assert(spaces_only(lines[i]));
            if lines[i].contains('\n') {
                let j = choose|j: int| 0 <= j < lines[i].len() && lines[i][j] == '\n';
                assert(lines[i][j] == ' ' || !is_white_space(lines[i][j]));
            }
        }
        assert forall|i: int| 0 <= i < lines.len() && #[trigger] lines[i].len() > 0 implies lines[i].last()
            != '\r' by {
            assert(spaces_only(lines[i]));
            assert(lines[i][lines[i].len() - 1] == ' ' || !is_white_space(lines[i][lines[i].len() - 1]));
        }
        law_split_of_join(lines);
    }
}

/// Packing is greedy: with a width set, the first word of each packed line
/// would not have fitted at the end of the line before it.
pub proof fn law_pack_greedy(ws: Seq<Seq<char>>, width: nat)
    requires
        forall|i: int| 0 <= i < ws.len() ==> is_word(#[trigger] ws[i]),
    ensures
        forall|i: int| 0 <= i < pack_words(ws, width).len() ==> spec_words(#[trigger] pack_words(ws, width)[i]).len() > 0,
        width > 0 ==> forall|i: int|
            0 <= i < pack_words(ws, width).len() - 1 ==> #[trigger] pack_words(ws, width)[i].len() + 1
                + spec_words(pack_words(ws, width)[i + 1])[0].len() > width,
    decreases ws.len(),
{
    if ws.len() > 0 {
        let init = ws.drop_last();
        let w = ws.last();
        assert(is_word(ws[ws.len() - 1]));
        law_pack_greedy(init, width);
        lemma_words_of_word(w);
        let lines = pack_words(init, width);
        let r = pack_words(ws, width);
        if lines.len() == 0 {
            assert(r =~= seq![w]);
        } else if fits(lines.last().len() + 1 + w.len(), width) {
            let l = lines.last();
            let nl = l.push(' ') + w;
            assert(r == lines.update(lines.len() - 1, nl));
            lemma_words_concat(l.push(' '), w);
            lemma_words_push_space(l, ' ');
            assert(spec_words(lines[lines.len() - 1]).len() > 0);
            assert(spec_words(nl) == spec_words(l) + seq![w]);
            assert(spec_words(nl)[0] == spec_words(l)[0]);
            assert forall|i: int| 0 <= i < r.len() implies spec_words(#[trigger] r[i]).len() > 0 by {
                if i < r.len() - 1 {
                    assert(r[i] == lines[i]);
                }
            }
            if width > 0 {
                assert forall|i: int| 0 <= i < r.len() - 1 implies #[trigger] r[i].len() + 1 + spec_words(
                    r[i + 1],
                )[0].len() > width by {
                    assert(r[i] == lines[i]);
                    if i + 1 < r.len() - 1 {
                        assert(r[i + 1] == lines[i + 1]);
                    } else {
                        assert(r[i + 1] == nl);
                    }
                }
            }
        } else {
            assert(r == lines.push(w));
            assert forall|i: int| 0 <= i < r.len() implies spec_words(#[trigger] r[i]).len() > 0 by {
                if i < r.len() - 1 {
                    assert(r[i] == lines[i]);
                }
            }
            if width > 0 {
                assert forall|i: int| 0 <= i < r.len() - 1 implies #[trigger] r[i].len() + 1 + spec_words(
                    r[i + 1],
                )[0].len() > width by {
                    assert(r[i] == lines[i]);
                    if i + 1 < r.len() - 1 {
                        assert(r[i + 1] == lines[i + 1]);
                    } else {
                        assert(r[i + 1] == w);
                    }
                }
            }
        }
    }
}

} // verus!
