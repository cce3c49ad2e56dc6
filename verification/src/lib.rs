//! Text operations over whole inputs and over the lines of an input:
//! counting, deduplication, sorting, case changes, frequencies, wrapping,
//! trimming, numbering and pattern replacement.
use vstd::prelude::*;
use vstd::utf8::encode_utf8;
use vstd::string::StringSliceAdditionalSpecFns;

pub mod text;
pub mod order;
pub mod casing;
pub mod wc;
pub mod number;
pub mod trim;
pub mod dedup;
pub mod freq;
pub mod sort;
pub mod wrap;
pub mod pattern;
pub mod replace;

use vstd::string::StringExecFns;
use crate::text::{char_views, push_char, chars_of, utf8_len, split_chars_at, lemma_encode_concat, lemma_encode_take_len, lemma_encode_single};

verus! {

/// The pieces of `s` between occurrences of `sep`, as `str::split` gives them
/// (always at least one piece).
pub open spec fn split_on(s: Seq<char>, sep: char) -> Seq<Seq<char>>
    decreases s.len(),
{
    if s.len() == 0 {
        seq![Seq::<char>::empty()]
    } else {
        let init = split_on(s.drop_last(), sep);
        if s.last() == sep {
            init.push(Seq::<char>::empty())
        } else {
            init.update(init.len() - 1, init.last().push(s.last()))
        }
    }
}

/// `line` without one trailing `'\r'`, if it has one.
pub open spec fn strip_cr(line: Seq<char>) -> Seq<char> {
    if line.len() > 0 && line.last() == '\r' {
        line.drop_last()
    } else {
        line
    }
}

/// `text` without one trailing `'\n'`, if it has one.
pub open spec fn strip_final_newline(text: Seq<char>) -> Seq<char> {
    if text.len() > 0 && text.last() == '\n' {
        text.drop_last()
    } else {
        text
    }
}

/// The logical lines of `text`: no lines for empty text; otherwise the pieces
/// between newlines once one final newline is dropped, each without one
/// trailing carriage return.
pub open spec fn spec_split_lines(text: Seq<char>) -> Seq<Seq<char>> {
    if text.len() == 0 {
        Seq::empty()
    } else {
        split_on(strip_final_newline(text), '\n').map_values(|l: Seq<char>| strip_cr(l))
    }
}

/// The views of a sequence of string slices.
pub open spec fn views(lines: Seq<&str>) -> Seq<Seq<char>> {
    lines.map_values(|l: &str| l@)
}

proof fn lemma_split_on_step(s: Seq<char>, sep: char, i: int)
    requires
        0 <= i < s.len(),
    ensures
        split_on(s.take(i + 1), sep) == (if s[i] == sep {
            split_on(s.take(i), sep).push(Seq::<char>::empty())
        } else {
            let init = split_on(s.take(i), sep);
            init.update(init.len() - 1, init.last().push(s[i]))
        }),
{
    assert(s.take(i + 1).drop_last() =~= s.take(i));
}

pub proof fn lemma_split_on_nonempty(s: Seq<char>, sep: char)
    ensures
        split_on(s, sep).len() >= 1,
    decreases s.len(),
{
    if s.len() > 0 {
        lemma_split_on_nonempty(s.drop_last(), sep);
    }
}

/// No piece of a split holds the separator.
pub proof fn lemma_split_on_pieces(s: Seq<char>, sep: char)
    ensures
        forall|i: int| 0 <= i < split_on(s, sep).len() ==> !(#[trigger] split_on(s, sep)[i]).contains(sep),
    decreases s.len(),
{
    if s.len() > 0 {
        let p = s.drop_last();
        lemma_split_on_pieces(p, sep);
        lemma_split_on_nonempty(p, sep);
        let sp = split_on(p, sep);
        let r = split_on(s, sep);
        assert forall|i: int| 0 <= i < r.len() implies !(#[trigger] r[i]).contains(sep) by {
            if i < sp.len() - 1 {
                assert(r[i] == sp[i]);
            } else if s.last() == sep {
                if i == sp.len() - 1 {
                    assert(r[i] == sp[i]);
                } else {
                    assert(r[i] =~= Seq::<char>::empty());
                }
            } else {
                let l = sp.last();
                assert(r[i] == l.push(s.last()));
                assert(!sp[sp.len() - 1].contains(sep));
                if r[i].contains(sep) {
                    let j = choose|j: int| 0 <= j < r[i].len() && r[i][j] == sep;
                    assert(l[j] == sep);
                }
            }
        }
    }
}

/// `piece` without one trailing carriage return, told whether it ends with
/// one and given its byte length.
fn without_cr<'a>(piece: &'a str, ends_cr: bool, k: usize) -> (line: &'a str)
    requires
        ends_cr == (piece@.len() > 0 && piece@.last() == '\r'),
        k == encode_utf8(piece@).len(),
    ensures
        line@ == strip_cr(piece@),
{
    if ends_cr {
        let ghost cur = piece@;
        proof {
            lemma_encode_concat(cur.drop_last(), seq!['\r']);
            assert(cur.drop_last() + seq!['\r'] =~= cur);
            lemma_encode_single('\r');
            assert(cur.take(cur.len() - 1) =~= cur.drop_last());
            assert(cur.take(cur.len() as int) =~= cur);
        }
        let (l, _) = split_chars_at(piece, Ghost(cur.len() - 1), k - 1);
        l
    } else {
        piece
    }
}

/// Split text into logical lines: pieces between `'\n'`, with one trailing
/// `'\r'` removed from each piece. A final newline ends the last line rather
/// than starting an empty one, and empty text has no lines.
pub fn split_lines<'a>(text: &'a str) -> (lines: Vec<&'a str>)
    ensures
        views(lines@) == spec_split_lines(text@),
{
    let cs = chars_of(text);
    let n = cs.len();
    let mut lines: Vec<&'a str> = Vec::new();
    if n == 0 {
        assert(views(lines@) =~= spec_split_lines(text@));
        return lines;
    }
    let ghost t = text@;
    let nbytes = text.as_bytes().len();
    let end: usize = if cs[n - 1] == '\n' { n - 1 } else { n };
    let ghost tr = strip_final_newline(t);
    assert(tr =~= t.take(end as int));
    // `rest` holds the text from the start of the current line on.
    let mut rest: &'a str = text;
    let mut start: usize = 0;
    let mut i: usize = 0;
    // byte length of the characters from `start` to `i`
    let mut k: usize = 0;
    let ghost mut done: Seq<Seq<char>> = Seq::empty();
    proof {
        assert(t.take(0) =~= Seq::<char>::empty());
        assert(t.subrange(0, 0) =~= Seq::<char>::empty());
        assert(rest@ =~= t.skip(0));
        assert(encode_utf8(Seq::<char>::empty()) =~= Seq::<u8>::empty());
    }
    while i < end
        invariant
            cs@ == t,
            n == t.len(),
            end <= n,
            tr == t.take(end as int),
            start <= i <= end,
            rest@ == t.skip(start as int),
            k == encode_utf8(t.subrange(start as int, i as int)).len(),
            encode_utf8(t).len() == nbytes,
            split_on(t.take(i as int), '\n') == done.push(t.subrange(start as int, i as int)),
            views(lines@) == done.map_values(|l: Seq<char>| strip_cr(l)),
        decreases end - i,
    {
        let c = cs[i];
        proof {
            lemma_split_on_step(t, '\n', i as int);
        }
        if c == '\n' {
            let ghost cur = t.subrange(start as int, i as int);
            let ghost restv = rest@;
            proof {
                assert(restv.take(i - start) =~= cur);
            }
            let (piece, after) = split_chars_at(rest, Ghost((i - start) as int), k);
            let line = without_cr(piece, i > start && cs[i - 1] == '\r', k);
            assert(line@ == strip_cr(cur));
            let ghost prev = lines@;
            lines.push(line);
            proof {
                assert(views(lines@) =~= views(prev).push(line@));
                assert(done.push(cur).map_values(|l: Seq<char>| strip_cr(l)) =~= done.map_values(
                    |l: Seq<char>| strip_cr(l),
                ).push(strip_cr(cur)));
            }
            proof {
                assert(after@.take(1) =~= seq!['\n']);
                lemma_encode_single('\n');
            }
            let (_, after_nl) = split_chars_at(after, Ghost(1), 1);
            rest = after_nl;
            proof {
                done = done.push(cur);
                assert(rest@ =~= t.skip(i + 1));
                assert(t.subrange(i + 1, i + 1) =~= Seq::<char>::empty());
                assert(encode_utf8(Seq::<char>::empty()) =~= Seq::<u8>::empty());
                assert(t.take(i + 1) =~= t.take(i as int).push('\n'));
                assert(split_on(t.take(i + 1), '\n') =~= done.push(t.subrange(i + 1, i + 1)));
            }
            i = i + 1;
            start = i;
            k = 0;
        } else {
            let w = utf8_len(c);
            proof {
                let cur = t.subrange(start as int, i as int);
                assert(t.subrange(start as int, i + 1) =~= cur + seq![c]);
                lemma_encode_concat(cur, seq![c]);
                lemma_encode_single(c);
                assert(t.subrange(start as int, i + 1) =~= t.take(i + 1).skip(start as int));
                lemma_encode_take_len(t.skip(start as int), i + 1 - start);
                assert(t.skip(start as int).take(i + 1 - start) =~= t.subrange(start as int, i + 1));
                lemma_encode_take_len(t, start as int);
                lemma_encode_concat(t.take(start as int), t.skip(start as int));
                assert(t.take(start as int) + t.skip(start as int) =~= t);
                assert(done.push(cur).update(done.len() as int, cur.push(c)) =~= done.push(cur.push(c)));
                assert(cur.push(c) =~= t.subrange(start as int, i + 1));
            }
            k = k + w;
            i = i + 1;
        }
    }
    // the last line runs from `start` to `end`
    let ghost cur = t.subrange(start as int, end as int);
    proof {
        assert(rest@.take(end - start) =~= cur);
        assert(t.take(end as int) == tr);
    }
    let (piece, _) = split_chars_at(rest, Ghost((end - start) as int), k);
    let line = without_cr(piece, end > start && cs[end - 1] == '\r', k);
    assert(line@ == strip_cr(cur));
    let ghost prev = lines@;
    lines.push(line);
    proof {
        assert(views(lines@) =~= views(prev).push(line@));
        assert(done.push(cur).map_values(|l: Seq<char>| strip_cr(l)) =~= done.map_values(
            |l: Seq<char>| strip_cr(l),
        ).push(strip_cr(cur)));
        assert(views(lines@) =~= done.push(cur).map_values(|l: Seq<char>| strip_cr(l)));
    }
    lines
}

/// The text made of each line followed by `'\n'`.
pub open spec fn spec_join_lines(lines: Seq<Seq<char>>) -> Seq<char>
    decreases lines.len(),
{
    if lines.len() == 0 {
        Seq::empty()
    } else {
        spec_join_lines(lines.drop_last()) + lines.last().push('\n')
    }
}

/// Join lines into one text: each line followed by a `'\n'` (no lines give
/// the empty text).
pub fn join_lines(lines: &[&str]) -> (out: String)
    ensures
        out@ == spec_join_lines(views(lines@)),
{
    let mut out = String::new();
    let mut i: usize = 0;
    while i < lines.len()
        invariant
            i <= lines@.len(),
            out@ == spec_join_lines(views(lines@.take(i as int))),
        decreases lines@.len() - i,
    {
        let line = lines[i];
        out.append(line);
        push_char(&mut out, '\n');
        proof {
            let v = views(lines@.take(i + 1));
            assert(v.drop_last() =~= views(lines@.take(i as int)));
            assert(v.last() == line@);
        }
        i = i + 1;
    }
    proof {
        assert(lines@.take(lines@.len() as int) =~= lines@);
    }
    out
}

proof fn lemma_split_newlines_no_newline(l: Seq<char>)
    requires
        !l.contains('\n'),
    ensures
        split_on(l, '\n') == seq![l],
    decreases l.len(),
{
    if l.len() > 0 {
        assert(!l.drop_last().contains('\n')) by {
            if l.drop_last().contains('\n') {
                let j = choose|j: int| 0 <= j < l.drop_last().len() && l.drop_last()[j] == '\n';
                assert(l[j] == '\n');
            }
        }
        lemma_split_newlines_no_newline(l.drop_last());
        assert(l[l.len() - 1] == l.last());
        assert(l.drop_last().push(l.last()) =~= l);
        assert(seq![l.drop_last()].update(0, l.drop_last().push(l.last())) =~= seq![l]);
    } else {
        assert(l =~= Seq::<char>::empty());
    }
}

proof fn lemma_split_newlines_concat(a: Seq<char>, b: Seq<char>)
    ensures
        split_on(a.push('\n') + b, '\n') == split_on(a, '\n') + split_on(b, '\n'),
    decreases b.len(),
{
    let x = a.push('\n') + b;
    if b.len() == 0 {
        assert(x =~= a.push('\n'));
        assert(x.drop_last() =~= a);
        assert(split_on(b, '\n') =~= seq![Seq::<char>::empty()]);
        assert(split_on(a, '\n').push(Seq::<char>::empty()) =~= split_on(a, '\n') + split_on(b, '\n'));
    } else {
        assert(x.drop_last() =~= a.push('\n') + b.drop_last());
        assert(x.last() == b.last());
        lemma_split_newlines_concat(a, b.drop_last());
        lemma_split_on_nonempty(b.drop_last(), '\n');
        lemma_split_on_nonempty(a, '\n');
        let sa = split_on(a, '\n');
        let sb = split_on(b.drop_last(), '\n');
        if b.last() == '\n' {
            assert((sa + sb).push(Seq::<char>::empty()) =~= sa + sb.push(Seq::<char>::empty()));
        } else {
            assert((sa + sb).update((sa + sb).len() - 1, (sa + sb).last().push(b.last())) =~= sa
                + sb.update(sb.len() - 1, sb.last().push(b.last())));
        }
    }
}

proof fn lemma_join_strip(ls: Seq<Seq<char>>)
    requires
        ls.len() > 0,
    ensures
        spec_join_lines(ls).len() > 0,
        spec_join_lines(ls).last() == '\n',
        strip_final_newline(spec_join_lines(ls)) == spec_join_lines(ls.drop_last()) + ls.last(),
{
    let j = spec_join_lines(ls);
    assert(j.drop_last() =~= spec_join_lines(ls.drop_last()) + ls.last());
}

proof fn lemma_split_join(ls: Seq<Seq<char>>)
    requires
        ls.len() > 0,
        forall|i: int| 0 <= i < ls.len() ==> !(#[trigger] ls[i]).contains('\n'),
    ensures
        split_on(strip_final_newline(spec_join_lines(ls)), '\n') == ls,
    decreases ls.len(),
{
    lemma_join_strip(ls);
    let init = ls.drop_last();
    assert(!ls.last().contains('\n')) by {
        assert(ls.last() == ls[ls.len() - 1]);
    }
    lemma_split_newlines_no_newline(ls.last());
    if init.len() == 0 {
        assert(spec_join_lines(init) =~= Seq::<char>::empty());
        assert(spec_join_lines(init) + ls.last() =~= ls.last());
        assert(seq![ls.last()] =~= ls);
    } else {
        lemma_join_strip(init);
        let si = strip_final_newline(spec_join_lines(init));
        assert(spec_join_lines(init) =~= si.push('\n'));
        lemma_split_newlines_concat(si, ls.last());
        lemma_split_join(init);
        assert(init + seq![ls.last()] =~= ls);
    }
}

/// Splitting the joined text gives the lines back, whenever no line holds a
/// newline and no line ends with a carriage return.
pub proof fn law_split_of_join(lines: Seq<Seq<char>>)
    requires
        forall|i: int| 0 <= i < lines.len() ==> !(#[trigger] lines[i]).contains('\n'),
        forall|i: int|
            0 <= i < lines.len() && #[trigger] lines[i].len() > 0 ==> lines[i].last() != '\r',
    ensures
        spec_split_lines(spec_join_lines(lines)) == lines,
{
    if lines.len() == 0 {
        assert(spec_join_lines(lines) =~= Seq::<char>::empty());
        assert(spec_split_lines(spec_join_lines(lines)) =~= lines);
    } else {
        lemma_join_strip(lines);
        lemma_split_join(lines);
        assert(spec_split_lines(spec_join_lines(lines)) =~= lines);
    }
}

proof fn lemma_join_split_newlines(s: Seq<char>)
    ensures
        spec_join_lines(split_on(s, '\n')) == s.push('\n'),
    decreases s.len(),
{
    if s.len() == 0 {
        let sp = split_on(s, '\n');
        assert(sp.drop_last() =~= Seq::<Seq<char>>::empty());
        assert(spec_join_lines(sp.drop_last()) =~= Seq::<char>::empty());
        assert(spec_join_lines(sp) =~= s.push('\n'));
    } else {
        let p = s.drop_last();
        lemma_join_split_newlines(p);
        lemma_split_on_nonempty(p, '\n');
        let sp = split_on(p, '\n');
        if s.last() == '\n' {
            let r = sp.push(Seq::<char>::empty());
            assert(r.drop_last() =~= sp);
            assert(spec_join_lines(r) =~= p.push('\n').push('\n'));
            assert(p.push('\n') =~= s);
        } else {
            let r = sp.update(sp.len() - 1, sp.last().push(s.last()));
            assert(r.drop_last() =~= sp.drop_last());
            assert(spec_join_lines(sp) == spec_join_lines(sp.drop_last()) + sp.last().push('\n'));
            assert(spec_join_lines(sp.drop_last()) + sp.last() =~= p) by {
                let x = spec_join_lines(sp.drop_last()) + sp.last();
                assert(spec_join_lines(sp.drop_last()) + sp.last().push('\n') =~= x.push('\n'));
                assert(x.push('\n').drop_last() =~= x);
                assert(p.push('\n').drop_last() =~= p);
            }
            assert(spec_join_lines(r) =~= (spec_join_lines(sp.drop_last()) + sp.last()).push(
                s.last(),
            ).push('\n'));
            assert(p.push(s.last()) =~= s);
        }
    }
}

proof fn lemma_pieces_end(s: Seq<char>)
    requires
        forall|i: int| 0 < i < s.len() && #[trigger] s[i] == '\n' ==> s[i - 1] != '\r',
    ensures
        split_on(s, '\n').len() >= 1,
        split_on(s, '\n').last().len() > 0 ==> s.len() > 0 && split_on(s, '\n').last().last()
            == s.last(),
        forall|j: int|
            0 <= j < split_on(s, '\n').len() - 1 && (#[trigger] split_on(s, '\n')[j]).len() > 0
                ==> split_on(s, '\n')[j].last() != '\r',
    decreases s.len(),
{
    lemma_split_on_nonempty(s, '\n');
    if s.len() > 0 {
        let p = s.drop_last();
        assert forall|i: int| 0 < i < p.len() && #[trigger] p[i] == '\n' implies p[i - 1] != '\r' by {
            assert(s[i - 1] == p[i - 1] && s[i] == p[i]);
        }
        lemma_pieces_end(p);
        let sp = split_on(p, '\n');
        if s.last() == '\n' {
            assert forall|j: int|
                0 <= j < split_on(s, '\n').len() - 1 && (#[trigger] split_on(s, '\n')[j]).len()
                    > 0 implies split_on(s, '\n')[j].last() != '\r' by {
                assert(split_on(s, '\n')[j] == sp[j]);
                if j == sp.len() - 1 {
                    assert(s[s.len() - 1] == '\n');
                    assert(s[s.len() - 2] == p.last());
                }
            }
        } else {
            assert forall|j: int|
                0 <= j < split_on(s, '\n').len() - 1 && (#[trigger] split_on(s, '\n')[j]).len()
                    > 0 implies split_on(s, '\n')[j].last() != '\r' by {
                assert(split_on(s, '\n')[j] == sp[j]);
            }
        }
    }
}

/// Joining the lines of a text gives the text back, whenever the text is
/// empty or ends with a newline and no carriage return comes right before a
/// newline.
pub proof fn law_join_of_split(text: Seq<char>)
    requires
        text.len() == 0 || text.last() == '\n',
        forall|i: int| 0 < i < text.len() && #[trigger] text[i] == '\n' ==> text[i - 1] != '\r',
    ensures
        spec_join_lines(spec_split_lines(text)) == text,
{
    if text.len() == 0 {
        assert(spec_split_lines(text) =~= Seq::<Seq<char>>::empty());
        assert(spec_join_lines(spec_split_lines(text)) =~= text);
    } else {
        let s = text.drop_last();
        assert(strip_final_newline(text) == s);
        assert forall|i: int| 0 < i < s.len() && #[trigger] s[i] == '\n' implies s[i - 1] != '\r' by {
            assert(text[i - 1] == s[i - 1] && text[i] == s[i]);
        }
        lemma_pieces_end(s);
        let sp = split_on(s, '\n');
        assert forall|j: int| 0 <= j < sp.len() implies strip_cr(#[trigger] sp[j]) == sp[j] by {
            if j == sp.len() - 1 && sp[j].len() > 0 {
                assert(sp[j].last() == s.last());
                assert(text[text.len() - 1] == '\n');
                assert(text[text.len() - 2] == s.last());
            }
        }
        assert(spec_split_lines(text) =~= sp);
        lemma_join_split_newlines(s);
        assert(s.push('\n') =~= text);
    }
}

/// The pieces of a character sequence between occurrences of `sep`, as
/// `str::split(sep)` gives them.
pub fn split_pieces(cs: &Vec<char>, sep: char) -> (pieces: Vec<Vec<char>>)
    ensures
        char_views(pieces@) == split_on(cs@, sep),
{
    let mut pieces: Vec<Vec<char>> = Vec::new();
    let mut cur: Vec<char> = Vec::new();
    let mut i: usize = 0;
    proof {
        assert(cs@.take(0) =~= Seq::<char>::empty());
        assert(char_views(pieces@).push(cur@) =~= seq![Seq::<char>::empty()]);
    }
    while i < cs.len()
        invariant
            i <= cs@.len(),
            char_views(pieces@).push(cur@) == split_on(cs@.take(i as int), sep),
        decreases cs@.len() - i,
    {
        let c = cs[i];
        proof {
            lemma_split_on_step(cs@, sep, i as int);
        }
        let ghost before = char_views(pieces@);
        if c == sep {
            let done = cur;
            pieces.push(done);
            cur = Vec::new();
            proof {
                assert(char_views(pieces@) =~= before.push(done@));
                assert(char_views(pieces@).push(cur@) =~= before.push(done@).push(Seq::<char>::empty()));
            }
        } else {
            let ghost prior = cur@;
            cur.push(c);
            proof {
                assert(char_views(pieces@).push(cur@) =~= before.push(prior).update(
                    before.len() as int,
                    prior.push(c),
                ));
            }
        }
        i = i + 1;
    }
    let ghost before = char_views(pieces@);
    let last = cur;
    pieces.push(last);
    proof {
        assert(char_views(pieces@) =~= before.push(last@));
        assert(cs@.take(cs@.len() as int) =~= cs@);
    }
    pieces
}

} // verus!
