//! Trim trailing whitespace and normalize blank lines.
use vstd::prelude::*;
use crate::{split_pieces, split_on, spec_join_lines, strip_final_newline, lemma_split_on_pieces, lemma_split_join, lemma_join_strip};
use crate::text::{chars_of, char_views, push_char};

verus! {

/// The characters that trimming strips from line ends.
pub open spec fn is_trim_char(c: char) -> bool {
    c == ' ' || c == '\t' || c == '\r'
}

/// `line` without its trailing spaces, tabs and carriage returns.
pub open spec fn trim_end(line: Seq<char>) -> Seq<char>
    decreases line.len(),
{
    if line.len() > 0 && is_trim_char(line.last()) {
        trim_end(line.drop_last())
    } else {
        line
    }
}

/// `lines` with each run of consecutive blank lines reduced to one.
pub open spec fn collapse_blank_runs(lines: Seq<Seq<char>>) -> Seq<Seq<char>>
    decreases lines.len(),
{
    if lines.len() == 0 {
        Seq::empty()
    } else {
        let kept = collapse_blank_runs(lines.drop_last());
        if lines.last().len() == 0 && kept.len() > 0 && kept.last().len() == 0 {
            kept
        } else {
            kept.push(lines.last())
        }
    }
}

/// `lines` without its leading blank lines.
pub open spec fn drop_leading_blanks(lines: Seq<Seq<char>>) -> Seq<Seq<char>>
    decreases lines.len(),
{
    if lines.len() > 0 && lines[0].len() == 0 {
        drop_leading_blanks(lines.drop_first())
    } else {
        lines
    }
}

/// `lines` without its trailing blank lines.
pub open spec fn drop_trailing_blanks(lines: Seq<Seq<char>>) -> Seq<Seq<char>>
    decreases lines.len(),
{
    if lines.len() > 0 && lines.last().len() == 0 {
        drop_trailing_blanks(lines.drop_last())
    } else {
        lines
    }
}

/// The lines that trimming keeps for `text`.
pub open spec fn trimmed_lines(text: Seq<char>) -> Seq<Seq<char>> {
    drop_trailing_blanks(
        drop_leading_blanks(
            collapse_blank_runs(split_on(text, '\n').map_values(|l: Seq<char>| trim_end(l))),
        ),
    )
}

/// The result of trimming `text`.
pub open spec fn spec_trim(text: Seq<char>) -> Seq<char> {
    spec_join_lines(trimmed_lines(text))
}

fn trim_line(line: &Vec<char>) -> (out: Vec<char>)
    ensures
        out@ == trim_end(line@),
{
    let mut k = line.len();
    assert(line@.take(k as int) =~= line@);
    while k > 0 && (line[k - 1] == ' ' || line[k - 1] == '\t' || line[k - 1] == '\r')
        invariant
            k <= line@.len(),
            trim_end(line@) == trim_end(line@.take(k as int)),
        decreases k,
    {
        assert(line@.take(k as int).drop_last() =~= line@.take(k - 1));
        k = k - 1;
    }
    let mut out: Vec<char> = Vec::new();
    let mut i: usize = 0;
    while i < k
        invariant
            k <= line@.len(),
            i <= k,
            out@ == line@.take(i as int),
        decreases k - i,
    {
        out.push(line[i]);
        assert(line@.take(i + 1) =~= line@.take(i as int).push(line@[i as int]));
        i = i + 1;
    }
    assert(line@.take(line@.len() as int) =~= line@);
    out
}

/// Trim each line's trailing whitespace and collapse runs of blank lines.
///
/// - Trailing whitespace (spaces, tabs, `\r`) is stripped from every line.
/// - Runs of two or more consecutive blank lines collapse to a single blank
///   line.
/// - Leading and trailing blank lines are removed entirely.
/// - The result always ends with exactly one trailing newline (unless empty).
pub fn trim(text: &str) -> (out: String)
    ensures
        out@ == spec_trim(text@),
{
    let cs = chars_of(text);
    let pieces = split_pieces(&cs, '\n');
    let ghost trimmed = split_on(text@, '\n').map_values(|l: Seq<char>| trim_end(l));
    // trim each line, collapsing runs of blank lines as they come
    let mut collapsed: Vec<Vec<char>> = Vec::new();
    let mut prev_blank = false;
    let mut i: usize = 0;
    while i < pieces.len()
        invariant
            i <= pieces@.len(),
            char_views(pieces@) == split_on(text@, '\n'),
            trimmed == split_on(text@, '\n').map_values(|l: Seq<char>| trim_end(l)),
            char_views(collapsed@) == collapse_blank_runs(trimmed.take(i as int)),
            prev_blank == (collapsed@.len() > 0 && collapsed@.last()@.len() == 0),
        decreases pieces@.len() - i,
    {
        let line = trim_line(&pieces[i]);
        let is_blank = line.len() == 0;
        proof {
            assert(trimmed.take(i + 1).drop_last() =~= trimmed.take(i as int));
            assert(trimmed.take(i + 1).last() == line@);
        }
        if is_blank && prev_blank {
        } else {
            let ghost before = char_views(collapsed@);
            collapsed.push(line);
            proof {
                assert(char_views(collapsed@) =~= before.push(line@));
            }
            prev_blank = is_blank;
        }
        i = i + 1;
    }
    proof {
        assert(trimmed.take(pieces@.len() as int) =~= trimmed);
    }
    // strip leading blank lines
    while collapsed.len() > 0 && collapsed[0].len() == 0
        invariant
            drop_leading_blanks(char_views(collapsed@)) == drop_leading_blanks(
                collapse_blank_runs(trimmed),
            ),
        decreases collapsed@.len(),
    {
        let ghost before = char_views(collapsed@);
        collapsed.remove(0);
        proof {
            assert(char_views(collapsed@) =~= before.drop_first());
        }
    }
    // strip trailing blank lines
    proof {
        assert(drop_leading_blanks(char_views(collapsed@)) == char_views(collapsed@));
    }
    while collapsed.len() > 0 && collapsed[collapsed.len() - 1].len() == 0
        invariant
            drop_trailing_blanks(char_views(collapsed@)) == trimmed_lines(text@),
        decreases collapsed@.len(),
    {
        let ghost before = char_views(collapsed@);
        collapsed.pop();
        proof {
            assert(char_views(collapsed@) =~= before.drop_last());
        }
    }
    assert(drop_trailing_blanks(char_views(collapsed@)) == char_views(collapsed@));
    let mut out = String::new();
    let mut j: usize = 0;
    while j < collapsed.len()
        invariant
            j <= collapsed@.len(),
            out@ == spec_join_lines(char_views(collapsed@).take(j as int)),
        decreases collapsed@.len() - j,
    {
        let line = &collapsed[j];
        let ghost before = out@;
        let mut k: usize = 0;
        while k < line.len()
            invariant
                k <= line@.len(),
                out@ == before + line@.take(k as int),
            decreases line@.len() - k,
        {
            push_char(&mut out, line[k]);
            assert(line@.take(k + 1) =~= line@.take(k as int).push(line@[k as int]));
            k = k + 1;
        }
        push_char(&mut out, '\n');
        proof {
            let v = char_views(collapsed@).take(j + 1);
            assert(v.drop_last() =~= char_views(collapsed@).take(j as int));
            assert(line@.take(line@.len() as int) =~= line@);
            assert(v.last() == line@);
        }
        j = j + 1;
    }
    assert(char_views(collapsed@).take(collapsed@.len() as int) =~= char_views(collapsed@));
    out
}


// ---------------------------------------------------------------------------
// The shape of trimmed text
// ---------------------------------------------------------------------------

/// No two neighbouring lines are both blank.
pub open spec fn no_blank_runs(lines: Seq<Seq<char>>) -> bool {
    forall|i: int| 0 < i < lines.len() ==> lines[i - 1].len() > 0 || (#[trigger] lines[i]).len() > 0
}

/// A line that holds no newline and does not end in a space, tab or
/// carriage return.
pub open spec fn is_clean_line(line: Seq<char>) -> bool {
    &&& !line.contains('\n')
    &&& (line.len() == 0 || !is_trim_char(line.last()))
}

proof fn lemma_trim_end(line: Seq<char>)
    ensures
        trim_end(line).len() <= line.len(),
        trim_end(line) == line.take(trim_end(line).len() as int),
        trim_end(line).len() == 0 || !is_trim_char(trim_end(line).last()),
    decreases line.len(),
{
    if line.len() > 0 && is_trim_char(line.last()) {
        lemma_trim_end(line.drop_last());
        assert(line.drop_last().take(trim_end(line).len() as int) =~= line.take(trim_end(line).len() as int));
    } else {
        assert(line.take(line.len() as int) =~= line);
    }
}

proof fn lemma_collapse(lines: Seq<Seq<char>>)
    ensures
        no_blank_runs(collapse_blank_runs(lines)),
        forall|i: int|
            0 <= i < collapse_blank_runs(lines).len() ==> lines.contains(#[trigger] collapse_blank_runs(lines)[i]),
        no_blank_runs(lines) ==> collapse_blank_runs(lines) == lines,
    decreases lines.len(),
{
    if lines.len() > 0 {
        let init = lines.drop_last();
        lemma_collapse(init);
        let kept = collapse_blank_runs(init);
        let r = collapse_blank_runs(lines);
        assert forall|i: int| 0 <= i < r.len() implies lines.contains(#[trigger] r[i]) by {
            if i < kept.len() {
                assert(r[i] == kept[i]);
                let j = choose|j: int| 0 <= j < init.len() && init[j] == kept[i];
                assert(lines[j] == kept[i]);
            } else {
                assert(r[i] == lines[lines.len() - 1]);
            }
        }
        assert forall|i: int| 0 < i < r.len() implies r[i - 1].len() > 0 || (#[trigger] r[i]).len() > 0 by {
            if i < kept.len() {
                assert(r[i - 1] == kept[i - 1] && r[i] == kept[i]);
            }
        }
        if no_blank_runs(lines) {
            assert forall|i: int| 0 < i < init.len() implies init[i - 1].len() > 0 || (#[trigger] init[i]).len() > 0 by {
                assert(init[i - 1] == lines[i - 1] && init[i] == lines[i]);
            }
            if lines.len() >= 2 {
                assert(lines[lines.len() - 2].len() > 0 || lines[lines.len() - 1].len() > 0);
            }
            assert(init.push(lines.last()) =~= lines);
        }
    }
}

proof fn lemma_drop_leading(lines: Seq<Seq<char>>)
    ensures
        drop_leading_blanks(lines).len() <= lines.len(),
        drop_leading_blanks(lines) == lines.subrange(
            lines.len() - drop_leading_blanks(lines).len(),
            lines.len() as int,
        ),
        drop_leading_blanks(lines).len() > 0 ==> drop_leading_blanks(lines)[0].len() > 0,
    decreases lines.len(),
{
    if lines.len() > 0 && lines[0].len() == 0 {
        lemma_drop_leading(lines.drop_first());
        let r = drop_leading_blanks(lines);
        assert(lines.drop_first().subrange(lines.len() - 1 - r.len(), lines.len() - 1) =~= lines.subrange(
            lines.len() - r.len(),
            lines.len() as int,
        ));
    } else {
        assert(lines.subrange(0, lines.len() as int) =~= lines);
    }
}

proof fn lemma_drop_trailing(lines: Seq<Seq<char>>)
    ensures
        drop_trailing_blanks(lines).len() <= lines.len(),
        drop_trailing_blanks(lines) == lines.take(drop_trailing_blanks(lines).len() as int),
        drop_trailing_blanks(lines).len() > 0 ==> drop_trailing_blanks(lines).last().len() > 0,
    decreases lines.len(),
{
    if lines.len() > 0 && lines.last().len() == 0 {
        lemma_drop_trailing(lines.drop_last());
        let r = drop_trailing_blanks(lines);
        assert(lines.drop_last().take(r.len() as int) =~= lines.take(r.len() as int));
    } else {
        assert(lines.take(lines.len() as int) =~= lines);
    }
}

/// The lines of trimmed text are clean (no trailing spaces, tabs or carriage
/// returns), no two blank lines are neighbours, and the first and last lines
/// are not blank. The text is those lines, each ending with one newline; so
/// trimmed text that is not empty ends with exactly one newline.
pub proof fn law_trim_shape(text: Seq<char>)
    ensures
        spec_trim(text) == spec_join_lines(trimmed_lines(text)),
        forall|i: int| 0 <= i < trimmed_lines(text).len() ==> is_clean_line(#[trigger] trimmed_lines(text)[i]),
        no_blank_runs(trimmed_lines(text)),
        trimmed_lines(text).len() > 0 ==> trimmed_lines(text)[0].len() > 0 && trimmed_lines(text).last().len() > 0,
        spec_trim(text).len() > 0 ==> spec_trim(text).len() >= 2 && spec_trim(text).last() == '\n'
            && spec_trim(text)[spec_trim(text).len() - 2] != '\n',
{
    let pieces = split_on(text, '\n');
    let m = pieces.map_values(|l: Seq<char>| trim_end(l));
    let c = collapse_blank_runs(m);
    let d = drop_leading_blanks(c);
    let t = drop_trailing_blanks(d);
    lemma_split_on_pieces(text, '\n');
    lemma_collapse(m);
    lemma_drop_leading(c);
    lemma_drop_trailing(d);
    assert forall|i: int| 0 <= i < m.len() implies is_clean_line(#[trigger] m[i]) by {
        lemma_trim_end(pieces[i]);
        assert(!pieces[i].contains('\n'));
        if m[i].contains('\n') {
            let j = choose|j: int| 0 <= j < m[i].len() && m[i][j] == '\n';
            assert(pieces[i][j] == '\n');
        }
    }
    assert forall|i: int| 0 <= i < t.len() implies is_clean_line(#[trigger] t[i]) by {
        let k = c.len() - d.len();
        assert(t[i] == d[i]);
        assert(d[i] == c[i + k]);
        assert(m.contains(c[i + k]));
    }
    assert forall|i: int| 0 < i < t.len() implies t[i - 1].len() > 0 || (#[trigger] t[i]).len() > 0 by {
        let k = c.len() - d.len();
        assert(t[i] == c[i + k] && t[i - 1] == c[i - 1 + k]);
    }
    if t.len() > 0 {
        assert(t[0] == d[0]);
    }
    let j = spec_trim(text);
    if j.len() > 0 {
        lemma_join_strip(t);
        let last = t[t.len() - 1];
        assert(is_clean_line(last));
        assert(j.drop_last() =~= spec_join_lines(t.drop_last()) + last);
        assert(j[j.len() - 2] == last.last());
        assert(last.last() == last[last.len() - 1]);
    }
}

/// Trimming trimmed text changes nothing.
#[verifier::spinoff_prover]
#[verifier::rlimit(40)]
pub proof fn law_trim_idempotent(text: Seq<char>)
    ensures
        spec_trim(spec_trim(text)) == spec_trim(text),
{
    law_trim_shape(text);
    let l = trimmed_lines(text);
    let j = spec_trim(text);
    if l.len() == 0 {
        assert(j =~= Seq::<char>::empty());
        let p = split_on(j, '\n');
        assert(p =~= seq![Seq::<char>::empty()]);
        let m = p.map_values(|x: Seq<char>| trim_end(x));
        assert(m =~= seq![Seq::<char>::empty()]);
        assert(collapse_blank_runs(m.drop_last()) =~= Seq::<Seq<char>>::empty());
        assert(collapse_blank_runs(m) =~= m);
        assert(drop_leading_blanks(m.drop_first()) =~= Seq::<Seq<char>>::empty());
        assert(trimmed_lines(j) =~= Seq::<Seq<char>>::empty());
    } else {
        assert forall|i: int| 0 <= i < l.len() implies !(#[trigger] l[i]).contains('\n') by {
            assert(is_clean_line(l[i]));
        }
        lemma_join_strip(l);
        lemma_split_join(l);
        assert(j =~= strip_final_newline(j).push('\n'));
        assert(j.drop_last() =~= strip_final_newline(j));
        let p = split_on(j, '\n');
        assert(p =~= l.push(Seq::<char>::empty()));
        let m = p.map_values(|x: Seq<char>| trim_end(x));
        assert forall|i: int| 0 <= i < p.len() implies trim_end(#[trigger] p[i]) == p[i] by {
            if i < l.len() {
                assert(is_clean_line(l[i]));
                assert(p[i] == l[i]);
            }
        }
        assert(m =~= p);
        assert(no_blank_runs(p)) by {
            assert forall|i: int| 0 < i < p.len() implies p[i - 1].len() > 0 || (#[trigger] p[i]).len() > 0 by {
                if i < l.len() {
                    assert(p[i - 1] == l[i - 1] && p[i] == l[i]);
                } else {
                    assert(p[i - 1] == l.last());
                }
            }
        }
        lemma_collapse(p);
        assert(p[0] == l[0]);
        assert(drop_leading_blanks(p) == p);
        assert(p.drop_last() =~= l);
        assert(drop_trailing_blanks(p) == drop_trailing_blanks(l));
        assert(drop_trailing_blanks(l) == l);
        assert(trimmed_lines(j) == l);
    }
}

/// Trimming a line removes exactly its trailing spaces, tabs and carriage
/// returns: the line is the trimmed line followed by such characters only,
/// and the trimmed line does not end with one of them.
pub proof fn law_trim_end_removes_blanks(line: Seq<char>)
    ensures
        trim_end(line).len() <= line.len(),
        line == trim_end(line) + line.skip(trim_end(line).len() as int),
        forall|j: int|
            trim_end(line).len() <= j < line.len() ==> #[trigger] line[j] == ' ' || line[j] == '\t'
                || line[j] == '\r',
        trim_end(line).len() == 0 || (trim_end(line).last() != ' ' && trim_end(line).last() != '\t'
            && trim_end(line).last() != '\r'),
    decreases line.len(),
{
    if line.len() > 0 && is_trim_char(line.last()) {
        let p = line.drop_last();
        law_trim_end_removes_blanks(p);
        let t = trim_end(p);
        assert(trim_end(line) == t);
        assert forall|j: int| t.len() <= j < line.len() implies #[trigger] line[j] == ' ' || line[j] == '\t'
            || line[j] == '\r' by {
            if j < p.len() {
                assert(line[j] == p[j]);
            }
        }
        assert(line =~= t + line.skip(t.len() as int)) by {
            assert(p =~= t + p.skip(t.len() as int));
            assert(line =~= p.push(line.last()));
        }
    } else {
        assert(line.skip(line.len() as int) =~= Seq::<char>::empty());
        assert(line =~= line + line.skip(line.len() as int));
    }
}

/// `l` is `p` with only trailing spaces, tabs and carriage returns removed,
/// and `l` does not end with one of those characters.
pub open spec fn blanks_removed(l: Seq<char>, p: Seq<char>) -> bool {
    &&& l.len() <= p.len()
    &&& p == l + p.skip(l.len() as int)
    &&& forall|j: int| l.len() <= j < p.len() ==> #[trigger] p[j] == ' ' || p[j] == '\t' || p[j] == '\r'
    &&& (l.len() == 0 || (l.last() != ' ' && l.last() != '\t' && l.last() != '\r'))
}

/// `l` is some line of `text` with only trailing spaces, tabs and carriage
/// returns removed (see [`blanks_removed`]).
pub open spec fn trimmed_input_line(l: Seq<char>, text: Seq<char>) -> bool {
    exists|k: int| 0 <= k < split_on(text, '\n').len() && #[trigger] blanks_removed(l, split_on(text, '\n')[k])
}

/// Every line of trimmed text is a line of the input with only trailing
/// spaces, tabs and carriage returns removed, and it does not end with one of
/// those characters. In particular a line ending in any other character is
/// kept whole.
pub proof fn law_trim_keeps_lines(text: Seq<char>)
    ensures
        forall|i: int|
            0 <= i < trimmed_lines(text).len() ==> trimmed_input_line(#[trigger] trimmed_lines(text)[i], text),
{
    let pieces = split_on(text, '\n');
    let m = pieces.map_values(|l: Seq<char>| trim_end(l));
    let c = collapse_blank_runs(m);
    let d = drop_leading_blanks(c);
    let t = drop_trailing_blanks(d);
    lemma_collapse(m);
    lemma_drop_leading(c);
    lemma_drop_trailing(d);
    assert(trimmed_lines(text) == t);
    assert forall|i: int| 0 <= i < t.len() implies trimmed_input_line(#[trigger] t[i], text) by {
        let off = c.len() - d.len();
        assert(t[i] == d[i]);
        assert(d[i] == c[i + off]);
        assert(m.contains(c[i + off]));
        let x = choose|x: int| 0 <= x < m.len() && m[x] == c[i + off];
        assert(m[x] == trim_end(pieces[x]));
        law_trim_end_removes_blanks(pieces[x]);
        assert(blanks_removed(t[i], pieces[x]));
    }
}

} // verus!
