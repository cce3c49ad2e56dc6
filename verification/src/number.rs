//! Line numbering and head/tail selection.
use vstd::prelude::*;
use vstd::string::StringExecFns;
use crate::views;
use crate::text::{chars_of, push_char, decimal, spec_decimal, lemma_decimal_nonempty};

verus! {

/// `s` right-aligned in a field of `width` characters (padded on the left
/// with spaces; never cut).
pub open spec fn pad_left(s: Seq<char>, width: nat) -> Seq<char> {
    if s.len() < width {
        Seq::new((width - s.len()) as nat, |i: int| ' ') + s
    } else {
        s
    }
}

/// The rendering of line `n` (1-based) holding `line`, numbered in a field of
/// `width` characters.
pub open spec fn numbered_line(n: nat, line: Seq<char>, width: nat) -> Seq<char> {
    (pad_left(spec_decimal(n), width).push('\t') + line).push('\n')
}

/// The numbered rendering of `lines`, numbers right-aligned to `width`.
pub open spec fn numbered_lines(lines: Seq<Seq<char>>, width: nat) -> Seq<char>
    decreases lines.len(),
{
    if lines.len() == 0 {
        Seq::empty()
    } else {
        numbered_lines(lines.drop_last(), width) + numbered_line(lines.len(), lines.last(), width)
    }
}

/// The numbered rendering of `lines`: numbers are as wide as the largest one.
pub open spec fn spec_number(lines: Seq<Seq<char>>) -> Seq<char> {
    numbered_lines(lines, spec_decimal(lines.len()).len())
}

/// Prefix each line with a 1-based, right-aligned line number followed by a
/// tab. Numbering width is sized to the largest line number so columns align.
/// Each line ends with a newline (empty input -> empty output).
pub fn number(lines: &[&str]) -> (out: String)
    ensures
        out@ == spec_number(views(lines@)),
{
    let mut out = String::new();
    if lines.len() == 0 {
        assert(views(lines@) =~= Seq::<Seq<char>>::empty());
        return out;
    }
    let total = decimal(lines.len());
    let width = chars_of(total.as_str()).len();
    let ghost w = width as nat;
    let mut i: usize = 0;
    while i < lines.len()
        invariant
            i <= lines@.len(),
            w == spec_decimal(lines@.len() as nat).len(),
            width == w,
            out@ == numbered_lines(views(lines@.take(i as int)), w),
        decreases lines@.len() - i,
    {
        let n = i + 1;
        let digits = decimal(n);
        let dcs = chars_of(digits.as_str());
        let ghost before = out@;
        let mut pad: usize = 0;
        if dcs.len() < width {
            pad = width - dcs.len();
        }
        let mut j: usize = 0;
        while j < pad
            invariant
                j <= pad,
                out@ == before + Seq::new(j as nat, |k: int| ' '),
            decreases pad - j,
        {
            push_char(&mut out, ' ');
            assert(Seq::new((j + 1) as nat, |k: int| ' ') =~= Seq::new(j as nat, |k: int| ' ').push(' '));
            j = j + 1;
        }
        out.append(digits.as_str());
        push_char(&mut out, '\t');
        out.append(lines[i]);
        push_char(&mut out, '\n');
        proof {
            let v = views(lines@.take(i + 1));
            assert(v.drop_last() =~= views(lines@.take(i as int)));
            assert(v.last() == lines@[i as int]@);
            assert(v.len() == n);
            let p = pad_left(spec_decimal(n as nat), w);
            if dcs@.len() < width {
                assert(p =~= Seq::new(pad as nat, |k: int| ' ') + spec_decimal(n as nat));
            } else {
                assert(Seq::new(0nat, |k: int| ' ') =~= Seq::<char>::empty());
            }
            assert(out@ =~= before + numbered_line(n as nat, lines@[i as int]@, w));
        }
        i = i + 1;
    }
    assert(lines@.take(lines@.len() as int) =~= lines@);
    out
}

/// The first `n` lines, or all of them when there are fewer.
pub open spec fn spec_head<T>(lines: Seq<T>, n: nat) -> Seq<T> {
    lines.take(if n < lines.len() { n as int } else { lines.len() as int })
}

/// The last `n` lines, in order, or all of them when there are fewer.
pub open spec fn spec_tail<T>(lines: Seq<T>, n: nat) -> Seq<T> {
    lines.skip(if n < lines.len() { lines.len() - n } else { 0 })
}

/// Return the first `n` lines (clamped to the available count).
pub fn head<'a>(lines: &[&'a str], n: usize) -> (out: Vec<&'a str>)
    ensures
        out@ == spec_head(lines@, n as nat),
{
    let k = if n < lines.len() { n } else { lines.len() };
    let mut out: Vec<&'a str> = Vec::new();
    let mut i: usize = 0;
    while i < k
        invariant
            k <= lines@.len(),
            i <= k,
            out@ == lines@.take(i as int),
        decreases k - i,
    {
        out.push(lines[i]);
        assert(lines@.take(i + 1) =~= lines@.take(i as int).push(lines@[i as int]));
        i = i + 1;
    }
    out
}

/// Return the last `n` lines (clamped to the available count), preserving order.
pub fn tail<'a>(lines: &[&'a str], n: usize) -> (out: Vec<&'a str>)
    ensures
        out@ == spec_tail(lines@, n as nat),
{
    let len = lines.len();
    let start = if n < len { len - n } else { 0 };
    let mut out: Vec<&'a str> = Vec::new();
    let mut i: usize = start;
    while i < len
        invariant
            len == lines@.len(),
            start <= i <= len,
            out@ == lines@.subrange(start as int, i as int),
        decreases len - i,
    {
        out.push(lines[i]);
        assert(lines@.subrange(start as int, i + 1) =~= lines@.subrange(start as int, i as int).push(
            lines@[i as int],
        ));
        i = i + 1;
    }
    assert(lines@.skip(start as int) =~= lines@.subrange(start as int, len as int));
    out
}

/// The first `k` lines followed by the last `len - k` lines are all the lines.
pub proof fn law_head_then_tail<T>(lines: Seq<T>, k: nat)
    requires
        k <= lines.len(),
    ensures
        spec_head(lines, k) + spec_tail(lines, (lines.len() - k) as nat) == lines,
{
    assert(lines.take(k as int) + lines.skip(k as int) =~= lines);
}


proof fn lemma_decimal_len_monotone(a: nat, b: nat)
    requires
        a <= b,
    ensures
        spec_decimal(a).len() <= spec_decimal(b).len(),
    decreases b,
{
    lemma_decimal_nonempty(b);
    if a >= 10 {
        lemma_decimal_len_monotone(a / 10, b / 10);
    }
}

/// Every line number is right-aligned in a field exactly as wide as the
/// largest number, so the tab after it stands in the same column on every line.
pub proof fn law_number_columns(count: nat, n: nat)
    requires
        1 <= n <= count,
    ensures
        pad_left(spec_decimal(n), spec_decimal(count).len()).len() == spec_decimal(count).len(),
{
    lemma_decimal_len_monotone(n, count);
}

proof fn lemma_numbered_prefix(lines: Seq<Seq<char>>, width: nat, k: int)
    requires
        1 <= k <= lines.len(),
    ensures
        numbered_lines(lines, width) == numbered_lines(lines.take(k), width) + numbered_lines(lines, width).skip(
            numbered_lines(lines.take(k), width).len() as int,
        ),
    decreases lines.len(),
{
    if lines.len() > k {
        let p = lines.drop_last();
        lemma_numbered_prefix(p, width, k);
        assert(p.take(k) =~= lines.take(k));
        let a = numbered_lines(lines.take(k), width);
        let np = numbered_lines(p, width);
        assert(numbered_lines(lines, width) == np + numbered_line(lines.len(), lines.last(), width));
        assert(numbered_lines(lines, width) =~= a + numbered_lines(lines, width).skip(a.len() as int));
    } else {
        assert(lines.take(k) =~= lines);
        assert(numbered_lines(lines, width).skip(numbered_lines(lines, width).len() as int) =~= Seq::<char>::empty());
        assert(numbered_lines(lines, width) =~= numbered_lines(lines, width) + Seq::<char>::empty());
    }
}

/// The numbering of non-empty lines starts with line 1 right-aligned in a
/// field as wide as the numeral of the line count, and ends with the last
/// line under its number with no padding at all: the field is exactly as
/// wide as the largest number.
pub proof fn law_number_first_and_last(lines: Seq<Seq<char>>)
    requires
        lines.len() >= 1,
    ensures
        ({
            let out = spec_number(lines);
            let d = spec_decimal(lines.len()).len();
            let first = (Seq::new((d - 1) as nat, |i: int| ' ') + seq!['1', '\t'] + lines[0]).push('\n');
            let last = (spec_decimal(lines.len()).push('\t') + lines.last()).push('\n');
            &&& first.len() <= out.len() && out.take(first.len() as int) == first
            &&& last.len() <= out.len() && out.skip(out.len() - last.len()) == last
        }),
{
    let n = lines.len();
    let d = spec_decimal(n).len();
    let out = spec_number(lines);
    lemma_decimal_nonempty(n);
    lemma_decimal_len_monotone(1, n);
    assert(spec_decimal(1) =~= seq!['1']);
    // first line
    lemma_numbered_prefix(lines, d, 1);
    let t1 = lines.take(1);
    assert(t1.drop_last() =~= Seq::<Seq<char>>::empty());
    assert(numbered_lines(t1.drop_last(), d) == Seq::<char>::empty());
    assert(t1.last() == lines[0]);
    let first = (Seq::new((d - 1) as nat, |i: int| ' ') + seq!['1', '\t'] + lines[0]).push('\n');
    assert(numbered_lines(t1, d) =~= first);
    // last line
    let lastl = numbered_line(n, lines.last(), d);
    assert(pad_left(spec_decimal(n), d) == spec_decimal(n));
    let last = (spec_decimal(n).push('\t') + lines.last()).push('\n');
    assert(lastl =~= last);
    let np = numbered_lines(lines.drop_last(), d);
    assert(out == np + lastl);
    assert(out.skip(out.len() - last.len()) =~= last);
    assert(out.take(first.len() as int) =~= first);
}

} // verus!
