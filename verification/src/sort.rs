//! Line sorting: by text or by number, ascending or descending, optionally
//! unique, optionally keyed by a delimited field.
use vstd::prelude::*;
use crate::{views, split_on, split_pieces};
use crate::dedup::{self, select_kept, line_keys, lemma_keys_of_kept, lemma_kept_keys};
use crate::order::{text_lt, lemma_text_lt_total, text_ranks, stable_order, is_stable_order, comes_before, occurs_in, lemma_text_lt_irreflexive, lemma_text_lt_asymmetric};
use crate::text::{copy_chars, chars_of, char_views, is_whitespace, is_white_space, string_of};

verus! {

/// Options for [`sort`].
#[derive(Debug, Clone)]
pub struct Options {
    /// Compare lines by the leading number of their keys rather than as text.
    pub numeric: bool,
    /// Reverse the final ordering.
    pub reverse: bool,
    /// Drop duplicate lines after sorting (based on the full line text).
    pub unique: bool,
    /// 1-based field index to use as the sort key. `None` uses the whole line.
    pub by_field: Option<usize>,
    /// Field delimiter when `by_field` is set. Defaults to a single space.
    pub delim: char,
}

impl Default for Options {
    /// No flag set, no field selected, and a single space as the delimiter.
    fn default() -> (o: Self)
        ensures
            o == (Options { numeric: false, reverse: false, unique: false, by_field: None, delim: ' ' }),
    {
        Options { numeric: false, reverse: false, unique: false, by_field: None, delim: ' ' }
    }
}

/// Piece `k` (0-based) of `s` split at `sep`, or the empty text when there
/// is no such piece.
pub open spec fn field_of(s: Seq<char>, sep: char, k: int) -> Seq<char> {
    if 0 <= k < split_on(s, sep).len() {
        split_on(s, sep)[k]
    } else {
        Seq::empty()
    }
}

/// The sort key of a line: field `n` (1-based) when `by_field` is `Some(n)`
/// with `n >= 1`, the whole line otherwise.
pub open spec fn sort_key(line: Seq<char>, opts: Options) -> Seq<char> {
    match opts.by_field {
        Some(n) => if n >= 1 {
            field_of(line, opts.delim, n - 1)
        } else {
            line
        },
        None => line,
    }
}

/// Extract the sort key for a line, honoring `by_field`/`delim`. Fields are
/// 1-based; a missing field gives the empty key.
pub fn key_for(line: &str, opts: &Options) -> (k: Vec<char>)
    ensures
        k@ == sort_key(line@, *opts),
{
    let cs = chars_of(line);
    match opts.by_field {
        Some(n) => {
            if n >= 1 {
                let pieces = split_pieces(&cs, opts.delim);
                if n - 1 < pieces.len() {
                    let k = copy_chars(&pieces[n - 1]);
                    assert(char_views(pieces@)[n - 1] == pieces@[n - 1]@);
                    k
                } else {
                    Vec::new()
                }
            } else {
                cs
            }
        },
        None => cs,
    }
}

/// Whether line `a` comes before line `b` in ascending stable order: by text
/// order of the keys, or by the given numeric order keys when sorting
/// numerically, and by position between equal keys.
pub open spec fn key_before(lines: Seq<Seq<char>>, opts: Options, numbers: Seq<u64>, a: int, b: int) -> bool {
    let lt_ab = if opts.numeric {
        numbers[a] < numbers[b]
    } else {
        text_lt(sort_key(lines[a], opts), sort_key(lines[b], opts))
    };
    let lt_ba = if opts.numeric {
        numbers[b] < numbers[a]
    } else {
        text_lt(sort_key(lines[b], opts), sort_key(lines[a], opts))
    };
    lt_ab || (!lt_ba && a < b)
}

/// Whether line `a` is output before line `b`: the ascending stable order,
/// turned around as a whole when `reverse` (so equal keys then come out in
/// reverse input order).
pub open spec fn line_before(lines: Seq<Seq<char>>, opts: Options, numbers: Seq<u64>, a: int, b: int) -> bool {
    if opts.reverse {
        key_before(lines, opts, numbers, b, a)
    } else {
        key_before(lines, opts, numbers, a, b)
    }
}

/// `p` lists the positions of `lines` in sorted order.
pub open spec fn is_line_order(lines: Seq<Seq<char>>, opts: Options, numbers: Seq<u64>, p: Seq<usize>) -> bool {
    &&& p.len() == lines.len()
    &&& forall|i: int| 0 <= i < p.len() ==> #[trigger] p[i] < lines.len()
    &&& forall|x: int| 0 <= x < lines.len() ==> #[trigger] occurs_in(p, x)
    &&& forall|i: int, j: int|
        0 <= i < j < p.len() ==> line_before(lines, opts, numbers, #[trigger] p[i] as int, #[trigger] p[j] as int)
}

/// The lines at the positions `p`.
pub open spec fn arrange<'a>(lines: Seq<&'a str>, p: Seq<usize>) -> Seq<&'a str> {
    p.map_values(|i: usize| lines[i as int])
}

/// The sorted lines, without repeats of the line before when `unique`.
pub open spec fn finish_sorted<'a>(sorted: Seq<&'a str>, unique: bool) -> Seq<&'a str> {
    if unique {
        select_kept(sorted, views(sorted), true)
    } else {
        sorted
    }
}

/// Sort `lines` according to `opts`, returning a new vector.
///
/// Sorting is stable: equal keys keep their relative input order, and
/// `reverse` then turns the whole order around. `unique` removes adjacent equal *lines* after the
/// sort (uniqueness is on the whole line). When `opts.numeric` is set,
/// `numbers` holds, for each line, an integer that orders the line's numeric
/// value (see [`numeric_prefix`]); otherwise `numbers` is not read.
pub fn sort<'a>(lines: &[&'a str], opts: &Options, numbers: &[u64]) -> (out: Vec<&'a str>)
    requires
        opts.numeric ==> numbers@.len() == lines@.len(),
    ensures
        exists|p: Seq<usize>|
            is_line_order(views(lines@), *opts, numbers@, p) && out@ == finish_sorted(
                arrange(lines@, p),
                opts.unique,
            ),
{
    let ghost lv = views(lines@);
    let mut keys: Vec<u64> = Vec::new();
    if opts.numeric {
        let mut i: usize = 0;
        while i < numbers.len()
            invariant
                i <= numbers@.len(),
                keys@ == numbers@.take(i as int),
            decreases numbers@.len() - i,
        {
            keys.push(numbers[i]);
            assert(numbers@.take(i + 1) =~= numbers@.take(i as int).push(numbers@[i as int]));
            i = i + 1;
        }
        assert(numbers@.take(numbers@.len() as int) =~= numbers@);
    } else {
        let mut texts: Vec<Vec<char>> = Vec::new();
        let mut i: usize = 0;
        while i < lines.len()
            invariant
                i <= lines@.len(),
                lv == views(lines@),
                texts@.len() == i,
                forall|m: int| 0 <= m < i ==> (#[trigger] texts@[m])@ == sort_key(lv[m], *opts),
            decreases lines@.len() - i,
        {
            let k = key_for(lines[i], opts);
            texts.push(k);
            i = i + 1;
        }
        keys = text_ranks(&texts);
        proof {
            assert forall|a: int, b: int| 0 <= a < lines@.len() && 0 <= b < lines@.len() implies
                (keys@[a] < keys@[b] <==> text_lt(sort_key(lv[a], *opts), sort_key(lv[b], *opts))) && 
                (keys@[a] == keys@[b] <==> sort_key(lv[a], *opts) == sort_key(lv[b], *opts)) by {
                assert(texts@[a]@ == sort_key(lv[a], *opts));
                assert(texts@[b]@ == sort_key(lv[b], *opts));
            }
        }
    }
    let asc = stable_order(&keys, false);
    proof {
        assert forall|a: int, b: int| 0 <= a < lines@.len() && 0 <= b < lines@.len() && a != b implies
            (comes_before(keys@, false, a, b) <==> key_before(lv, *opts, numbers@, a, b)) by {
            if !opts.numeric {
                lemma_text_lt_total(sort_key(lv[a], *opts), sort_key(lv[b], *opts));
                assert(keys@[a] < keys@[b] <==> text_lt(sort_key(lv[a], *opts), sort_key(lv[b], *opts)));
                assert(keys@[b] < keys@[a] <==> text_lt(sort_key(lv[b], *opts), sort_key(lv[a], *opts)));
            }
        }
        assert forall|i: int, j: int| 0 <= i < j < asc@.len() implies
            key_before(lv, *opts, numbers@, #[trigger] asc@[i] as int, #[trigger] asc@[j] as int) by {
            assert(comes_before(keys@, false, asc@[i] as int, asc@[j] as int));
            if asc@[i] == asc@[j] {
                assert(!comes_before(keys@, false, asc@[i] as int, asc@[j] as int));
            }
        }
    }
    let n = asc.len();
    let p: Vec<usize> = if opts.reverse {
        let mut r: Vec<usize> = Vec::new();
        let mut k: usize = 0;
        while k < n
            invariant
                n == asc@.len(),
                k <= n,
                r@.len() == k,
                forall|m: int| 0 <= m < k ==> #[trigger] r@[m] == asc@[n - 1 - m],
            decreases n - k,
        {
            r.push(asc[n - 1 - k]);
            k = k + 1;
        }
        proof {
            assert forall|x: int| 0 <= x < lines@.len() implies #[trigger] occurs_in(r@, x) by {
                assert(occurs_in(asc@, x));
                let m = choose|m: int| 0 <= m < asc@.len() && asc@[m] == x;
                assert(r@[n - 1 - m] == asc@[m]);
            }
            assert forall|i: int, j: int| 0 <= i < j < r@.len() implies
                line_before(lv, *opts, numbers@, #[trigger] r@[i] as int, #[trigger] r@[j] as int) by {
                assert(r@[i] == asc@[n - 1 - i] && r@[j] == asc@[n - 1 - j]);
                assert(key_before(lv, *opts, numbers@, asc@[n - 1 - j] as int, asc@[n - 1 - i] as int));
            }
            assert forall|i: int| 0 <= i < r@.len() implies #[trigger] r@[i] < lines@.len() by {
                assert(r@[i] == asc@[n - 1 - i]);
            }
        }
        r
    } else {
        asc
    };
    proof {
        assert(is_line_order(lv, *opts, numbers@, p@));
    }
    let mut sorted: Vec<&'a str> = Vec::new();
    let mut i: usize = 0;
    while i < p.len()
        invariant
            i <= p@.len(),
            p@.len() == lines@.len(),
            forall|m: int| 0 <= m < p@.len() ==> #[trigger] p@[m] < lines@.len(),
            sorted@ == arrange(lines@, p@.take(i as int)),
        decreases p@.len() - i,
    {
        sorted.push(lines[p[i]]);
        assert(arrange(lines@, p@.take(i + 1)) =~= arrange(lines@, p@.take(i as int)).push(lines@[p@[i as int] as int]));
        i = i + 1;
    }
    assert(p@.take(p@.len() as int) =~= p@);
    if opts.unique {
        let out = dedup::dedup(sorted.as_slice(), dedup::Options { adjacent: true, ignore_case: false });
        proof {
            let sv = views(sorted@);
            assert(dedup::line_keys(sv, false) =~= sv);
        }
        out
    } else {
        sorted
    }
}

/// The one character of a delimiter argument: `Some(c)` when `s` is exactly
/// one character `c`, `None` otherwise.
pub fn single_char(s: &str) -> (r: Option<char>)
    ensures
        r == (if s@.len() == 1 { Some(s@[0]) } else { None::<char> }),
{
    let cs = chars_of(s);
    if cs.len() == 1 {
        Some(cs[0])
    } else {
        None
    }
}

/// The number of leading whitespace characters of `s`.
pub open spec fn leading_space_len(s: Seq<char>) -> nat
    decreases s.len(),
{
    if s.len() > 0 && is_white_space(s[0]) {
        1 + leading_space_len(s.drop_first())
    } else {
        0
    }
}

/// Whether character `i` of `t` may extend the number scanned so far, and the
/// scanner's new state (a `.` seen, an exponent seen): digits always; a sign
/// first or right after the exponent mark; one `.` before any exponent; one
/// `e`/`E` after the first character.
pub open spec fn number_step(t: Seq<char>, i: int, seen_dot: bool, seen_e: bool) -> Option<(bool, bool)> {
    let c = t[i];
    if '0' <= c && c <= '9' {
        Some((seen_dot, seen_e))
    } else if c == '+' || c == '-' {
        if i == 0 || (seen_e && (t[i - 1] == 'e' || t[i - 1] == 'E')) {
            Some((seen_dot, seen_e))
        } else {
            None
        }
    } else if c == '.' && !seen_dot && !seen_e {
        Some((true, seen_e))
    } else if (c == 'e' || c == 'E') && !seen_e && i > 0 {
        Some((seen_dot, true))
    } else {
        None
    }
}

/// Where the scan of a number that reached position `i` of `t` stops.
pub open spec fn number_end(t: Seq<char>, i: int, seen_dot: bool, seen_e: bool) -> int
    decreases t.len() - i,
{
    if i < 0 || i >= t.len() {
        i
    } else {
        match number_step(t, i, seen_dot, seen_e) {
            Some((d, e)) => number_end(t, i + 1, d, e),
            None => i,
        }
    }
}

/// `p` without an exponent that no digit follows: a trailing `e`/`E`, or a
/// trailing `e`/`E` and the sign after it, is dropped (such a text is not
/// a number, but the text before the exponent mark is).
pub open spec fn drop_open_exponent(p: Seq<char>) -> Seq<char> {
    if p.len() >= 1 && (p.last() == 'e' || p.last() == 'E') {
        p.drop_last()
    } else if p.len() >= 2 && (p.last() == '+' || p.last() == '-') && (p[p.len() - 2] == 'e' || p[p.len()
        - 2] == 'E') {
        p.take(p.len() - 2)
    } else {
        p
    }
}

/// The text that numeric sorting reads as a number from a key: after leading
/// whitespace, the longest run of characters that can belong to a decimal
/// number (digits, signs, one dot, one exponent), without an exponent mark
/// that no digit follows.
pub open spec fn spec_numeric_prefix(key: Seq<char>) -> Seq<char> {
    let t = key.skip(leading_space_len(key) as int);
    drop_open_exponent(t.take(number_end(t, 0, false, false)))
}

proof fn lemma_leading_space_skip(s: Seq<char>, k: int)
    requires
        0 <= k <= s.len(),
        forall|m: int| 0 <= m < k ==> is_white_space(#[trigger] s[m]),
        k == s.len() || !is_white_space(s[k]),
    ensures
        leading_space_len(s) == k,
    decreases k,
{
    if k > 0 {
        assert forall|m: int| 0 <= m < k - 1 implies is_white_space(#[trigger] s.drop_first()[m]) by {
            assert(s.drop_first()[m] == s[m + 1]);
        }
        if k < s.len() {
            assert(s.drop_first()[k - 1] == s[k]);
        }
        lemma_leading_space_skip(s.drop_first(), k - 1);
    }
}

/// The leading numeric text of `key` that numeric sorting parses as a number:
/// leading whitespace is skipped, then the longest run of characters that can
/// belong to a decimal number (digits; a sign at the start or right after the
/// exponent mark; one `.` before any exponent; one `e`/`E` after the first
/// character), without an exponent mark that no digit follows. Numeric
/// sorting parses it as an `f64`, reading 0 where it does not parse.
pub fn numeric_prefix(key: &str) -> (p: String)
    ensures
        p@ == spec_numeric_prefix(key@),
{
    let cs = chars_of(key);
    let mut k: usize = 0;
    while k < cs.len() && is_whitespace(cs[k])
        invariant
            k <= cs@.len(),
            forall|m: int| 0 <= m < k ==> is_white_space(#[trigger] cs@[m]),
        decreases cs@.len() - k,
    {
        k = k + 1;
    }
    proof {
        lemma_leading_space_skip(cs@, k as int);
    }
    let ghost t = cs@.skip(k as int);
    let mut digits: Vec<char> = Vec::new();
    let mut seen_dot = false;
    let mut seen_e = false;
    let mut i: usize = 0;
    let mut done = false;
    while !done && i < cs.len() - k
        invariant
            k <= cs@.len(),
            t == cs@.skip(k as int),
            k + i <= cs@.len(),
            digits@ == t.take(i as int),
            done ==> number_end(t, 0, false, false) == i,
            !done ==> number_end(t, 0, false, false) == number_end(t, i as int, seen_dot, seen_e),
        decreases cs@.len() - k - i + if done { 0int } else { 1int },
    {
        let c = cs[k + i];
        let ghost sd0 = seen_dot;
        let ghost se0 = seen_e;
        assert(t[i as int] == c);
        if i > 0 {
            assert(t[i - 1] == cs@[k + i - 1]);
        }
        let ok = if '0' <= c && c <= '9' {
            true
        } else if c == '+' || c == '-' {
            i == 0 || (seen_e && (cs[k + i - 1] == 'e' || cs[k + i - 1] == 'E'))
        } else if c == '.' && !seen_dot && !seen_e {
            seen_dot = true;
            true
        } else if (c == 'e' || c == 'E') && !seen_e && i > 0 {
            seen_e = true;
            true
        } else {
            false
        };
        assert(number_step(t, i as int, sd0, se0) == if ok { Some((seen_dot, seen_e)) } else { None::<(bool, bool)> });
        if ok {
            digits.push(c);
            assert(t.take(i + 1) =~= t.take(i as int).push(c));
            i = i + 1;
        } else {
            done = true;
        }
    }
    assert(digits@ == t.take(number_end(t, 0, false, false)));
    let ghost scanned = digits@;
    let n = digits.len();
    if n >= 1 && (digits[n - 1] == 'e' || digits[n - 1] == 'E') {
        digits.pop();
    } else if n >= 2 && (digits[n - 1] == '+' || digits[n - 1] == '-') && (digits[n - 2] == 'e'
        || digits[n - 2] == 'E') {
        digits.pop();
        digits.pop();
        assert(digits@ =~= scanned.take(n - 2));
    }
    assert(digits@ == drop_open_exponent(scanned));
    string_of(&digits)
}


// ---------------------------------------------------------------------------
// The numeral read from a key
// ---------------------------------------------------------------------------

/// A decimal digit.
pub open spec fn is_digit(c: char) -> bool {
    '0' <= c && c <= '9'
}

/// A sign character.
pub open spec fn is_sign(c: char) -> bool {
    c == '+' || c == '-'
}

/// An exponent mark.
pub open spec fn is_exp_mark(c: char) -> bool {
    c == 'e' || c == 'E'
}

/// The length of the sign that `p` starts with: 1 or 0.
pub open spec fn sign_len(p: Seq<char>) -> int {
    if p.len() > 0 && is_sign(p[0]) { 1 } else { 0 }
}

/// `p` from position `k` on is an exponent: an exponent mark after at least
/// one character, an optional sign, and one or more digits to the end.
pub open spec fn exponent_at(p: Seq<char>, k: int) -> bool {
    let d = if k + 1 < p.len() && is_sign(p[k + 1]) { k + 2 } else { k + 1 };
    &&& 0 < k < p.len()
    &&& is_exp_mark(p[k])
    &&& d < p.len()
    &&& forall|x: int| d <= x < p.len() ==> is_digit(#[trigger] p[x])
}

/// `p` is a numeral whose mantissa ends at `k`: an optional sign, then
/// digits with at most one `.` up to `k`, then nothing or an exponent.
pub open spec fn numeral_split(p: Seq<char>, k: int) -> bool {
    let s = sign_len(p);
    &&& s <= k <= p.len()
    &&& forall|x: int| s <= x < k ==> is_digit(#[trigger] p[x]) || p[x] == '.'
    &&& forall|x: int, y: int| s <= x < y < k ==> !(#[trigger] p[x] == '.' && #[trigger] p[y] == '.')
    &&& (k == p.len() || exponent_at(p, k))
}

/// `p` is a numeral: sign? (digits with at most one '.') ([eE] sign? digits+)?,
/// where the exponent does not start the text.
pub open spec fn is_numeral(p: Seq<char>) -> bool {
    exists|k: int| #[trigger] numeral_split(p, k)
}

spec fn mant_end(t: Seq<char>, i: int, seen_dot: bool) -> int
    decreases t.len() - i,
{
    if i < 0 || i >= t.len() {
        i
    } else if is_digit(t[i]) {
        mant_end(t, i + 1, seen_dot)
    } else if t[i] == '.' && !seen_dot {
        mant_end(t, i + 1, true)
    } else {
        i
    }
}

spec fn digit_end(t: Seq<char>, i: int) -> int
    decreases t.len() - i,
{
    if i < 0 || i >= t.len() {
        i
    } else if is_digit(t[i]) {
        digit_end(t, i + 1)
    } else {
        i
    }
}

spec fn exp_digits_start(t: Seq<char>, m: int) -> int {
    if m + 1 < t.len() && is_sign(t[m + 1]) { m + 2 } else { m + 1 }
}

spec fn has_exp(t: Seq<char>, m: int) -> bool {
    0 < m < t.len() && is_exp_mark(t[m])
}

proof fn lemma_mant_end(t: Seq<char>, i: int, sd: bool)
    requires
        0 <= i <= t.len(),
    ensures
        i <= mant_end(t, i, sd) <= t.len(),
        forall|x: int| i <= x < mant_end(t, i, sd) ==> is_digit(#[trigger] t[x]) || t[x] == '.',
        forall|x: int, y: int|
            i <= x < y < mant_end(t, i, sd) ==> !(#[trigger] t[x] == '.' && #[trigger] t[y] == '.'),
        sd ==> forall|x: int| i <= x < mant_end(t, i, sd) ==> #[trigger] t[x] != '.',
        mant_end(t, i, sd) < t.len() ==> !is_digit(t[mant_end(t, i, sd)]) && (t[mant_end(t, i, sd)] == '.'
            ==> sd || exists|x: int| i <= x < mant_end(t, i, sd) && #[trigger] t[x] == '.'),
    decreases t.len() - i,
{
    if i < t.len() {
        if is_digit(t[i]) {
            lemma_mant_end(t, i + 1, sd);
            let m = mant_end(t, i, sd);
            if m < t.len() && t[m] == '.' && !sd {
                let x = choose|x: int| i + 1 <= x < m && #[trigger] t[x] == '.';
                assert(i <= x < m && t[x] == '.');
            }
        } else if t[i] == '.' && !sd {
            lemma_mant_end(t, i + 1, true);
            let m = mant_end(t, i, sd);
            if m < t.len() && t[m] == '.' {
                assert(i <= i < m && t[i] == '.');
            }
        }
    }
}

proof fn lemma_digit_end(t: Seq<char>, i: int)
    requires
        0 <= i <= t.len(),
    ensures
        i <= digit_end(t, i) <= t.len(),
        forall|x: int| i <= x < digit_end(t, i) ==> is_digit(#[trigger] t[x]),
        digit_end(t, i) < t.len() ==> !is_digit(t[digit_end(t, i)]),
    decreases t.len() - i,
{
    if i < t.len() && is_digit(t[i]) {
        lemma_digit_end(t, i + 1);
    }
}

proof fn lemma_scan_exp_digits(t: Seq<char>, i: int, sd: bool)
    requires
        1 <= i <= t.len(),
        !is_exp_mark(t[i - 1]),
    ensures
        number_end(t, i, sd, true) == digit_end(t, i),
    decreases t.len() - i,
{
    if i < t.len() && is_digit(t[i]) {
        lemma_scan_exp_digits(t, i + 1, sd);
    }
}

proof fn lemma_scan_exponent(t: Seq<char>, m: int, sd: bool)
    requires
        has_exp(t, m),
    ensures
        number_end(t, m + 1, sd, true) == digit_end(t, exp_digits_start(t, m)),
{
    let j = m + 1;
    if j < t.len() {
        if is_sign(t[j]) {
            lemma_scan_exp_digits(t, j + 1, sd);
        } else if is_digit(t[j]) {
            lemma_scan_exp_digits(t, j + 1, sd);
        }
    }
}

proof fn lemma_scan_mantissa(t: Seq<char>, i: int, sd: bool)
    requires
        0 <= i <= t.len(),
        i == 0 ==> t.len() == 0 || !is_sign(t[0]),
    ensures
        number_end(t, i, sd, false) == (if has_exp(t, mant_end(t, i, sd)) {
            digit_end(t, exp_digits_start(t, mant_end(t, i, sd)))
        } else {
            mant_end(t, i, sd)
        }),
    decreases t.len() - i,
{
    if i < t.len() {
        let c = t[i];
        if is_digit(c) {
            lemma_scan_mantissa(t, i + 1, sd);
        } else if c == '.' && !sd {
            lemma_scan_mantissa(t, i + 1, true);
        } else if is_exp_mark(c) && i > 0 {
            lemma_scan_exponent(t, i, sd);
        }
    }
}

/// The length of the numeral that a key (without leading whitespace) starts
/// with, computed piece by piece: sign, mantissa, exponent with its digits.
spec fn numeral_len(t: Seq<char>) -> int {
    let m = mant_end(t, sign_len(t), false);
    if has_exp(t, m) && digit_end(t, exp_digits_start(t, m)) > exp_digits_start(t, m) {
        digit_end(t, exp_digits_start(t, m))
    } else {
        m
    }
}

proof fn lemma_prefix_is_numeral_len(t: Seq<char>)
    ensures
        drop_open_exponent(t.take(number_end(t, 0, false, false))) == t.take(numeral_len(t)),
{
    let s = sign_len(t);
    lemma_mant_end(t, s, false);
    let m = mant_end(t, s, false);
    if s == 1 {
        lemma_scan_mantissa(t, 1, false);
    } else {
        lemma_scan_mantissa(t, 0, false);
    }
    assert(number_end(t, 0, false, false) == (if has_exp(t, m) {
        digit_end(t, exp_digits_start(t, m))
    } else {
        m
    }));
    if has_exp(t, m) {
        let j2 = exp_digits_start(t, m);
        lemma_digit_end(t, j2);
        let q = digit_end(t, j2);
        let p = t.take(q);
        if q == j2 {
            if j2 == m + 1 {
                assert(p.last() == t[m]);
                assert(p.drop_last() =~= t.take(m));
            } else {
                assert(p.last() == t[m + 1]);
                assert(p[p.len() - 2] == t[m]);
                assert(!is_exp_mark(t[m + 1]));
                assert(p.take(p.len() - 2) =~= t.take(m));
            }
        } else {
            assert(p.last() == t[q - 1]);
        }
    } else {
        let p = t.take(m);
        if m > s {
            assert(p.last() == t[m - 1]);
        } else if m > 0 {
            assert(p.len() == 1 && p.last() == t[0]);
        }
    }
}

/// The numeral read from a key is the longest numeral that the key starts
/// with once its leading whitespace is skipped: it is a prefix of that text,
/// it is a numeral (sign? (digits with at most one '.') ([eE] sign?
/// digits+)?), and no longer prefix is one. So an exponent with digits is
/// always read ("1.5e3" is read whole), and a mark with no digits after it
/// never is ("5e" is read as "5").
pub proof fn law_numeric_prefix_longest(key: Seq<char>)
    ensures
        ({
            let t = key.skip(leading_space_len(key) as int);
            let p = spec_numeric_prefix(key);
            &&& p.len() <= t.len()
            &&& p == t.take(p.len() as int)
            &&& is_numeral(p)
            &&& forall|n: int| 0 <= n <= t.len() && is_numeral(#[trigger] t.take(n)) ==> n <= p.len()
        }),
{
    let t = key.skip(leading_space_len(key) as int);
    lemma_prefix_is_numeral_len(t);
    let s = sign_len(t);
    lemma_mant_end(t, s, false);
    let m = mant_end(t, s, false);
    let j2 = exp_digits_start(t, m);
    let r = numeral_len(t);
    if has_exp(t, m) {
        lemma_digit_end(t, j2);
    }
    assert(m <= r <= t.len());
    let p = t.take(r);
    assert(spec_numeric_prefix(key) == p);
    // the prefix is a numeral, with its mantissa ending at m
    assert(numeral_split(p, m)) by {
        if r > 0 {
            assert(p[0] == t[0]);
        }
        assert(sign_len(p) == s);
        assert forall|x: int| s <= x < m implies is_digit(#[trigger] p[x]) || p[x] == '.' by {
            assert(p[x] == t[x]);
        }
        assert forall|x: int, y: int| s <= x < y < m implies !(#[trigger] p[x] == '.' && #[trigger] p[y] == '.') by {
            assert(p[x] == t[x] && p[y] == t[y]);
        }
        if r != m {
            assert(has_exp(t, m));
            assert(p[m] == t[m]);
            if m + 1 < r {
                assert(p[m + 1] == t[m + 1]);
            }
            assert forall|x: int| j2 <= x < p.len() implies is_digit(#[trigger] p[x]) by {
                assert(p[x] == t[x]);
            }
            assert(exponent_at(p, m));
        }
    }
    assert(is_numeral(p));
    // no longer prefix is a numeral
    assert forall|n: int| 0 <= n <= t.len() && is_numeral(#[trigger] t.take(n)) implies n <= r by {
        let q = t.take(n);
        let k = choose|k: int| #[trigger] numeral_split(q, k);
        if n > 0 {
            assert(q[0] == t[0]);
            assert(sign_len(q) == s);
            if k > m {
                assert(q[m] == t[m]);
                assert(is_digit(q[m]) || q[m] == '.');
                let x = choose|x: int| s <= x < m && #[trigger] t[x] == '.';
                assert(q[x] == t[x]);
                assert(!(q[x] == '.' && q[m] == '.'));
            }
            if k < n {
                assert(exponent_at(q, k));
                assert(q[k] == t[k]);
                if k < m {
                    assert(is_digit(t[k]) || t[k] == '.');
                }
                assert(k == m);
                assert(has_exp(t, m));
                if k + 1 < n {
                    assert(q[k + 1] == t[k + 1]);
                }
                let d = if k + 1 < q.len() && is_sign(q[k + 1]) { k + 2 } else { k + 1 };
                assert(d == j2);
                lemma_digit_end(t, j2);
                let e = digit_end(t, j2);
                if e < n {
                    assert(q[e] == t[e]);
                    assert(is_digit(q[e]));
                }
            }
        }
    }
}

// ---------------------------------------------------------------------------
// Integer keys for sign-magnitude numbers
// ---------------------------------------------------------------------------

/// The value that 64 sign-magnitude bits stand for: the low 63 bits as a
/// magnitude, negated when the top bit is set (both zeros being 0). This is
/// how the bits of an `f64` order its values.
pub open spec fn signed_magnitude(bits: u64) -> int {
    let m = (bits & 0x7fff_ffff_ffff_ffffu64) as int;
    if bits >> 63u64 == 1 {
        -m
    } else {
        m
    }
}

/// The unsigned key of sign-magnitude bits: zero magnitudes go to the middle
/// of the range, positive values above it and negative values below it.
pub open spec fn spec_order_key(bits: u64) -> u64 {
    if bits & 0x7fff_ffff_ffff_ffffu64 == 0 {
        0x8000_0000_0000_0000u64
    } else if bits >> 63u64 == 1 {
        !bits
    } else {
        bits | 0x8000_0000_0000_0000u64
    }
}

/// An unsigned integer that orders sign-magnitude bits (such as those of an
/// `f64`) by the value they stand for; see [`law_order_key`].
pub fn order_key(bits: u64) -> (k: u64)
    ensures
        k == spec_order_key(bits),
{
    if bits & 0x7fff_ffff_ffff_ffffu64 == 0 {
        0x8000_0000_0000_0000u64
    } else if bits >> 63u64 == 1 {
        !bits
    } else {
        bits | 0x8000_0000_0000_0000u64
    }
}

proof fn lemma_sign_magnitude_parts(x: u64)
    ensures
        x >> 63u64 == 0 || x >> 63u64 == 1,
        x >> 63u64 == 0 ==> (x | 0x8000_0000_0000_0000u64) == x + 0x8000_0000_0000_0000u64 && (x
            & 0x7fff_ffff_ffff_ffffu64) == x,
        x >> 63u64 == 1 ==> !x == 0xffff_ffff_ffff_ffffu64 - x && (x & 0x7fff_ffff_ffff_ffffu64) == x
            - 0x8000_0000_0000_0000u64,
{
    assert(x >> 63u64 == 0 || x >> 63u64 == 1) by (bit_vector);
    assert(x >> 63u64 == 0 ==> (x | 0x8000_0000_0000_0000u64) == x + 0x8000_0000_0000_0000u64) by (bit_vector);
    assert(x >> 63u64 == 0 ==> (x & 0x7fff_ffff_ffff_ffffu64) == x) by (bit_vector);
    assert(x >> 63u64 == 1 ==> !x == 0xffff_ffff_ffff_ffffu64 - x) by (bit_vector);
    assert(x >> 63u64 == 1 ==> (x & 0x7fff_ffff_ffff_ffffu64) == x - 0x8000_0000_0000_0000u64) by (bit_vector);
}

/// The keys order the bits exactly as the values they stand for: one key is
/// below another exactly when its value is, and keys are equal exactly when
/// the values are (so both zeros share a key).
pub proof fn law_order_key(a: u64, b: u64)
    ensures
        signed_magnitude(a) < signed_magnitude(b) <==> spec_order_key(a) < spec_order_key(b),
        signed_magnitude(a) == signed_magnitude(b) <==> spec_order_key(a) == spec_order_key(b),
{
    lemma_sign_magnitude_parts(a);
    lemma_sign_magnitude_parts(b);
}

// ---------------------------------------------------------------------------
// The sorted order is determined by the lines
// ---------------------------------------------------------------------------

proof fn lemma_line_before_strict(lines: Seq<Seq<char>>, opts: Options, numbers: Seq<u64>, a: int, b: int)
    ensures
        !line_before(lines, opts, numbers, a, a),
        line_before(lines, opts, numbers, a, b) ==> !line_before(lines, opts, numbers, b, a),
{
    let ka = sort_key(lines[a], opts);
    let kb = sort_key(lines[b], opts);
    lemma_text_lt_irreflexive(ka);
    if text_lt(ka, kb) {
        lemma_text_lt_asymmetric(ka, kb);
    }
    if text_lt(kb, ka) {
        lemma_text_lt_asymmetric(kb, ka);
    }
}

/// At the first place where two orders of the lines differ, each line would
/// have to come before the other, so they do not differ there.
proof fn lemma_orders_agree_at(lines: Seq<Seq<char>>, opts: Options, numbers: Seq<u64>, p1: Seq<usize>, p2: Seq<usize>, k: int)
    requires
        is_line_order(lines, opts, numbers, p1),
        is_line_order(lines, opts, numbers, p2),
        0 <= k < p1.len(),
    ensures
        p1[k] == p2[k],
    decreases k,
{
    assert forall|i: int| 0 <= i < k implies #[trigger] p1[i] == p2[i] by {
        lemma_orders_agree_at(lines, opts, numbers, p1, p2, i);
    }
    let a = p1[k] as int;
    let b = p2[k] as int;
    if a != b {
        assert(occurs_in(p1, b));
        let m = choose|m: int| 0 <= m < p1.len() && p1[m] == b;
        assert(occurs_in(p2, a));
        let m2 = choose|m: int| 0 <= m < p2.len() && p2[m] == a;
        if m < k {
            assert(p2[m] == b);
            assert(line_before(lines, opts, numbers, p2[m] as int, p2[k] as int));
            lemma_line_before_strict(lines, opts, numbers, b, b);
        }
        if m2 < k {
            assert(p1[m2] == a);
            assert(line_before(lines, opts, numbers, p1[m2] as int, p1[k] as int));
            lemma_line_before_strict(lines, opts, numbers, a, a);
        }
        assert(m != k && m2 != k);
        assert(line_before(lines, opts, numbers, p1[k] as int, p1[m] as int));
        assert(line_before(lines, opts, numbers, p2[k] as int, p2[m2] as int));
        lemma_line_before_strict(lines, opts, numbers, a, b);
    }
}

/// Only one order of the lines obeys the sort rule (keys first, then the
/// input positions between equal keys), so [`sort`] has exactly one
/// possible output for given lines, options and numeric keys.
pub proof fn law_sort_order_unique(lines: Seq<Seq<char>>, opts: Options, numbers: Seq<u64>, p1: Seq<usize>, p2: Seq<usize>)
    requires
        is_line_order(lines, opts, numbers, p1),
        is_line_order(lines, opts, numbers, p2),
    ensures
        p1 == p2,
{
    assert forall|k: int| 0 <= k < p1.len() implies #[trigger] p1[k] == p2[k] by {
        lemma_orders_agree_at(lines, opts, numbers, p1, p2, k);
    }
    assert(p1 =~= p2);
}

/// With `unique`, no two neighbouring output lines are equal.
pub proof fn law_unique_has_no_repeats<'a>(sorted: Seq<&'a str>)
    ensures
        forall|i: int|
            0 < i < finish_sorted(sorted, true).len() ==> finish_sorted(sorted, true)[i - 1]@
                != (#[trigger] finish_sorted(sorted, true)[i])@,
{
    let v = views(sorted);
    let out = finish_sorted(sorted, true);
    assert(line_keys(v, false) =~= v);
    lemma_keys_of_kept(sorted, v, true, false);
    lemma_kept_keys(v, v.len() as int, true);
    assert(v.take(v.len() as int) =~= v);
    let ov = line_keys(views(out), false);
    assert forall|i: int| 0 < i < out.len() implies out[i - 1]@ != (#[trigger] out[i])@ by {
        assert(ov[i] == out[i]@ && ov[i - 1] == out[i - 1]@);
    }
}

} // verus!
