//! Word- and character-frequency counting.
use vstd::prelude::*;
use vstd::string::StringExecFns;
use crate::order::{lemma_insert_in_order, text_lt, find_key, strictly_sorted, key_views, stable_order, comes_before, occurs_in, lemma_text_lt_irreflexive, lemma_text_lt_asymmetric};
use crate::text::{
    chars_of, char_views, words_of, spec_words, is_whitespace, is_white_space, is_alphanumeric,
    is_alphanumeric_char, text_to_lowercase, lower_of_text, push_char, push_decimal, spec_decimal,
    string_of, copy_chars,
};

verus! {

/// Options for [`frequencies`].
#[derive(Debug, Clone, Copy, Default)]
pub struct Options {
    /// Count individual characters instead of words.
    pub chars: bool,
    /// Fold case before counting (so "The" and "the" combine).
    pub ignore_case: bool,
    /// Keep only the top N most frequent items. `None` = keep all.
    pub top: Option<usize>,
}

/// A single frequency entry: the item and its count.
#[derive(Debug, Clone, PartialEq, Eq)]
pub struct Entry {
    pub item: String,
    pub count: usize,
}

/// `w` without its leading characters that are not alphanumeric.
pub open spec fn drop_front_non_alnum(w: Seq<char>) -> Seq<char>
    decreases w.len(),
{
    if w.len() > 0 && !is_alphanumeric_char(w[0]) {
        drop_front_non_alnum(w.drop_first())
    } else {
        w
    }
}

/// `w` without its trailing characters that are not alphanumeric.
pub open spec fn drop_back_non_alnum(w: Seq<char>) -> Seq<char>
    decreases w.len(),
{
    if w.len() > 0 && !is_alphanumeric_char(w.last()) {
        drop_back_non_alnum(w.drop_last())
    } else {
        w
    }
}

/// `w` without the characters that are not alphanumeric at either end.
pub open spec fn trim_non_alnum(w: Seq<char>) -> Seq<char> {
    drop_back_non_alnum(drop_front_non_alnum(w))
}

/// An item as counted: lowercased when folding case.
pub open spec fn fold_case(t: Seq<char>, ignore_case: bool) -> Seq<char> {
    if ignore_case {
        lower_of_text(t)
    } else {
        t
    }
}

/// The word items of `words`: each word trimmed of non-alphanumeric ends,
/// empty results dropped, case folded when asked.
pub open spec fn word_items(words: Seq<Seq<char>>, ignore_case: bool) -> Seq<Seq<char>>
    decreases words.len(),
{
    if words.len() == 0 {
        Seq::empty()
    } else {
        let t = trim_non_alnum(words.last());
        word_items(words.drop_last(), ignore_case) + if t.len() > 0 {
            seq![fold_case(t, ignore_case)]
        } else {
            Seq::empty()
        }
    }
}

/// The character items of `s`: each non-whitespace character, case folded
/// when asked.
pub open spec fn char_items(s: Seq<char>, ignore_case: bool) -> Seq<Seq<char>>
    decreases s.len(),
{
    if s.len() == 0 {
        Seq::empty()
    } else {
        char_items(s.drop_last(), ignore_case) + if is_white_space(s.last()) {
            Seq::empty()
        } else {
            seq![fold_case(seq![s.last()], ignore_case)]
        }
    }
}

/// The items that [`frequencies`] counts in `text`.
pub open spec fn spec_items(text: Seq<char>, opts: Options) -> Seq<Seq<char>> {
    if opts.chars {
        char_items(text, opts.ignore_case)
    } else {
        word_items(spec_words(text), opts.ignore_case)
    }
}

/// The number of occurrences of `x` in `items`.
pub open spec fn occurrences(items: Seq<Seq<char>>, x: Seq<char>) -> nat
    decreases items.len(),
{
    if items.len() == 0 {
        0
    } else {
        occurrences(items.drop_last(), x) + if items.last() == x {
            1nat
        } else {
            0nat
        }
    }
}

/// Whether an entry with `count1` of `item1` is listed before one with
/// `count2` of `item2`: higher count first, then by text order.
pub open spec fn ranks_before(item1: Seq<char>, count1: nat, item2: Seq<char>, count2: nat) -> bool {
    count1 > count2 || (count1 == count2 && text_lt(item1, item2))
}

/// `entries` is the frequency table of `items`: each entry holds an item that
/// occurs and its number of occurrences; entries are strictly in rank order;
/// it holds at most `top` entries; and an item that occurs but is not listed
/// ranks after every listed entry, which only happens when `top` cut the
/// table short.
pub open spec fn is_frequency_table(items: Seq<Seq<char>>, top: Option<usize>, entries: Seq<Entry>) -> bool {
    &&& forall|i: int|
        0 <= i < entries.len() ==> (#[trigger] entries[i]).count == occurrences(items, entries[i].item@)
            && entries[i].count > 0
    &&& forall|i: int, j: int|
        0 <= i < j < entries.len() ==> ranks_before(
            (#[trigger] entries[i]).item@,
            entries[i].count as nat,
            (#[trigger] entries[j]).item@,
            entries[j].count as nat,
        )
    &&& (top matches Some(n) ==> entries.len() <= n)
    &&& forall|x: Seq<char>|
        #[trigger] items.contains(x) ==> (exists|i: int| 0 <= i < entries.len() && entries[i].item@ == x)
            || (top matches Some(n) && entries.len() == n && forall|i: int|
            0 <= i < entries.len() ==> ranks_before(
                (#[trigger] entries[i]).item@,
                entries[i].count as nat,
                x,
                occurrences(items, x),
            ))
}

fn trim_word(w: &Vec<char>) -> (t: Vec<char>)
    ensures
        t@ == trim_non_alnum(w@),
{
    let n = w.len();
    let mut a: usize = 0;
    assert(w@.skip(0) =~= w@);
    while a < n && !is_alphanumeric(w[a])
        invariant
            n == w@.len(),
            a <= n,
            drop_front_non_alnum(w@) == drop_front_non_alnum(w@.skip(a as int)),
        decreases n - a,
    {
        assert(w@.skip(a as int).drop_first() =~= w@.skip(a + 1));
        a = a + 1;
    }
    let ghost f = w@.skip(a as int);
    proof {
        if a < n {
            assert(f[0] == w@[a as int]);
        }
        assert(drop_front_non_alnum(f) == f);
    }
    let mut b: usize = n;
    assert(f.take((b - a) as int) =~= f);
    while b > a && !is_alphanumeric(w[b - 1])
        invariant
            n == w@.len(),
            a <= b <= n,
            f == w@.skip(a as int),
            drop_back_non_alnum(f) == drop_back_non_alnum(f.take((b - a) as int)),
        decreases b,
    {
        assert(f.take((b - a) as int).drop_last() =~= f.take((b - 1 - a) as int));
        assert(f.take((b - a) as int).last() == w@[b - 1]);
        b = b - 1;
    }
    proof {
        if b > a {
            assert(f.take((b - a) as int).last() == w@[b - 1]);
        }
    }
    let mut t: Vec<char> = Vec::new();
    let mut k: usize = a;
    while k < b
        invariant
            a <= k <= b <= n,
            n == w@.len(),
            f == w@.skip(a as int),
            t@ == f.take((k - a) as int),
        decreases b - k,
    {
        t.push(w[k]);
        assert(f.take((k + 1 - a) as int) =~= f.take((k - a) as int).push(w@[k as int]));
        k = k + 1;
    }
    t
}

fn fold(t: Vec<char>, ignore_case: bool) -> (r: Vec<char>)
    ensures
        r@ == fold_case(t@, ignore_case),
{
    if ignore_case {
        let s = string_of(&t);
        let l = text_to_lowercase(s.as_str());
        chars_of(l.as_str())
    } else {
        t
    }
}

fn items_of(text: &str, opts: Options) -> (items: Vec<Vec<char>>)
    ensures
        char_views(items@) == spec_items(text@, opts),
{
    let cs = chars_of(text);
    let mut items: Vec<Vec<char>> = Vec::new();
    if opts.chars {
        let mut i: usize = 0;
        while i < cs.len()
            invariant
                i <= cs@.len(),
                opts.chars,
                char_views(items@) == char_items(cs@.take(i as int), opts.ignore_case),
            decreases cs@.len() - i,
        {
            let c = cs[i];
            proof {
                assert(cs@.take(i + 1).drop_last() =~= cs@.take(i as int));
                assert(cs@.take(i + 1).last() == c);
            }
            let ghost before = char_views(items@);
            if !is_whitespace(c) {
                let mut single: Vec<char> = Vec::new();
                single.push(c);
                let item = fold(single, opts.ignore_case);
                items.push(item);
                proof {
                    assert(single@ =~= seq![c]);
                    assert(char_views(items@) =~= before + seq![item@]);
                }
            } else {
                assert(before + Seq::<Seq<char>>::empty() =~= before);
            }
            i = i + 1;
        }
        assert(cs@.take(cs@.len() as int) =~= cs@);
    } else {
        let ws = words_of(&cs);
        let ghost wv = char_views(ws@);
        let mut i: usize = 0;
        while i < ws.len()
            invariant
                i <= ws@.len(),
                !opts.chars,
                wv == char_views(ws@),
                wv == spec_words(cs@),
                char_views(items@) == word_items(wv.take(i as int), opts.ignore_case),
            decreases ws@.len() - i,
        {
            let t = trim_word(&ws[i]);
            proof {
                assert(wv.take(i + 1).drop_last() =~= wv.take(i as int));
                assert(wv.take(i + 1).last() == ws@[i as int]@);
            }
            let ghost before = char_views(items@);
            if t.len() > 0 {
                let item = fold(t, opts.ignore_case);
                items.push(item);
                proof {
                    assert(char_views(items@) =~= before + seq![item@]);
                }
            } else {
                assert(before + Seq::<Seq<char>>::empty() =~= before);
            }
            i = i + 1;
        }
        assert(wv.take(ws@.len() as int) =~= wv);
    }
    items
}

/// Compute frequencies over `text`.
///
/// Items are words (whitespace-separated runs, trimmed of non-alphanumeric
/// characters at both ends, empty ones dropped) or, with `opts.chars`, the
/// non-whitespace characters; with `opts.ignore_case` each is lowercased.
/// Ordering is deterministic: by descending count, ties broken by the item's
/// ascending text order. `opts.top` keeps only the first N entries.
pub fn frequencies(text: &str, opts: Options) -> (entries: Vec<Entry>)
    ensures
        is_frequency_table(spec_items(text@, opts), opts.top, entries@),
{
    let items = items_of(text, opts);
    let ghost iv = char_views(items@);
    // distinct items in text order, with their counts
    let mut distinct: Vec<Vec<char>> = Vec::new();
    let mut counts: Vec<usize> = Vec::new();
    let mut i: usize = 0;
    while i < items.len()
        invariant
            i <= items@.len(),
            iv == char_views(items@),
            strictly_sorted(key_views(distinct@)),
            counts@.len() == distinct@.len(),
            forall|k: int| 0 <= k < distinct@.len() ==> #[trigger] counts@[k] == occurrences(iv.take(i as int), distinct@[k]@),
            forall|k: int| 0 <= k < distinct@.len() ==> 0 < #[trigger] counts@[k] <= i,
            forall|x: Seq<char>| iv.take(i as int).contains(x) ==> #[trigger] key_views(distinct@).contains(x),
        decreases items@.len() - i,
    {
        let ghost dv = key_views(distinct@);
        let ghost cv = counts@;
        proof {
            assert(iv.take(i + 1).drop_last() =~= iv.take(i as int));
            assert(iv.take(i + 1).last() == items@[i as int]@);
        }
        let (found, pos) = find_key(&distinct, &items[i]);
        if found {
            let c = counts[pos];
            counts.set(pos, c + 1);
            proof {
                assert forall|k: int| 0 <= k < distinct@.len() implies #[trigger] counts@[k] == occurrences(iv.take(i + 1), distinct@[k]@) by {
                    if k != pos {
                        assert(distinct@[k]@ != distinct@[pos as int]@) by {
                            assert(dv[k] == distinct@[k]@ && dv[pos as int] == distinct@[pos as int]@);
                            lemma_text_lt_irreflexive(dv[k]);
                        }
                    }
                }
                assert forall|x: Seq<char>| iv.take(i + 1).contains(x) implies #[trigger] key_views(distinct@).contains(x) by {
                    if x == items@[i as int]@ {
                        assert(key_views(distinct@)[pos as int] == x);
                    } else {
                        let j = choose|j: int| 0 <= j < i + 1 && #[trigger] iv.take(i + 1)[j] == x;
                        assert(iv.take(i as int)[j] == x);
                        assert(iv.take(i as int).contains(x));
                    }
                }
            }
        } else {
            let ghost x0 = items@[i as int]@;
            proof {
                assert forall|j: int| 0 <= j < pos implies text_lt(#[trigger] dv[j], x0) by {
                    assert(dv[j] == distinct@[j]@);
                }
                assert forall|j: int| pos <= j < dv.len() implies text_lt(x0, #[trigger] dv[j]) by {
                    assert(dv[j] == distinct@[j]@);
                }
                lemma_insert_in_order(dv, pos as int, x0);
                assert(!iv.take(i as int).contains(x0));
                lemma_occurrences_absent(iv.take(i as int), x0);
            }
            let k = copy_chars(&items[i]);
            distinct.insert(pos, k);
            counts.insert(pos, 1);
            proof {
                let nv = key_views(distinct@);
                assert(nv =~= dv.insert(pos as int, x0));
                assert forall|m: int| 0 <= m < distinct@.len() implies #[trigger] counts@[m] == occurrences(iv.take(i + 1), distinct@[m]@) by {
                    if m < pos {
                        assert(distinct@[m]@ == dv[m] && counts@[m] == cv[m]);
                        assert(dv[m] != x0) by {
                            lemma_text_lt_irreflexive(x0);
                        }
                    } else if m > pos {
                        assert(distinct@[m]@ == dv[m - 1] && counts@[m] == cv[m - 1]);
                        assert(dv[m - 1] != x0) by {
                            lemma_text_lt_irreflexive(x0);
                        }
                    }
                }
                assert forall|m: int| 0 <= m < distinct@.len() implies 0 < #[trigger] counts@[m] <= i + 1 by {
                    if m < pos {
                        assert(counts@[m] == cv[m]);
                    } else if m > pos {
                        assert(counts@[m] == cv[m - 1]);
                    }
                }
                assert forall|x: Seq<char>| iv.take(i + 1).contains(x) implies #[trigger] nv.contains(x) by {
                    if x != x0 {
                        let j = choose|j: int| 0 <= j < i + 1 && #[trigger] iv.take(i + 1)[j] == x;
                        assert(iv.take(i as int)[j] == x);
                        assert(iv.take(i as int).contains(x));
                        assert(dv.contains(x));
                    }
                    assert(dv.insert(pos as int, x0).contains(x));
                }
            }
        }
        i = i + 1;
    }
    proof {
        assert(iv.take(items@.len() as int) =~= iv);
    }
    // order the distinct items by descending count; equal counts keep text order
    let mut keys: Vec<u64> = Vec::new();
    let mut j: usize = 0;
    while j < counts.len()
        invariant
            j <= counts@.len(),
            keys@.len() == j,
            forall|m: int| 0 <= m < j ==> #[trigger] keys@[m] == counts@[m] as u64,
        decreases counts@.len() - j,
    {
        keys.push(counts[j] as u64);
        j = j + 1;
    }
    let p = stable_order(&keys, true);
    let limit = match opts.top {
        Some(n) => if n < p.len() { n } else { p.len() },
        None => p.len(),
    };
    let mut entries: Vec<Entry> = Vec::new();
    let mut q: usize = 0;
    while q < limit
        invariant
            q <= limit <= p@.len(),
            p@.len() == distinct@.len(),
            counts@.len() == distinct@.len(),
            keys@.len() == distinct@.len(),
            forall|m: int| 0 <= m < p@.len() ==> #[trigger] p@[m] < distinct@.len(),
            entries@.len() == q,
            forall|m: int| 0 <= m < q ==> (#[trigger] entries@[m]).item@ == distinct@[p@[m] as int]@
                && entries@[m].count == counts@[p@[m] as int],
        decreases limit - q,
    {
        let idx = p[q];
        let e = Entry { item: string_of(&distinct[idx]), count: counts[idx] };
        entries.push(e);
        q = q + 1;
    }
    proof {
        let dv = key_views(distinct@);
        assert forall|a: int, b: int| 0 <= a < b < entries@.len() implies ranks_before(
            (#[trigger] entries@[a]).item@,
            entries@[a].count as nat,
            (#[trigger] entries@[b]).item@,
            entries@[b].count as nat,
        ) by {
            let pa = p@[a] as int;
            let pb = p@[b] as int;
            assert(comes_before(keys@, true, pa, pb));
            assert(keys@[pa] == counts@[pa] as u64 && keys@[pb] == counts@[pb] as u64);
            if counts@[pa] == counts@[pb] {
                assert(dv[pa] == distinct@[pa]@ && dv[pb] == distinct@[pb]@);
            }
        }
        assert forall|x: Seq<char>| #[trigger] iv.contains(x) implies (exists|i: int| 0 <= i < entries@.len() && entries@[i].item@ == x)
            || (opts.top matches Some(n) && entries@.len() == n && forall|i: int|
            0 <= i < entries@.len() ==> ranks_before(
                (#[trigger] entries@[i]).item@,
                entries@[i].count as nat,
                x,
                occurrences(iv, x),
            )) by {
            assert(dv.contains(x));
            let m = choose|m: int| 0 <= m < dv.len() && dv[m] == x;
            assert(occurs_in(p@, m));
            let r = choose|r: int| 0 <= r < p@.len() && p@[r] == m;
            if r < entries@.len() {
                assert(entries@[r].item@ == x);
            } else {
                assert forall|i: int| 0 <= i < entries@.len() implies ranks_before(
                    (#[trigger] entries@[i]).item@,
                    entries@[i].count as nat,
                    x,
                    occurrences(iv, x),
                ) by {
                    let pi = p@[i] as int;
                    assert(comes_before(keys@, true, pi, m));
                    assert(keys@[pi] == counts@[pi] as u64 && keys@[m] == counts@[m] as u64);
                    assert(counts@[m] == occurrences(iv, x));
                    if counts@[pi] == counts@[m] {
                        assert(dv[pi] == distinct@[pi]@);
                    }
                }
            }
        }
    }
    entries
}

proof fn lemma_occurrences_absent(items: Seq<Seq<char>>, x: Seq<char>)
    requires
        !items.contains(x),
    ensures
        occurrences(items, x) == 0,
    decreases items.len(),
{
    if items.len() > 0 {
        assert(!items.drop_last().contains(x)) by {
            if items.drop_last().contains(x) {
                let j = choose|j: int| 0 <= j < items.drop_last().len() && items.drop_last()[j] == x;
                assert(items[j] == x);
            }
        }
        assert(items.last() == items[items.len() - 1]);
        lemma_occurrences_absent(items.drop_last(), x);
    }
}

/// The rendering of entries: one `count\titem` line per entry.
pub open spec fn spec_format(entries: Seq<Entry>) -> Seq<char>
    decreases entries.len(),
{
    if entries.len() == 0 {
        Seq::empty()
    } else {
        let e = entries.last();
        (spec_format(entries.drop_last()) + spec_decimal(e.count as nat)).push('\t') + e.item@.push('\n')
    }
}

/// Render entries as `count\titem` lines (tab-separated), one per line.
pub fn format(entries: &[Entry]) -> (out: String)
    ensures
        out@ == spec_format(entries@),
{
    let mut out = String::new();
    let mut i: usize = 0;
    while i < entries.len()
        invariant
            i <= entries@.len(),
            out@ == spec_format(entries@.take(i as int)),
        decreases entries@.len() - i,
    {
        let e = &entries[i];
        push_decimal(&mut out, e.count);
        push_char(&mut out, '\t');
        out.append(e.item.as_str());
        push_char(&mut out, '\n');
        proof {
            assert(entries@.take(i + 1).drop_last() =~= entries@.take(i as int));
            assert(entries@.take(i + 1).last() == *e);
        }
        i = i + 1;
    }
    assert(entries@.take(entries@.len() as int) =~= entries@);
    out
}


// ---------------------------------------------------------------------------
// The table is determined by the items
// ---------------------------------------------------------------------------

proof fn lemma_occurrences_present(items: Seq<Seq<char>>, x: Seq<char>)
    requires
        occurrences(items, x) > 0,
    ensures
        items.contains(x),
{
    if !items.contains(x) {
        lemma_occurrences_absent(items, x);
    }
}

proof fn lemma_ranks_before_asymmetric(i1: Seq<char>, c1: nat, i2: Seq<char>, c2: nat)
    requires
        ranks_before(i1, c1, i2, c2),
    ensures
        !ranks_before(i2, c2, i1, c1),
{
    if c1 == c2 && text_lt(i1, i2) {
        lemma_text_lt_asymmetric(i1, i2);
    }
}

proof fn lemma_ranks_before_irreflexive(i1: Seq<char>, c1: nat)
    ensures
        !ranks_before(i1, c1, i1, c1),
{
    lemma_text_lt_irreflexive(i1);
}

/// Two frequency tables of the same items with the same limit are the same
/// table: the same entries in the same order. So the output of
/// [`frequencies`] is fully determined, ties included.
pub proof fn law_frequency_table_unique(
    items: Seq<Seq<char>>,
    top: Option<usize>,
    e1: Seq<Entry>,
    e2: Seq<Entry>,
)
    requires
        is_frequency_table(items, top, e1),
        is_frequency_table(items, top, e2),
    ensures
        e1.len() == e2.len(),
        forall|i: int|
            0 <= i < e1.len() ==> (#[trigger] e1[i]).item@ == e2[i].item@ && e1[i].count == e2[i].count,
{
    let m = if e1.len() < e2.len() { e1.len() } else { e2.len() };
    assert forall|k: int| 0 <= k < m implies (#[trigger] e1[k]).item@ == e2[k].item@ by {
        lemma_tables_agree_at(items, top, e1, e2, k);
    }
    if e1.len() < e2.len() {
        lemma_table_not_shorter(items, top, e1, e2);
    } else if e2.len() < e1.len() {
        assert forall|k: int| 0 <= k < e2.len() implies (#[trigger] e2[k]).item@ == e1[k].item@ by {
            assert(e1[k].item@ == e2[k].item@);
        }
        lemma_table_not_shorter(items, top, e2, e1);
    }
}

/// At the first place where two tables differ, each item would have to rank
/// before the other, so they do not differ.
proof fn lemma_tables_agree_at(items: Seq<Seq<char>>, top: Option<usize>, e1: Seq<Entry>, e2: Seq<Entry>, k: int)
    requires
        is_frequency_table(items, top, e1),
        is_frequency_table(items, top, e2),
        0 <= k < e1.len(),
        k < e2.len(),
    ensures
        e1[k].item@ == e2[k].item@,
    decreases k,
{
    assert forall|i: int| 0 <= i < k implies (#[trigger] e1[i]).item@ == e2[i].item@ by {
        lemma_tables_agree_at(items, top, e1, e2, i);
    }
    let a = e1[k].item@;
    let b = e2[k].item@;
    if a != b {
        let ca = occurrences(items, a);
        let cb = occurrences(items, b);
        assert(ranks_before(b, cb, a, ca)) by {
            lemma_listed_or_after(items, top, e1, e2, k);
        }
        assert(ranks_before(a, ca, b, cb)) by {
            assert forall|i: int| 0 <= i < k implies (#[trigger] e2[i]).item@ == e1[i].item@ by {
                assert(e1[i].item@ == e2[i].item@);
            }
            lemma_listed_or_after(items, top, e2, e1, k);
        }
        lemma_ranks_before_asymmetric(a, ca, b, cb);
    }
}

/// When two tables agree before place `k` and differ at `k`, the item of the
/// second at `k` ranks before the item of the first at `k`.
proof fn lemma_listed_or_after(items: Seq<Seq<char>>, top: Option<usize>, e1: Seq<Entry>, e2: Seq<Entry>, k: int)
    requires
        is_frequency_table(items, top, e1),
        is_frequency_table(items, top, e2),
        0 <= k < e1.len(),
        k < e2.len(),
        forall|i: int| 0 <= i < k ==> (#[trigger] e1[i]).item@ == e2[i].item@,
        e1[k].item@ != e2[k].item@,
    ensures
        ranks_before(e2[k].item@, occurrences(items, e2[k].item@), e1[k].item@, occurrences(items, e1[k].item@)),
{
    let a = e1[k].item@;
    assert(e1[k].count == occurrences(items, a) && e1[k].count > 0);
    lemma_occurrences_present(items, a);
    assert(items.contains(a));
    assert(e2[k].count == occurrences(items, e2[k].item@));
    if exists|i: int| 0 <= i < e2.len() && e2[i].item@ == a {
        let i = choose|i: int| 0 <= i < e2.len() && e2[i].item@ == a;
        if i < k {
            assert(e1[i].item@ == a);
            assert(ranks_before(e1[i].item@, e1[i].count as nat, e1[k].item@, e1[k].count as nat));
            lemma_ranks_before_irreflexive(a, e1[k].count as nat);
        } else {
            assert(i != k);
            assert(ranks_before(e2[k].item@, e2[k].count as nat, e2[i].item@, e2[i].count as nat));
        }
    } else {
        assert(ranks_before(e2[k].item@, e2[k].count as nat, a, occurrences(items, a)));
    }
}

/// A table that agrees with another on its own length is not shorter.
proof fn lemma_table_not_shorter(items: Seq<Seq<char>>, top: Option<usize>, e1: Seq<Entry>, e2: Seq<Entry>)
    requires
        is_frequency_table(items, top, e1),
        is_frequency_table(items, top, e2),
        e1.len() <= e2.len(),
        forall|i: int| 0 <= i < e1.len() ==> (#[trigger] e1[i]).item@ == e2[i].item@,
    ensures
        e1.len() == e2.len(),
{
    if e1.len() < e2.len() {
        let k = e1.len() as int;
        let b = e2[k].item@;
        assert(e2[k].count == occurrences(items, b) && e2[k].count > 0);
        lemma_occurrences_present(items, b);
        assert(items.contains(b));
        if exists|i: int| 0 <= i < e1.len() && e1[i].item@ == b {
            let i = choose|i: int| 0 <= i < e1.len() && e1[i].item@ == b;
            assert(e2[i].item@ == b);
            assert(ranks_before(e2[i].item@, e2[i].count as nat, e2[k].item@, e2[k].count as nat));
            lemma_ranks_before_irreflexive(b, e2[k].count as nat);
        }
    }
}

/// The table limited to `n` entries is the first `n` entries of the full
/// table (all of it when it has fewer).
pub proof fn law_top_is_prefix(items: Seq<Seq<char>>, n: usize, full: Seq<Entry>, limited: Seq<Entry>)
    requires
        is_frequency_table(items, None, full),
        is_frequency_table(items, Some(n), limited),
    ensures
        limited.len() == (if full.len() < n { full.len() as int } else { n as int }),
        forall|i: int|
            0 <= i < limited.len() ==> (#[trigger] limited[i]).item@ == full[i].item@ && limited[i].count
                == full[i].count,
{
    let m = if full.len() < n { full.len() as int } else { n as int };
    let t = full.take(m);
    assert forall|x: Seq<char>| #[trigger] items.contains(x) implies (exists|i: int|
        0 <= i < t.len() && t[i].item@ == x) || (Some(n) matches Some(nn) && t.len() == nn && forall|i: int|
        0 <= i < t.len() ==> ranks_before(
            (#[trigger] t[i]).item@,
            t[i].count as nat,
            x,
            occurrences(items, x),
        )) by {
        let j = choose|j: int| 0 <= j < full.len() && full[j].item@ == x;
        if j < m {
            assert(t[j].item@ == x);
        } else {
            assert forall|i: int| 0 <= i < t.len() implies ranks_before(
                (#[trigger] t[i]).item@,
                t[i].count as nat,
                x,
                occurrences(items, x),
            ) by {
                assert(t[i] == full[i]);
                assert(ranks_before(full[i].item@, full[i].count as nat, full[j].item@, full[j].count as nat));
            }
        }
    }
    assert(is_frequency_table(items, Some(n), t));
    law_frequency_table_unique(items, Some(n), t, limited);
    assert forall|i: int| 0 <= i < limited.len() implies (#[trigger] limited[i]).item@ == full[i].item@
        && limited[i].count == full[i].count by {
        assert(t[i] == full[i]);
        assert(t[i].item@ == limited[i].item@ && t[i].count == limited[i].count);
    }
}

/// `t` is `w` with a run of characters that are not alphanumeric removed
/// from each end, and `t` is empty or starts and ends with an alphanumeric
/// character.
pub open spec fn trimmed_to_alnum(t: Seq<char>, w: Seq<char>) -> bool {
    exists|i: int, j: int|
        #![trigger w.subrange(i, j)]
        0 <= i <= j <= w.len() && t == w.subrange(i, j) && (forall|x: int|
            0 <= x < i ==> !is_alphanumeric_char(#[trigger] w[x])) && (forall|x: int|
            j <= x < w.len() ==> !is_alphanumeric_char(#[trigger] w[x])) && (t.len() == 0 || (
        is_alphanumeric_char(t[0]) && is_alphanumeric_char(t.last())))
}

proof fn lemma_drop_front(w: Seq<char>)
    ensures
        ({
            let f = drop_front_non_alnum(w);
            &&& f.len() <= w.len()
            &&& f == w.skip(w.len() - f.len())
            &&& forall|x: int| 0 <= x < w.len() - f.len() ==> !is_alphanumeric_char(#[trigger] w[x])
            &&& f.len() == 0 || is_alphanumeric_char(f[0])
        }),
    decreases w.len(),
{
    if w.len() > 0 && !is_alphanumeric_char(w[0]) {
        let r = w.drop_first();
        lemma_drop_front(r);
        let f = drop_front_non_alnum(r);
        assert(r.skip(r.len() - f.len()) =~= w.skip(w.len() - f.len()));
        assert forall|x: int| 0 <= x < w.len() - f.len() implies !is_alphanumeric_char(#[trigger] w[x]) by {
            if x > 0 {
                assert(w[x] == r[x - 1]);
            }
        }
    } else {
        assert(w.skip(0) =~= w);
    }
}

proof fn lemma_drop_back(w: Seq<char>)
    ensures
        ({
            let b = drop_back_non_alnum(w);
            &&& b.len() <= w.len()
            &&& b == w.take(b.len() as int)
            &&& forall|x: int| b.len() <= x < w.len() ==> !is_alphanumeric_char(#[trigger] w[x])
            &&& b.len() == 0 || is_alphanumeric_char(b.last())
        }),
    decreases w.len(),
{
    if w.len() > 0 && !is_alphanumeric_char(w.last()) {
        let r = w.drop_last();
        lemma_drop_back(r);
        let b = drop_back_non_alnum(r);
        assert(r.take(b.len() as int) =~= w.take(b.len() as int));
        assert forall|x: int| b.len() <= x < w.len() implies !is_alphanumeric_char(#[trigger] w[x]) by {
            if x < w.len() - 1 {
                assert(w[x] == r[x]);
            }
        }
    } else {
        assert(w.take(w.len() as int) =~= w);
    }
}

/// Trimming a word removes every character that is not alphanumeric at
/// either end, and nothing else: the result is the part of the word between
/// such runs, and it is empty or starts and ends alphanumeric.
pub proof fn law_trim_word(w: Seq<char>)
    ensures
        trimmed_to_alnum(trim_non_alnum(w), w),
{
    lemma_drop_front(w);
    let f = drop_front_non_alnum(w);
    lemma_drop_back(f);
    let t = drop_back_non_alnum(f);
    let i = w.len() - f.len();
    let j = i + t.len();
    assert(t =~= w.subrange(i, j));
    assert forall|x: int| j <= x < w.len() implies !is_alphanumeric_char(#[trigger] w[x]) by {
        assert(w[x] == f[x - i]);
    }
    if t.len() > 0 {
        assert(f[0] == t[0]);
    }
    assert(trim_non_alnum(w) == t);
    assert(trimmed_to_alnum(t, w));
}

/// Every word item counted without case folding is a non-empty part of a
/// word of the text, trimmed of all characters that are not alphanumeric at
/// both ends (so it starts and ends with an alphanumeric character).
pub proof fn law_word_items_trimmed(text: Seq<char>)
    ensures
        forall|k: int|
            0 <= k < word_items(spec_words(text), false).len() ==> (#[trigger] word_items(
                spec_words(text),
                false,
            )[k]).len() > 0 && exists|m: int|
                0 <= m < spec_words(text).len() && #[trigger] trimmed_to_alnum(
                    word_items(spec_words(text), false)[k],
                    spec_words(text)[m],
                ),
{
    lemma_word_items_trimmed(spec_words(text));
}

proof fn lemma_word_items_trimmed(words: Seq<Seq<char>>)
    ensures
        forall|k: int|
            0 <= k < word_items(words, false).len() ==> (#[trigger] word_items(words, false)[k]).len() > 0
                && exists|m: int| 0 <= m < words.len() && #[trigger] trimmed_to_alnum(word_items(words, false)[k], words[m]),
    decreases words.len(),
{
    if words.len() > 0 {
        let init = words.drop_last();
        lemma_word_items_trimmed(init);
        let a = word_items(init, false);
        let t = trim_non_alnum(words.last());
        law_trim_word(words.last());
        let r = word_items(words, false);
        assert forall|k: int| 0 <= k < r.len() implies (#[trigger] r[k]).len() > 0 && exists|m: int|
            0 <= m < words.len() && #[trigger] trimmed_to_alnum(r[k], words[m]) by {
            if k < a.len() {
                assert(r[k] == a[k]);
                let m = choose|m: int| 0 <= m < init.len() && #[trigger] trimmed_to_alnum(a[k], init[m]);
                assert(words[m] == init[m]);
            } else {
                assert(r[k] == t);
                assert(words[words.len() - 1] == words.last());
                assert(trimmed_to_alnum(r[k], words[words.len() - 1]));
            }
        }
    }
}

} // verus!
