//! Remove duplicate lines, globally or only adjacent duplicates.
use vstd::prelude::*;
use crate::views;
use crate::order::{compare_text, strictly_sorted, key_views, insert_key};
use crate::text::{chars_of, text_to_lowercase, lower_of_text};

verus! {

/// Options for [`dedup`].
#[derive(Debug, Clone, Copy, Default)]
pub struct Options {
    /// Only collapse runs of identical *adjacent* lines (like `uniq`).
    /// When false (default), removes all later duplicates anywhere in the input.
    pub adjacent: bool,
    /// Compare lines case-insensitively (by their `str::to_lowercase`).
    pub ignore_case: bool,
}

/// The comparison key of a line.
pub open spec fn line_key(line: Seq<char>, ignore_case: bool) -> Seq<char> {
    if ignore_case {
        lower_of_text(line)
    } else {
        line
    }
}

/// The comparison keys of lines.
pub open spec fn line_keys(lines: Seq<Seq<char>>, ignore_case: bool) -> Seq<Seq<char>> {
    lines.map_values(|l: Seq<char>| line_key(l, ignore_case))
}

/// Whether the line at `i` is kept: adjacent mode keeps it unless its key is
/// that of the line before; global mode keeps it unless its key came earlier.
pub open spec fn keep_line(keys: Seq<Seq<char>>, i: int, adjacent: bool) -> bool {
    if adjacent {
        i == 0 || keys[i - 1] != keys[i]
    } else {
        !keys.take(i).contains(keys[i])
    }
}

/// The items at the kept positions, in order.
pub open spec fn select_kept<T>(items: Seq<T>, keys: Seq<Seq<char>>, adjacent: bool) -> Seq<T>
    decreases items.len(),
{
    if items.len() == 0 {
        Seq::empty()
    } else {
        let prev = select_kept(items.drop_last(), keys, adjacent);
        if keep_line(keys, items.len() - 1, adjacent) {
            prev.push(items.last())
        } else {
            prev
        }
    }
}

/// The lines that [`dedup`] returns.
pub open spec fn spec_dedup<'a>(lines: Seq<&'a str>, opts: Options) -> Seq<&'a str> {
    select_kept(lines, line_keys(views(lines), opts.ignore_case), opts.adjacent)
}

/// Compute the comparison key for a line given the options.
fn key(line: &str, ignore_case: bool) -> (k: Vec<char>)
    ensures
        k@ == line_key(line@, ignore_case),
{
    if ignore_case {
        let l = text_to_lowercase(line);
        chars_of(l.as_str())
    } else {
        chars_of(line)
    }
}

/// Deduplicate `lines`, keeping the first occurrence and the input order.
///
/// - Global (default): the first time a line is seen it is kept; every later
///   line whose key matches an already-seen key is dropped, no matter how far
///   apart they are.
/// - Adjacent (`opts.adjacent`): only consecutive duplicate lines collapse to
///   one, so non-adjacent repeats survive.
pub fn dedup<'a>(lines: &[&'a str], opts: Options) -> (out: Vec<&'a str>)
    ensures
        out@ == spec_dedup(lines@, opts),
{
    let ghost keys = line_keys(views(lines@), opts.ignore_case);
    let mut out: Vec<&'a str> = Vec::new();
    if opts.adjacent {
        let mut prev: Vec<char> = Vec::new();
        let mut i: usize = 0;
        while i < lines.len()
            invariant
                i <= lines@.len(),
                opts.adjacent,
                keys == line_keys(views(lines@), opts.ignore_case),
                keys.len() == lines@.len(),
                i > 0 ==> prev@ == keys[i - 1],
                out@ == select_kept(lines@.take(i as int), keys, true),
            decreases lines@.len() - i,
        {
            let line = lines[i];
            let k = key(line, opts.ignore_case);
            proof {
                assert(lines@.take(i + 1).drop_last() =~= lines@.take(i as int));
                assert(k@ == keys[i as int]);
            }
            if i == 0 || compare_text(&prev, &k) != 0 {
                out.push(line);
            }
            prev = k;
            i = i + 1;
        }
        assert(lines@.take(lines@.len() as int) =~= lines@);
    } else {
        // the keys seen so far, strictly increasing
        let mut seen: Vec<Vec<char>> = Vec::new();
        let mut i: usize = 0;
        while i < lines.len()
            invariant
                i <= lines@.len(),
                !opts.adjacent,
                keys == line_keys(views(lines@), opts.ignore_case),
                keys.len() == lines@.len(),
                strictly_sorted(key_views(seen@)),
                forall|x: Seq<char>| keys.take(i as int).contains(x) <==> key_views(seen@).contains(x),
                out@ == select_kept(lines@.take(i as int), keys, false),
            decreases lines@.len() - i,
        {
            let line = lines[i];
            let k = key(line, opts.ignore_case);
            proof {
                assert(lines@.take(i + 1).drop_last() =~= lines@.take(i as int));
                assert(k@ == keys[i as int]);
                assert(keys.take(i + 1) =~= keys.take(i as int).push(k@));
                assert forall|x: Seq<char>| keys.take(i + 1).contains(x) <==> (keys.take(i as int).contains(x)
                    || x == k@) by {
                    if keys.take(i + 1).contains(x) && x != k@ {
                        let j = choose|j: int| 0 <= j < i + 1 && #[trigger] keys.take(i + 1)[j] == x;
                        assert(keys.take(i as int)[j] == x);
                    }
                    if keys.take(i as int).contains(x) {
                        let j = choose|j: int| 0 <= j < i && #[trigger] keys.take(i as int)[j] == x;
                        assert(keys.take(i + 1)[j] == x);
                    }
                    if x == k@ {
                        assert(keys.take(i + 1)[i as int] == x);
                    }
                }
            }
            if insert_key(&mut seen, k) {
                out.push(line);
            }
            i = i + 1;
        }
        assert(lines@.take(lines@.len() as int) =~= lines@);
    }
    out
}


// ---------------------------------------------------------------------------
// What deduplication guarantees
// ---------------------------------------------------------------------------

/// The keys of the kept lines are the kept keys.
pub(crate) proof fn lemma_keys_of_kept<'a>(items: Seq<&'a str>, keys: Seq<Seq<char>>, adjacent: bool, ignore_case: bool)
    ensures
        line_keys(views(select_kept(items, keys, adjacent)), ignore_case) == select_kept(
            line_keys(views(items), ignore_case),
            keys,
            adjacent,
        ),
    decreases items.len(),
{
    if items.len() > 0 {
        lemma_keys_of_kept(items.drop_last(), keys, adjacent, ignore_case);
        let mk = line_keys(views(items), ignore_case);
        assert(line_keys(views(items.drop_last()), ignore_case) =~= mk.drop_last());
        let prev = select_kept(items.drop_last(), keys, adjacent);
        if keep_line(keys, items.len() - 1, adjacent) {
            assert(line_keys(views(prev.push(items.last())), ignore_case) =~= line_keys(
                views(prev),
                ignore_case,
            ).push(line_key(items.last()@, ignore_case)));
        }
    }
}

/// What the kept keys of the first `n` keys are: in global mode no key twice
/// and exactly the keys seen; in adjacent mode no key twice in a row, ending
/// with the last key seen.
pub(crate) proof fn lemma_kept_keys(keys: Seq<Seq<char>>, n: int, adjacent: bool)
    requires
        0 <= n <= keys.len(),
    ensures
        !adjacent ==> forall|i: int, j: int|
            0 <= i < j < select_kept(keys.take(n), keys, adjacent).len() ==> #[trigger] select_kept(
                keys.take(n),
                keys,
                adjacent,
            )[i] != #[trigger] select_kept(keys.take(n), keys, adjacent)[j],
        !adjacent ==> forall|x: Seq<char>|
            #[trigger] select_kept(keys.take(n), keys, adjacent).contains(x) <==> keys.take(n).contains(x),
        adjacent ==> forall|i: int|
            0 < i < select_kept(keys.take(n), keys, adjacent).len() ==> select_kept(keys.take(n), keys, adjacent)[i
                - 1] != #[trigger] select_kept(keys.take(n), keys, adjacent)[i],
        adjacent && n > 0 ==> select_kept(keys.take(n), keys, adjacent).len() > 0 && select_kept(
            keys.take(n),
            keys,
            adjacent,
        ).last() == keys[n - 1],
    decreases n,
{
    if n > 0 {
        lemma_kept_keys(keys, n - 1, adjacent);
        let t = keys.take(n);
        assert(t.drop_last() =~= keys.take(n - 1));
        assert(t.last() == keys[n - 1]);
        let prev = select_kept(keys.take(n - 1), keys, adjacent);
        let cur = select_kept(t, keys, adjacent);
        let k = keys[n - 1];
        assert(keys.take(n) =~= keys.take(n - 1).push(k));
        if !adjacent {
            assert forall|x: Seq<char>| #[trigger] cur.contains(x) <==> t.contains(x) by {
                if t.contains(x) && x != k {
                    let j = choose|j: int| 0 <= j < n && #[trigger] t[j] == x;
                    assert(keys.take(n - 1)[j] == x);
                    assert(prev.contains(x));
                    let m = choose|m: int| 0 <= m < prev.len() && prev[m] == x;
                    assert(cur[m] == x);
                }
                if t.contains(x) && x == k {
                    if keep_line(keys, n - 1, false) {
                        assert(cur[prev.len() as int] == x);
                    } else {
                        assert(keys.take(n - 1).contains(x));
                        assert(prev.contains(x));
                    }
                }
                if cur.contains(x) {
                    let m = choose|m: int| 0 <= m < cur.len() && cur[m] == x;
                    if m < prev.len() {
                        assert(prev[m] == x);
                        assert(prev.contains(x));
                        let j = choose|j: int| 0 <= j < n - 1 && #[trigger] keys.take(n - 1)[j] == x;
                        assert(t[j] == x);
                    } else {
                        assert(t[n - 1] == x);
                    }
                }
            }
            if keep_line(keys, n - 1, false) {
                assert(!prev.contains(k));
                assert forall|i: int, j: int| 0 <= i < j < cur.len() implies #[trigger] cur[i] != #[trigger] cur[j] by {
                    if j == prev.len() {
                        assert(cur[i] == prev[i]);
                        assert(prev.contains(cur[i]));
                    } else {
                        assert(cur[i] == prev[i] && cur[j] == prev[j]);
                    }
                }
            }
        } else {
            if keep_line(keys, n - 1, true) {
                assert forall|i: int| 0 < i < cur.len() implies cur[i - 1] != #[trigger] cur[i] by {
                    if i < prev.len() {
                        assert(cur[i - 1] == prev[i - 1] && cur[i] == prev[i]);
                    }
                }
            }
        }
    }
}

/// Keeping every position of items that are all kept changes nothing.
proof fn lemma_all_kept<T>(items: Seq<T>, keys: Seq<Seq<char>>, adjacent: bool)
    requires
        forall|i: int| 0 <= i < items.len() ==> #[trigger] keep_line(keys, i, adjacent),
    ensures
        select_kept(items, keys, adjacent) == items,
    decreases items.len(),
{
    if items.len() > 0 {
        lemma_all_kept(items.drop_last(), keys, adjacent);
        assert(keep_line(keys, items.len() - 1, adjacent));
        assert(items.drop_last().push(items.last()) =~= items);
    }
}

/// Global deduplication keeps one line per key: no two kept lines have the
/// same key, and the key of every input line is the key of a kept line.
pub proof fn law_dedup_global<'a>(lines: Seq<&'a str>, ignore_case: bool)
    ensures
        ({
            let out = line_keys(views(spec_dedup(lines, (Options { adjacent: false, ignore_case }))), ignore_case);
            &&& forall|i: int, j: int| 0 <= i < j < out.len() ==> #[trigger] out[i] != #[trigger] out[j]
            &&& forall|i: int|
                0 <= i < lines.len() ==> out.contains(#[trigger] line_key(lines[i]@, ignore_case))
        }),
{
    let keys = line_keys(views(lines), ignore_case);
    lemma_keys_of_kept(lines, keys, false, ignore_case);
    lemma_kept_keys(keys, keys.len() as int, false);
    assert(keys.take(keys.len() as int) =~= keys);
    let out = select_kept(keys, keys, false);
    assert forall|i: int| 0 <= i < lines.len() implies out.contains(#[trigger] line_key(lines[i]@, ignore_case)) by {
        assert(keys[i] == line_key(lines[i]@, ignore_case));
        assert(keys.contains(keys[i]));
    }
}

/// Adjacent deduplication leaves no two neighbouring lines with the same key.
pub proof fn law_dedup_adjacent<'a>(lines: Seq<&'a str>, ignore_case: bool)
    ensures
        ({
            let out = line_keys(views(spec_dedup(lines, (Options { adjacent: true, ignore_case }))), ignore_case);
            forall|i: int| 0 < i < out.len() ==> out[i - 1] != #[trigger] out[i]
        }),
{
    let keys = line_keys(views(lines), ignore_case);
    lemma_keys_of_kept(lines, keys, true, ignore_case);
    lemma_kept_keys(keys, keys.len() as int, true);
    assert(keys.take(keys.len() as int) =~= keys);
}

/// Deduplicating twice is deduplicating once.
pub proof fn law_dedup_idempotent<'a>(lines: Seq<&'a str>, opts: Options)
    ensures
        spec_dedup(spec_dedup(lines, opts), opts) == spec_dedup(lines, opts),
{
    let out = spec_dedup(lines, opts);
    let ko = line_keys(views(out), opts.ignore_case);
    if opts.adjacent {
        law_dedup_adjacent(lines, opts.ignore_case);
    } else {
        law_dedup_global(lines, opts.ignore_case);
        assert forall|i: int| 0 <= i < out.len() implies #[trigger] keep_line(ko, i, false) by {
            if ko.take(i).contains(ko[i]) {
                let j = choose|j: int| 0 <= j < i && #[trigger] ko.take(i)[j] == ko[i];
                assert(ko[j] == ko[i]);
            }
        }
    }
    lemma_all_kept(out, ko, opts.adjacent);
}

} // verus!
