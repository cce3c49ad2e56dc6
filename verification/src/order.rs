//! Orders used by sorting, deduplication and frequency counting: the
//! lexicographic order of character sequences (the order of `str`), lookup
//! in a strictly ordered vector of keys, and a stable merge sort.
use vstd::prelude::*;
use crate::text::copy_chars;

verus! {

/// Lexicographic order of character sequences by code point, which is the
/// order of `str` and `String` (their UTF-8 bytes compare the same way).
pub open spec fn text_lt(a: Seq<char>, b: Seq<char>) -> bool
    decreases a.len(),
{
    if a.len() == 0 {
        b.len() > 0
    } else if b.len() == 0 {
        false
    } else if a[0] != b[0] {
        (a[0] as u32) < (b[0] as u32)
    } else {
        text_lt(a.drop_first(), b.drop_first())
    }
}

/// The order is irreflexive.
pub proof fn lemma_text_lt_irreflexive(a: Seq<char>)
    ensures
        !text_lt(a, a),
    decreases a.len(),
{
    if a.len() > 0 {
        lemma_text_lt_irreflexive(a.drop_first());
    }
}

/// The order is transitive.
pub proof fn lemma_text_lt_transitive(a: Seq<char>, b: Seq<char>, c: Seq<char>)
    requires
        text_lt(a, b),
        text_lt(b, c),
    ensures
        text_lt(a, c),
    decreases a.len(),
{
    if a.len() > 0 && b.len() > 0 && c.len() > 0 {
        if a[0] == b[0] && b[0] == c[0] {
            lemma_text_lt_transitive(a.drop_first(), b.drop_first(), c.drop_first());
        }
    }
}

/// Two different sequences are ordered one way or the other.
pub proof fn lemma_text_lt_total(a: Seq<char>, b: Seq<char>)
    ensures
        a == b || text_lt(a, b) || text_lt(b, a),
    decreases a.len(),
{
    if a.len() == 0 && b.len() == 0 {
        assert(a =~= b);
    } else if a.len() > 0 && b.len() > 0 && a[0] == b[0] {
        lemma_text_lt_total(a.drop_first(), b.drop_first());
        if a.drop_first() == b.drop_first() {
            assert(a =~= seq![a[0]] + a.drop_first());
            assert(b =~= seq![b[0]] + b.drop_first());
        }
    } else if a.len() > 0 && b.len() > 0 {
        let x = a[0] as u32;
        let y = b[0] as u32;
        assert(x != y) by {
            vstd::utf8::char_u32_cast(a[0], x);
            vstd::utf8::char_u32_cast(b[0], y);
        }
    }
}

/// The order is asymmetric.
pub proof fn lemma_text_lt_asymmetric(a: Seq<char>, b: Seq<char>)
    requires
        text_lt(a, b),
    ensures
        !text_lt(b, a),
{
    if text_lt(b, a) {
        lemma_text_lt_transitive(a, b, a);
        lemma_text_lt_irreflexive(a);
    }
}

/// Compares two character sequences: negative, zero or positive as `a` is
/// before, equal to or after `b`.
pub fn compare_text(a: &Vec<char>, b: &Vec<char>) -> (r: i8)
    ensures
        r < 0 <==> text_lt(a@, b@),
        r == 0 <==> a@ == b@,
        r > 0 <==> text_lt(b@, a@),
{
    let mut i: usize = 0;
    proof {
        assert(a@.skip(0) =~= a@);
        assert(b@.skip(0) =~= b@);
    }
    while i < a.len() && i < b.len() && a[i] == b[i]
        invariant
            i <= a@.len(),
            i <= b@.len(),
            a@.take(i as int) == b@.take(i as int),
            text_lt(a@, b@) == text_lt(a@.skip(i as int), b@.skip(i as int)),
            text_lt(b@, a@) == text_lt(b@.skip(i as int), a@.skip(i as int)),
        decreases a@.len() - i,
    {
        assert(a@.skip(i as int).drop_first() =~= a@.skip(i + 1));
        assert(b@.skip(i as int).drop_first() =~= b@.skip(i + 1));
        assert(a@.take(i + 1) =~= a@.take(i as int).push(a@[i as int]));
        assert(b@.take(i + 1) =~= b@.take(i as int).push(b@[i as int]));
        i = i + 1;
    }
    proof {
        lemma_text_lt_irreflexive(a@);
        lemma_text_lt_total(a@, b@);
    }
    if i < a.len() && i < b.len() {
        let x = a[i];
        let y = b[i];
        proof {
            assert(a@.skip(i as int)[0] == x);
            assert(b@.skip(i as int)[0] == y);
            if a@ == b@ {
                assert(x == y);
            }
        }
        if (x as u32) < (y as u32) {
            -1
        } else {
            1
        }
    } else if i == a.len() && i == b.len() {
        assert(a@ =~= a@.take(i as int));
        assert(b@ =~= b@.take(i as int));
        0
    } else if i == a.len() {
        proof {
            if a@ == b@ {
                assert(false);
            }
        }
        -1
    } else {
        proof {
            if a@ == b@ {
                assert(false);
            }
        }
        1
    }
}

/// `keys` is strictly increasing in the text order.
pub open spec fn strictly_sorted(keys: Seq<Seq<char>>) -> bool {
    forall|i: int, j: int| 0 <= i < j < keys.len() ==> text_lt(#[trigger] keys[i], #[trigger] keys[j])
}

/// Finds `k` in a strictly increasing vector of keys: either its index, or
/// the index at which it would be inserted to keep the order.
pub fn find_key(keys: &Vec<Vec<char>>, k: &Vec<char>) -> (r: (bool, usize))
    requires
        strictly_sorted(keys@.map_values(|v: Vec<char>| v@)),
    ensures
        r.1 <= keys@.len(),
        r.0 ==> r.1 < keys@.len() && keys@[r.1 as int]@ == k@,
        !r.0 ==> forall|i: int| 0 <= i < r.1 ==> text_lt(#[trigger] keys@[i]@, k@),
        !r.0 ==> forall|i: int| r.1 <= i < keys@.len() ==> text_lt(k@, #[trigger] keys@[i]@),
{
    let ghost vs = keys@.map_values(|v: Vec<char>| v@);
    let mut lo: usize = 0;
    let mut hi: usize = keys.len();
    while lo < hi
        invariant
            lo <= hi <= keys@.len(),
            vs == keys@.map_values(|v: Vec<char>| v@),
            strictly_sorted(vs),
            forall|i: int| 0 <= i < lo ==> text_lt(#[trigger] keys@[i]@, k@),
            forall|i: int| hi <= i < keys@.len() ==> text_lt(k@, #[trigger] keys@[i]@),
        decreases hi - lo,
    {
        let mid = lo + (hi - lo) / 2;
        let c = compare_text(&keys[mid], k);
        if c == 0 {
            return (true, mid);
        } else if c < 0 {
            proof {
                assert forall|i: int| 0 <= i < mid + 1 implies text_lt(#[trigger] keys@[i]@, k@) by {
                    if i < mid {
                        assert(vs[i] == keys@[i]@ && vs[mid as int] == keys@[mid as int]@);
                        lemma_text_lt_transitive(keys@[i]@, keys@[mid as int]@, k@);
                    }
                }
            }
            lo = mid + 1;
        } else {
            proof {
                assert forall|i: int| mid <= i < keys@.len() implies text_lt(k@, #[trigger] keys@[i]@) by {
                    if i > mid {
                        assert(vs[i] == keys@[i]@ && vs[mid as int] == keys@[mid as int]@);
                        lemma_text_lt_transitive(k@, keys@[mid as int]@, keys@[i]@);
                    }
                }
            }
            hi = mid;
        }
    }
    (false, lo)
}

// ---------------------------------------------------------------------------
// Stable sorting of positions by integer keys
// ---------------------------------------------------------------------------

/// Whether position `a` comes before position `b` when sorting stably by
/// `keys` (ascending, or descending when `desc`): by key, and by position
/// between equal keys.
pub open spec fn comes_before(keys: Seq<u64>, desc: bool, a: int, b: int) -> bool {
    if keys[a] == keys[b] {
        a < b
    } else if desc {
        keys[a] > keys[b]
    } else {
        keys[a] < keys[b]
    }
}

/// `x` occurs in `p`.
pub open spec fn occurs_in(p: Seq<usize>, x: int) -> bool {
    exists|i: int| 0 <= i < p.len() && p[i] == x
}

/// `p` lists the positions `0..n` of `keys` in stable sorted order.
pub open spec fn is_stable_order(keys: Seq<u64>, desc: bool, p: Seq<usize>) -> bool {
    &&& p.len() == keys.len()
    &&& forall|i: int| 0 <= i < p.len() ==> #[trigger] p[i] < keys.len()
    &&& forall|x: int| 0 <= x < keys.len() ==> #[trigger] occurs_in(p, x)
    &&& forall|i: int, j: int|
        0 <= i < j < p.len() ==> comes_before(keys, desc, #[trigger] p[i] as int, #[trigger] p[j] as int)
}

proof fn lemma_comes_before_transitive(keys: Seq<u64>, desc: bool, a: int, b: int, c: int)
    requires
        comes_before(keys, desc, a, b),
        comes_before(keys, desc, b, c),
    ensures
        comes_before(keys, desc, a, c),
{
}

fn before(keys: &Vec<u64>, desc: bool, a: usize, b: usize) -> (r: bool)
    requires
        a < keys@.len(),
        b < keys@.len(),
    ensures
        r == comes_before(keys@, desc, a as int, b as int),
{
    let ka = keys[a];
    let kb = keys[b];
    if ka == kb {
        a < b
    } else if desc {
        ka > kb
    } else {
        ka < kb
    }
}

/// `x` occurs among the first `n` entries of `p`.
pub open spec fn occurs_before(p: Seq<usize>, n: int, x: int) -> bool {
    exists|m: int| 0 <= m < n && p[m] == x
}

/// The positions `lo..hi` in stable sorted order.
fn sort_range(keys: &Vec<u64>, desc: bool, lo: usize, hi: usize) -> (r: Vec<usize>)
    requires
        lo <= hi <= keys@.len(),
    ensures
        r@.len() == hi - lo,
        forall|i: int| 0 <= i < r@.len() ==> lo <= #[trigger] r@[i] < hi,
        forall|x: int| lo <= x < hi ==> #[trigger] occurs_in(r@, x),
        forall|i: int, j: int|
            0 <= i < j < r@.len() ==> comes_before(keys@, desc, #[trigger] r@[i] as int, #[trigger] r@[j] as int),
    decreases hi - lo,
{
    if hi - lo <= 1 {
        let mut r: Vec<usize> = Vec::new();
        if hi - lo == 1 {
            r.push(lo);
            assert forall|x: int| lo <= x < hi implies #[trigger] occurs_in(r@, x) by {
                assert(r@[0] == x);
            }
        }
        return r;
    }
    let mid = lo + (hi - lo) / 2;
    let left = sort_range(keys, desc, lo, mid);
    let right = sort_range(keys, desc, mid, hi);
    let mut out: Vec<usize> = Vec::new();
    let mut i: usize = 0;
    let mut j: usize = 0;
    while i < left.len() || j < right.len()
        invariant
            lo < mid < hi <= keys@.len(),
            left@.len() == mid - lo,
            right@.len() == hi - mid,
            i <= left@.len(),
            j <= right@.len(),
            out@.len() == i + j,
            forall|k: int| 0 <= k < left@.len() ==> lo <= #[trigger] left@[k] < mid,
            forall|k: int| 0 <= k < right@.len() ==> mid <= #[trigger] right@[k] < hi,
            forall|x: int| lo <= x < mid ==> #[trigger] occurs_in(left@, x),
            forall|x: int| mid <= x < hi ==> #[trigger] occurs_in(right@, x),
            forall|a: int, b: int|
                0 <= a < b < left@.len() ==> comes_before(keys@, desc, #[trigger] left@[a] as int, #[trigger] left@[b] as int),
            forall|a: int, b: int|
                0 <= a < b < right@.len() ==> comes_before(keys@, desc, #[trigger] right@[a] as int, #[trigger] right@[b] as int),
            forall|a: int, b: int|
                0 <= a < b < out@.len() ==> comes_before(keys@, desc, #[trigger] out@[a] as int, #[trigger] out@[b] as int),
            forall|a: int, b: int|
                0 <= a < out@.len() && i <= b < left@.len() ==> comes_before(keys@, desc, #[trigger] out@[a] as int, #[trigger] left@[b] as int),
            forall|a: int, b: int|
                0 <= a < out@.len() && j <= b < right@.len() ==> comes_before(keys@, desc, #[trigger] out@[a] as int, #[trigger] right@[b] as int),
            forall|k: int|
                0 <= k < out@.len() ==> occurs_before(left@, i as int, #[trigger] out@[k] as int) || occurs_before(right@, j as int, out@[k] as int),
            forall|m: int| 0 <= m < i ==> occurs_in(out@, #[trigger] left@[m] as int),
            forall|m: int| 0 <= m < j ==> occurs_in(out@, #[trigger] right@[m] as int),
        decreases left@.len() + right@.len() - i - j,
    {
        let take_left = if i < left.len() && j < right.len() {
            before(keys, desc, left[i], right[j])
        } else {
            i < left.len()
        };
        let ghost old_out = out@;
        if take_left {
            let x = left[i];
            proof {
                assert forall|b: int| j <= b < right@.len() implies comes_before(keys@, desc, x as int, #[trigger] right@[b] as int) by {
                    if b > j {
                        lemma_comes_before_transitive(keys@, desc, x as int, right@[j as int] as int, right@[b] as int);
                    }
                }
            }
            out.push(x);
            proof {
                assert forall|a: int, b: int|
                    0 <= a < out@.len() && i + 1 <= b < left@.len() implies comes_before(keys@, desc, #[trigger] out@[a] as int, #[trigger] left@[b] as int) by {
                    if a == old_out.len() {
                        assert(out@[a] == left@[i as int]);
                    } else {
                        assert(out@[a] == old_out[a]);
                    }
                }
                assert forall|k: int| 0 <= k < out@.len() implies occurs_before(left@, i + 1, #[trigger] out@[k] as int) || occurs_before(right@, j as int, out@[k] as int) by {
                    if k == old_out.len() {
                        assert(left@[i as int] == out@[k]);
                    } else {
                        assert(out@[k] == old_out[k]);
                        if occurs_before(left@, i as int, old_out[k] as int) {
                            let m = choose|m: int| 0 <= m < i && left@[m] == old_out[k];
                            assert(left@[m] == out@[k]);
                        }
                    }
                }
                assert forall|m: int| 0 <= m < i + 1 implies occurs_in(out@, #[trigger] left@[m] as int) by {
                    if m == i {
                        assert(out@[old_out.len() as int] == left@[m]);
                    } else {
                        assert(occurs_in(old_out, left@[m] as int));
                        let k = choose|k: int| 0 <= k < old_out.len() && old_out[k] == left@[m];
                        assert(out@[k] == left@[m]);
                    }
                }
                assert forall|m: int| 0 <= m < j implies occurs_in(out@, #[trigger] right@[m] as int) by {
                    assert(occurs_in(old_out, right@[m] as int));
                    let k = choose|k: int| 0 <= k < old_out.len() && old_out[k] == right@[m];
                    assert(out@[k] == right@[m]);
                }
            }
            i = i + 1;
        } else {
            let x = right[j];
            proof {
                assert forall|b: int| i <= b < left@.len() implies comes_before(keys@, desc, x as int, #[trigger] left@[b] as int) by {
                    assert(left@[i as int] != right@[j as int]);
                    assert(!comes_before(keys@, desc, left@[i as int] as int, right@[j as int] as int));
                    if b > i {
                        lemma_comes_before_transitive(keys@, desc, x as int, left@[i as int] as int, left@[b] as int);
                    }
                }
            }
            out.push(x);
            proof {
                assert forall|a: int, b: int|
                    0 <= a < out@.len() && j + 1 <= b < right@.len() implies comes_before(keys@, desc, #[trigger] out@[a] as int, #[trigger] right@[b] as int) by {
                    if a == old_out.len() {
                        assert(out@[a] == right@[j as int]);
                    } else {
                        assert(out@[a] == old_out[a]);
                    }
                }
                assert forall|k: int| 0 <= k < out@.len() implies occurs_before(left@, i as int, #[trigger] out@[k] as int) || occurs_before(right@, j + 1, out@[k] as int) by {
                    if k == old_out.len() {
                        assert(right@[j as int] == out@[k]);
                    } else {
                        assert(out@[k] == old_out[k]);
                        if occurs_before(right@, j as int, old_out[k] as int) {
                            let m = choose|m: int| 0 <= m < j && right@[m] == old_out[k];
                            assert(right@[m] == out@[k]);
                        }
                    }
                }
                assert forall|m: int| 0 <= m < j + 1 implies occurs_in(out@, #[trigger] right@[m] as int) by {
                    if m == j {
                        assert(out@[old_out.len() as int] == right@[m]);
                    } else {
                        assert(occurs_in(old_out, right@[m] as int));
                        let k = choose|k: int| 0 <= k < old_out.len() && old_out[k] == right@[m];
                        assert(out@[k] == right@[m]);
                    }
                }
                assert forall|m: int| 0 <= m < i implies occurs_in(out@, #[trigger] left@[m] as int) by {
                    assert(occurs_in(old_out, left@[m] as int));
                    let k = choose|k: int| 0 <= k < old_out.len() && old_out[k] == left@[m];
                    assert(out@[k] == left@[m]);
                }
            }
            j = j + 1;
        }
    }
    proof {
        assert forall|k: int| 0 <= k < out@.len() implies lo <= #[trigger] out@[k] < hi by {
            if occurs_before(left@, i as int, out@[k] as int) {
                let m = choose|m: int| 0 <= m < i && left@[m] == out@[k];
                assert(lo <= left@[m] < mid);
            } else {
                let m = choose|m: int| 0 <= m < j && right@[m] == out@[k];
                assert(mid <= right@[m] < hi);
            }
        }
        assert forall|x: int| lo <= x < hi implies #[trigger] occurs_in(out@, x) by {
            if x < mid {
                assert(occurs_in(left@, x));
                let m = choose|m: int| 0 <= m < left@.len() && left@[m] == x;
                assert(occurs_in(out@, left@[m] as int));
            } else {
                assert(occurs_in(right@, x));
                let m = choose|m: int| 0 <= m < right@.len() && right@[m] == x;
                assert(occurs_in(out@, right@[m] as int));
            }
        }
    }
    out
}

/// The positions of `keys` in stable sorted order (ascending keys, or
/// descending when `desc`; equal keys keep their order).
pub fn stable_order(keys: &Vec<u64>, desc: bool) -> (p: Vec<usize>)
    ensures
        is_stable_order(keys@, desc, p@),
{
    sort_range(keys, desc, 0, keys.len())
}

/// The views of a vector of character vectors.
pub open spec fn key_views(keys: Seq<Vec<char>>) -> Seq<Seq<char>> {
    keys.map_values(|v: Vec<char>| v@)
}

/// Inserting `x` at a position with smaller keys before it and greater keys
/// after it (where [`find_key`] places it) keeps the keys strictly
/// increasing and adds exactly `x`, which was not there.
pub proof fn lemma_insert_in_order(sv: Seq<Seq<char>>, pos: int, x: Seq<char>)
    requires
        strictly_sorted(sv),
        0 <= pos <= sv.len(),
        forall|i: int| 0 <= i < pos ==> text_lt(#[trigger] sv[i], x),
        forall|i: int| pos <= i < sv.len() ==> text_lt(x, #[trigger] sv[i]),
    ensures
        !sv.contains(x),
        strictly_sorted(sv.insert(pos, x)),
        forall|y: Seq<char>| sv.insert(pos, x).contains(y) <==> (sv.contains(y) || y == x),
{
    lemma_text_lt_irreflexive(x);
    assert(!sv.contains(x)) by {
        if sv.contains(x) {
            let j = choose|j: int| 0 <= j < sv.len() && sv[j] == x;
            if j < pos {
                assert(text_lt(sv[j], x));
            } else {
                assert(text_lt(x, sv[j]));
            }
        }
    }
    let nv = sv.insert(pos, x);
    assert forall|a: int, b: int| 0 <= a < b < nv.len() implies text_lt(#[trigger] nv[a], #[trigger] nv[b]) by {
        if b < pos {
            assert(nv[a] == sv[a] && nv[b] == sv[b]);
        } else if b == pos {
            assert(nv[a] == sv[a]);
        } else if a == pos {
            assert(nv[b] == sv[b - 1]);
        } else if a < pos {
            assert(nv[a] == sv[a] && nv[b] == sv[b - 1]);
        } else {
            assert(nv[a] == sv[a - 1] && nv[b] == sv[b - 1]);
        }
    }
    assert forall|y: Seq<char>| nv.contains(y) <==> (sv.contains(y) || y == x) by {
        if sv.contains(y) {
            let m = choose|m: int| 0 <= m < sv.len() && sv[m] == y;
            if m < pos {
                assert(nv[m] == y);
            } else {
                assert(nv[m + 1] == y);
            }
        }
        if y == x {
            assert(nv[pos] == x);
        }
        if nv.contains(y) {
            let m = choose|m: int| 0 <= m < nv.len() && nv[m] == y;
            if m < pos {
                assert(sv[m] == y);
            } else if m > pos {
                assert(sv[m - 1] == y);
            }
        }
    }
}

/// Adds `k` to a strictly increasing vector of keys unless it is already
/// there; tells whether it was added.
pub fn insert_key(keys: &mut Vec<Vec<char>>, k: Vec<char>) -> (added: bool)
    requires
        strictly_sorted(key_views(old(keys)@)),
    ensures
        strictly_sorted(key_views(final(keys)@)),
        added == !key_views(old(keys)@).contains(k@),
        forall|x: Seq<char>|
            key_views(final(keys)@).contains(x) <==> (key_views(old(keys)@).contains(x) || x == k@),
{
    let ghost sv = key_views(keys@);
    let (found, pos) = find_key(keys, &k);
    if found {
        assert(sv[pos as int] == k@);
        return false;
    }
    let ghost kv = k@;
    proof {
        assert forall|i: int| 0 <= i < pos implies text_lt(#[trigger] sv[i], kv) by {
            assert(sv[i] == keys@[i]@);
        }
        assert forall|i: int| pos <= i < sv.len() implies text_lt(kv, #[trigger] sv[i]) by {
            assert(sv[i] == keys@[i]@);
        }
        lemma_insert_in_order(sv, pos as int, kv);
    }
    keys.insert(pos, k);
    assert(key_views(keys@) =~= sv.insert(pos as int, kv));
    true
}

/// Integer ranks of texts that order them as the text order does: equal
/// texts get equal ranks, and a text before another gets a smaller rank.
pub fn text_ranks(texts: &Vec<Vec<char>>) -> (ranks: Vec<u64>)
    ensures
        ranks@.len() == texts@.len(),
        forall|i: int, j: int|
            0 <= i < texts@.len() && 0 <= j < texts@.len() ==> (text_lt(texts@[i]@, texts@[j]@)
                <==> #[trigger] ranks@[i] < #[trigger] ranks@[j]),
        forall|i: int, j: int|
            0 <= i < texts@.len() && 0 <= j < texts@.len() ==> (texts@[i]@ == texts@[j]@ <==> 
                #[trigger] ranks@[i] == #[trigger] ranks@[j]),
{
    let mut distinct: Vec<Vec<char>> = Vec::new();
    let mut i: usize = 0;
    while i < texts.len()
        invariant
            i <= texts@.len(),
            strictly_sorted(key_views(distinct@)),
            forall|m: int| 0 <= m < i ==> key_views(distinct@).contains(#[trigger] texts@[m]@),
        decreases texts@.len() - i,
    {
        let k = copy_chars(&texts[i]);
        let ghost before = key_views(distinct@);
        proof {
            assert(k@ == texts@[i as int]@);
        }
        insert_key(&mut distinct, k);
        proof {
            assert forall|m: int| 0 <= m < i + 1 implies key_views(distinct@).contains(#[trigger] texts@[m]@) by {
                if m < i {
                    assert(before.contains(texts@[m]@));
                }
            }
        }
        i = i + 1;
    }
    let ghost dv = key_views(distinct@);
    let mut ranks: Vec<u64> = Vec::new();
    let mut j: usize = 0;
    while j < texts.len()
        invariant
            j <= texts@.len(),
            dv == key_views(distinct@),
            strictly_sorted(dv),
            forall|m: int| 0 <= m < texts@.len() ==> dv.contains(#[trigger] texts@[m]@),
            ranks@.len() == j,
            forall|m: int| 0 <= m < j ==> #[trigger] ranks@[m] < dv.len() && dv[ranks@[m] as int] == texts@[m]@,
        decreases texts@.len() - j,
    {
        let (found, pos) = find_key(&distinct, &texts[j]);
        proof {
            assert(dv.contains(texts@[j as int]@));
            if !found {
                let m = choose|m: int| 0 <= m < dv.len() && dv[m] == texts@[j as int]@;
                assert(dv[m] == distinct@[m]@);
                lemma_text_lt_irreflexive(texts@[j as int]@);
                if m < pos {
                    assert(text_lt(distinct@[m]@, texts@[j as int]@));
                } else {
                    assert(text_lt(texts@[j as int]@, distinct@[m]@));
                }
            }
            assert(dv[pos as int] == distinct@[pos as int]@);
        }
        ranks.push(pos as u64);
        j = j + 1;
    }
    proof {
        assert forall|a: int, b: int|
            0 <= a < texts@.len() && 0 <= b < texts@.len() implies (text_lt(texts@[a]@, texts@[b]@)
                <==> #[trigger] ranks@[a] < #[trigger] ranks@[b]) && (texts@[a]@ == texts@[b]@ <==> ranks@[a] == ranks@[b]) by {
            let ra = ranks@[a] as int;
            let rb = ranks@[b] as int;
            assert(dv[ra] == texts@[a]@ && dv[rb] == texts@[b]@);
            if ra < rb {
                assert(text_lt(dv[ra], dv[rb]));
                lemma_text_lt_irreflexive(dv[ra]);
            } else if rb < ra {
                assert(text_lt(dv[rb], dv[ra]));
                lemma_text_lt_asymmetric(dv[rb], dv[ra]);
                lemma_text_lt_irreflexive(dv[ra]);
            } else {
                lemma_text_lt_irreflexive(dv[ra]);
            }
        }
    }
    ranks
}

} // verus!
