//! Shared text machinery: character views of strings, building strings,
//! byte offsets of characters, and the standard library's character
//! predicates and case mappings that the operations rely on.
use vstd::prelude::*;
use vstd::utf8::*;
use vstd::string::*;

verus! {

broadcast use vstd::utf8::encode_utf8_valid_utf8, vstd::utf8::encode_utf8_decode_utf8;

/// The characters of `text`, in order.
pub fn chars_of(text: &str) -> (v: Vec<char>)
    ensures
        v@ == text@,
{
    let mut v: Vec<char> = Vec::new();
    for c in it: text.chars()
        invariant
            v@ == it.seq().take(it.index() as int),
    {
        v.push(c);
    }
    v
}

/// Appends one character to a string (`String::push`).
#[verifier::external_body]
pub(crate) fn push_char(s: &mut String, c: char)
    ensures
        final(s)@ == old(s)@.push(c),
{
    s.push(c);
}

/// The UTF-8 encoding of a character sequence distributes over concatenation.
pub proof fn lemma_encode_concat(a: Seq<char>, b: Seq<char>)
    ensures
        encode_utf8(a + b) == encode_utf8(a) + encode_utf8(b),
    decreases a.len(),
{
    if a.len() == 0 {
        assert(a + b =~= b);
        assert(encode_utf8(a) =~= Seq::<u8>::empty());
        assert(encode_utf8(a) + encode_utf8(b) =~= encode_utf8(b));
    } else {
        lemma_encode_concat(a.drop_first(), b);
        assert((a + b).drop_first() =~= a.drop_first() + b);
        assert((a + b)[0] == a[0]);
        assert(encode_utf8(a + b) =~= encode_scalar(a[0] as u32) + encode_utf8(a.drop_first() + b));
        assert(encode_utf8(a) + encode_utf8(b) =~= encode_scalar(a[0] as u32) + (encode_utf8(
            a.drop_first(),
        ) + encode_utf8(b)));
    }
}

/// The encoding of a single character is never empty.
pub proof fn lemma_encode_scalar_nonempty(c: char)
    ensures
        1 <= encode_scalar(c as u32).len() <= 4,
{
    char_is_scalar(c);
}

/// The encoding of a one-character sequence is the encoding of that character;
/// an ASCII character takes one byte.
pub proof fn lemma_encode_single(c: char)
    ensures
        encode_utf8(seq![c]) == encode_scalar(c as u32),
        (c as u32) < 0x80 ==> encode_utf8(seq![c]).len() == 1,
{
    assert(seq![c].drop_first() =~= Seq::<char>::empty());
    assert(encode_utf8(Seq::<char>::empty()) =~= Seq::<u8>::empty());
    assert(encode_utf8(seq![c]) =~= encode_scalar(c as u32) + encode_utf8(seq![c].drop_first()));
}

/// The byte length of the encoding of a prefix never exceeds that of the whole.
pub proof fn lemma_encode_take_len(s: Seq<char>, i: int)
    requires
        0 <= i <= s.len(),
    ensures
        encode_utf8(s.take(i)).len() <= encode_utf8(s).len(),
{
    lemma_encode_concat(s.take(i), s.skip(i));
    assert(s.take(i) + s.skip(i) =~= s);
}

/// The end of the encoding of `a` is a character boundary of the encoding of `a + b`.
pub proof fn lemma_encode_boundary(a: Seq<char>, b: Seq<char>)
    ensures
        is_char_boundary(encode_utf8(a + b), encode_utf8(a).len() as int),
    decreases a.len(),
{
    if a.len() > 0 {
        let bytes = encode_utf8(a + b);
        lemma_encode_concat(a, b);
        encode_utf8_first_scalar(a + b);
        assert((a + b)[0] == a[0]);
        assert((a + b).drop_first() =~= a.drop_first() + b);
        assert(pop_first_scalar(bytes) =~= encode_utf8(a.drop_first() + b));
        lemma_encode_scalar_nonempty(a[0]);
        lemma_encode_boundary(a.drop_first(), b);
        assert(encode_utf8(a).len() == encode_scalar(a[0] as u32).len() + encode_utf8(
            a.drop_first(),
        ).len());
    }
}

/// Two character sequences with equal encodings are equal.
pub proof fn lemma_encode_injective(a: Seq<char>, b: Seq<char>)
    requires
        encode_utf8(a) == encode_utf8(b),
    ensures
        a == b,
{
    assert(decode_utf8(encode_utf8(a)) == a);
    assert(decode_utf8(encode_utf8(b)) == b);
}

/// Number of bytes in the UTF-8 encoding of `c` (as `char::len_utf8` computes it).
pub fn utf8_len(c: char) -> (n: usize)
    ensures
        n == encode_scalar(c as u32).len(),
{
    proof {
        char_is_scalar(c);
    }
    let u = c as u32;
    if u < 0x80 {
        1
    } else if u < 0x800 {
        2
    } else if u < 0x10000 {
        3
    } else {
        4
    }
}

/// Splits `s` after its first `n` characters, where `k` is the byte length of those characters.
pub(crate) fn split_chars_at<'a>(s: &'a str, n: Ghost<int>, k: usize) -> (r: (&'a str, &'a str))
    requires
        0 <= n@ <= s@.len(),
        k == encode_utf8(s@.take(n@)).len(),
    ensures
        r.0@ == s@.take(n@),
        r.1@ == s@.skip(n@),
{
    let ghost a = s@.take(n@);
    let ghost b = s@.skip(n@);
    proof {
        assert(a + b =~= s@);
        lemma_encode_boundary(a, b);
        lemma_encode_concat(a, b);
        assert(encode_utf8(s@).subrange(0, k as int) =~= encode_utf8(a));
        assert(encode_utf8(s@).subrange(k as int, encode_utf8(s@).len() as int) =~= encode_utf8(b));
    }
    let r = s.split_at(k);
    proof {
        lemma_encode_injective(r.0@, a);
        lemma_encode_injective(r.1@, b);
    }
    r
}

// ---------------------------------------------------------------------------
// Character classes and case mappings of the standard library
// ---------------------------------------------------------------------------

/// The characters with the Unicode `White_Space` property.
pub open spec fn is_white_space(c: char) -> bool {
    let u = c as u32;
    ||| 0x09 <= u <= 0x0D
    ||| u == 0x20
    ||| u == 0x85
    ||| u == 0xA0
    ||| u == 0x1680
    ||| 0x2000 <= u <= 0x200A
    ||| u == 0x2028
    ||| u == 0x2029
    ||| u == 0x202F
    ||| u == 0x205F
    ||| u == 0x3000
}

/// Whether `char::is_alphanumeric` holds of a character (Unicode `Alphabetic`
/// or numeric).
pub uninterp spec fn is_alphanumeric_char(c: char) -> bool;

/// Whether `char::is_alphabetic` holds of a character (Unicode `Alphabetic`).
pub uninterp spec fn is_alphabetic_char(c: char) -> bool;

/// The characters that `char::to_uppercase` yields for a character.
pub uninterp spec fn upper_of_char(c: char) -> Seq<char>;

/// The characters that `char::to_lowercase` yields for a character.
pub uninterp spec fn lower_of_char(c: char) -> Seq<char>;

/// The text that `str::to_uppercase` returns for a text.
pub uninterp spec fn upper_of_text(s: Seq<char>) -> Seq<char>;

/// The text that `str::to_lowercase` returns for a text.
pub uninterp spec fn lower_of_text(s: Seq<char>) -> Seq<char>;

/// Whether `c` has the Unicode `White_Space` property, the test that
/// `char::is_whitespace` makes.
pub fn is_whitespace(c: char) -> (r: bool)
    ensures
        r == is_white_space(c),
{
    let u = c as u32;
    (0x09 <= u && u <= 0x0D) || u == 0x20 || u == 0x85 || u == 0xA0 || u == 0x1680 || (0x2000 <= u
        && u <= 0x200A) || u == 0x2028 || u == 0x2029 || u == 0x202F || u == 0x205F || u == 0x3000
}

/// `char::is_alphanumeric`; its result is named, not spelled out.
#[verifier::external_body]
pub(crate) fn is_alphanumeric(c: char) -> (r: bool)
    ensures
        r == is_alphanumeric_char(c),
{
    c.is_alphanumeric()
}

/// `char::is_alphabetic`; its result is named, not spelled out.
#[verifier::external_body]
pub(crate) fn is_alphabetic(c: char) -> (r: bool)
    ensures
        r == is_alphabetic_char(c),
{
    c.is_alphabetic()
}

/// `char::to_uppercase`, collected into a string. The standard library
/// documents that the mapping yields one or more characters.
#[verifier::external_body]
pub(crate) fn char_to_uppercase(c: char) -> (r: String)
    ensures
        r@ == upper_of_char(c),
        r@.len() >= 1,
{
    c.to_uppercase().collect()
}

/// `char::to_lowercase`, collected into a string. The standard library
/// documents that the mapping yields one or more characters.
#[verifier::external_body]
pub(crate) fn char_to_lowercase(c: char) -> (r: String)
    ensures
        r@ == lower_of_char(c),
        r@.len() >= 1,
{
    c.to_lowercase().collect()
}

/// `str::to_uppercase`; its result is named, not spelled out.
#[verifier::external_body]
pub(crate) fn text_to_uppercase(s: &str) -> (r: String)
    ensures
        r@ == upper_of_text(s@),
{
    s.to_uppercase()
}

/// `str::to_lowercase`; its result is named, not spelled out.
#[verifier::external_body]
pub(crate) fn text_to_lowercase(s: &str) -> (r: String)
    ensures
        r@ == lower_of_text(s@),
{
    s.to_lowercase()
}

// ---------------------------------------------------------------------------
// Words: maximal runs of non-whitespace
// ---------------------------------------------------------------------------

/// The maximal runs of non-whitespace characters of `s`, in order.
pub open spec fn spec_words(s: Seq<char>) -> Seq<Seq<char>>
    decreases s.len(),
{
    if s.len() == 0 {
        Seq::empty()
    } else {
        let init = spec_words(s.drop_last());
        let c = s.last();
        if is_white_space(c) {
            init
        } else if s.len() >= 2 && !is_white_space(s[s.len() - 2]) {
            init.update(init.len() - 1, init.last().push(c))
        } else {
            init.push(seq![c])
        }
    }
}

/// The views of a sequence of character vectors.
pub open spec fn char_views(v: Seq<Vec<char>>) -> Seq<Seq<char>> {
    v.map_values(|w: Vec<char>| w@)
}

/// A word: a non-empty run of characters none of which is whitespace.
pub open spec fn is_word(w: Seq<char>) -> bool {
    w.len() > 0 && forall|j: int| 0 <= j < w.len() ==> !is_white_space(#[trigger] w[j])
}

/// Every word of `s` is a word, and text that ends in a non-whitespace
/// character has at least one word.
pub proof fn lemma_words_shape(s: Seq<char>)
    ensures
        forall|i: int| 0 <= i < spec_words(s).len() ==> is_word(#[trigger] spec_words(s)[i]),
        s.len() > 0 && !is_white_space(s.last()) ==> spec_words(s).len() > 0,
    decreases s.len(),
{
    if s.len() > 0 {
        let p = s.drop_last();
        lemma_words_shape(p);
        let init = spec_words(p);
        let c = s.last();
        if !is_white_space(c) {
            if s.len() >= 2 && !is_white_space(s[s.len() - 2]) {
                assert(p.last() == s[s.len() - 2]);
                let w = init.last().push(c);
                assert(is_word(init[init.len() - 1]));
                assert forall|j: int| 0 <= j < w.len() implies !is_white_space(#[trigger] w[j]) by {
                    if j < w.len() - 1 {
                        assert(w[j] == init[init.len() - 1][j]);
                    }
                }
            } else {
                assert(is_word(seq![c]));
            }
        }
    }
}

/// A trailing whitespace character adds no word.
pub proof fn lemma_words_push_space(s: Seq<char>, c: char)
    requires
        is_white_space(c),
    ensures
        spec_words(s.push(c)) == spec_words(s),
{
    assert(s.push(c).drop_last() =~= s);
}

/// Text that ends in whitespace (or is empty) followed by more text: the
/// words are those of the first part, then those of the second.
pub proof fn lemma_words_concat(a: Seq<char>, b: Seq<char>)
    requires
        a.len() == 0 || is_white_space(a.last()),
    ensures
        spec_words(a + b) == spec_words(a) + spec_words(b),
    decreases b.len(),
{
    if b.len() == 0 {
        assert(a + b =~= a);
        assert(spec_words(a) + spec_words(b) =~= spec_words(a));
    } else {
        let bp = b.drop_last();
        let c = b.last();
        lemma_words_concat(a, bp);
        assert((a + b).drop_last() =~= a + bp);
        assert((a + b).last() == c);
        assert(b.drop_last() =~= bp);
        let wa = spec_words(a);
        let wb = spec_words(bp);
        if is_white_space(c) {
        } else if bp.len() >= 1 {
            assert((a + b)[(a + b).len() - 2] == bp.last());
            assert(b[b.len() - 2] == bp.last());
            if !is_white_space(bp.last()) {
                lemma_words_shape(bp);
                assert(spec_words(a + b) =~= (wa + wb).update(
                    (wa + wb).len() - 1,
                    (wa + wb).last().push(c),
                ));
                assert(spec_words(a + b) =~= wa + wb.update(wb.len() - 1, wb.last().push(c)));
            } else {
                assert(spec_words(a + b) =~= wa + wb.push(seq![c]));
            }
        } else {
            assert(bp =~= Seq::<char>::empty());
            assert(spec_words(bp) =~= Seq::<Seq<char>>::empty());
            if a.len() >= 1 {
                assert((a + b)[(a + b).len() - 2] == a.last());
            }
            assert(spec_words(a + b) =~= wa.push(seq![c]));
            assert(spec_words(b) =~= seq![seq![c]]);
        }
    }
}

/// Whether a word of `a` and a word of `b` merge into one when `b` follows
/// `a` directly: `a` ends and `b` starts with a non-whitespace character.
pub open spec fn words_merge(a: Seq<char>, b: Seq<char>) -> bool {
    a.len() > 0 && b.len() > 0 && !is_white_space(a.last()) && !is_white_space(b[0])
}

/// The words of two texts put together: those of each, one fewer when a
/// word is cut at the join.
pub proof fn lemma_words_len_concat(a: Seq<char>, b: Seq<char>)
    ensures
        spec_words(a + b).len() + (if words_merge(a, b) { 1int } else { 0int }) == spec_words(a).len()
            + spec_words(b).len(),
    decreases b.len(),
{
    if b.len() == 0 {
        assert(a + b =~= a);
    } else {
        let bp = b.drop_last();
        let c = b.last();
        lemma_words_len_concat(a, bp);
        assert((a + b).drop_last() =~= a + bp);
        assert((a + b).last() == c);
        assert(b.drop_last() =~= bp);
        if bp.len() > 0 {
            assert(b[0] == bp[0]);
            assert((a + bp).last() == bp.last());
        } else {
            assert(a + bp =~= a);
            assert(b[0] == c);
            assert(spec_words(bp) =~= Seq::<Seq<char>>::empty());
        }
        if !is_white_space(c) {
            if bp.len() >= 1 {
                assert((a + b)[(a + b).len() - 2] == bp.last());
                assert(b[b.len() - 2] == bp.last());
                lemma_words_shape(bp);
                lemma_words_shape(a + bp);
            } else if a.len() >= 1 {
                assert((a + b)[(a + b).len() - 2] == a.last());
                lemma_words_shape(a);
            }
        }
    }
}

/// A word is its own only word.
pub proof fn lemma_words_of_word(w: Seq<char>)
    requires
        is_word(w),
    ensures
        spec_words(w) == seq![w],
    decreases w.len(),
{
    let p = w.drop_last();
    if p.len() == 0 {
        assert(spec_words(p) =~= Seq::<Seq<char>>::empty());
        assert(seq![w.last()] =~= w);
    } else {
        assert forall|j: int| 0 <= j < p.len() implies !is_white_space(#[trigger] p[j]) by {
            assert(p[j] == w[j]);
        }
        lemma_words_of_word(p);
        assert(w[w.len() - 2] == p[p.len() - 1]);
        assert(p.push(w.last()) =~= w);
        assert(spec_words(w) =~= seq![w]);
    }
}

/// The words of a character sequence.
pub fn words_of(cs: &Vec<char>) -> (ws: Vec<Vec<char>>)
    ensures
        char_views(ws@) == spec_words(cs@),
{
    let mut ws: Vec<Vec<char>> = Vec::new();
    let mut cur: Vec<char> = Vec::new();
    let mut i: usize = 0;
    let mut in_word = false;
    while i < cs.len()
        invariant
            i <= cs@.len(),
            in_word == (i > 0 && !is_white_space(cs@[i - 1])),
            in_word ==> spec_words(cs@.take(i as int)).len() > 0,
            in_word ==> char_views(ws@).push(cur@) == spec_words(cs@.take(i as int)),
            !in_word ==> char_views(ws@) == spec_words(cs@.take(i as int)),
        decreases cs@.len() - i,
    {
        let c = cs[i];
        let ws_c = is_whitespace(c);
        proof {
            assert(cs@.take(i + 1).drop_last() =~= cs@.take(i as int));
            assert(cs@.take(i + 1).last() == c);
            if i >= 1 {
                assert(cs@.take(i + 1)[i - 1] == cs@[i - 1]);
            }
        }
        if ws_c {
            if in_word {
                let ghost before = char_views(ws@);
                let w = cur;
                ws.push(w);
                cur = Vec::new();
                proof {
                    assert(char_views(ws@) =~= before.push(w@));
                }
            }
            in_word = false;
        } else {
            let ghost before_cur = cur@;
            if !in_word {
                cur = Vec::new();
            }
            let ghost prior = cur@;
            cur.push(c);
            proof {
                let sw = spec_words(cs@.take(i as int));
                if in_word {
                    assert(char_views(ws@).push(cur@) =~= sw.update(sw.len() - 1, sw.last().push(c)));
                } else {
                    assert(cur@ =~= seq![c]);
                    assert(char_views(ws@).push(cur@) =~= sw.push(seq![c]));
                }
            }
            in_word = true;
        }
        i = i + 1;
    }
    if in_word {
        let ghost before = char_views(ws@);
        let w = cur;
        ws.push(w);
        proof {
            assert(char_views(ws@) =~= before.push(w@));
        }
    }
    proof {
        assert(cs@.take(cs@.len() as int) =~= cs@);
    }
    ws
}

// ---------------------------------------------------------------------------
// Decimal numerals and building strings
// ---------------------------------------------------------------------------

/// The decimal digit character for `d < 10`.
pub open spec fn digit_char(d: nat) -> char {
    ((d + 48) as u8) as char
}

/// The decimal numeral of `n`, without leading zeros (`"0"` for zero).
pub open spec fn spec_decimal(n: nat) -> Seq<char>
    decreases n,
{
    if n < 10 {
        seq![digit_char(n)]
    } else {
        spec_decimal(n / 10).push(digit_char(n % 10))
    }
}

/// A numeral has at least one digit.
pub proof fn lemma_decimal_nonempty(n: nat)
    ensures
        spec_decimal(n).len() >= 1,
    decreases n,
{
    if n >= 10 {
        lemma_decimal_nonempty(n / 10);
    }
}

/// Appends the decimal numeral of `n` to `out`.
pub fn push_decimal(out: &mut String, n: usize)
    ensures
        final(out)@ == old(out)@ + spec_decimal(n as nat),
    decreases n,
{
    if n >= 10 {
        push_decimal(out, n / 10);
    }
    let d = (n % 10) as u8;
    let c = (d + 48) as char;
    push_char(out, c);
    proof {
        if n >= 10 {
            assert(old(out)@ + spec_decimal(n as nat) =~= old(out)@ + spec_decimal((n / 10) as nat)
                + seq![c]);
        }
    }
}

/// The decimal numeral of `n` as a string (what `usize::to_string` gives).
pub fn decimal(n: usize) -> (s: String)
    ensures
        s@ == spec_decimal(n as nat),
{
    let mut s = String::new();
    push_decimal(&mut s, n);
    assert(Seq::<char>::empty() + spec_decimal(n as nat) =~= spec_decimal(n as nat));
    s
}

/// A copy of a character vector.
pub fn copy_chars(v: &Vec<char>) -> (r: Vec<char>)
    ensures
        r@ == v@,
{
    let r = v.clone();
    assert(r@ =~= v@);
    r
}

/// A string holding the given characters.
pub fn string_of(cs: &Vec<char>) -> (s: String)
    ensures
        s@ == cs@,
{
    let mut s = String::new();
    let mut i: usize = 0;
    while i < cs.len()
        invariant
            i <= cs@.len(),
            s@ == cs@.take(i as int),
        decreases cs@.len() - i,
    {
        push_char(&mut s, cs[i]);
        assert(cs@.take(i + 1) =~= cs@.take(i as int).push(cs@[i as int]));
        i = i + 1;
    }
    assert(cs@.take(cs@.len() as int) =~= cs@);
    s
}

} // verus!
