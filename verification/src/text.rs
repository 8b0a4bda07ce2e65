//! Character sequences: conversion between strings and character vectors,
//! trimming, whitespace-separated words and literal substring counting.

use vstd::prelude::*;

verus! {

/// Whether `c` carries the Unicode `White_Space` property.
pub open spec fn is_whitespace(c: char) -> bool {
    let n = c as u32;
    ||| 0x09 <= n <= 0x0D
    ||| n == 0x20
    ||| n == 0x85
    ||| n == 0xA0
    ||| n == 0x1680
    ||| 0x2000 <= n <= 0x200A
    ||| n == 0x2028
    ||| n == 0x2029
    ||| n == 0x202F
    ||| n == 0x205F
    ||| n == 0x3000
}

/// `s` without its leading whitespace.
pub open spec fn trim_start(s: Seq<char>) -> Seq<char>
    decreases s.len(),
{
    if s.len() > 0 && is_whitespace(s[0]) {
        trim_start(s.drop_first())
    } else {
        s
    }
}

/// `s` without its trailing whitespace.
pub open spec fn trim_end(s: Seq<char>) -> Seq<char>
    decreases s.len(),
{
    if s.len() > 0 && is_whitespace(s.last()) {
        trim_end(s.drop_last())
    } else {
        s
    }
}

/// `s` without leading and trailing whitespace.
pub open spec fn trim(s: Seq<char>) -> Seq<char> {
    trim_end(trim_start(s))
}

/// Length of the longest prefix of `s` that holds no whitespace.
pub open spec fn word_len(s: Seq<char>) -> nat
    decreases s.len(),
{
    if s.len() == 0 || is_whitespace(s[0]) {
        0
    } else {
        1 + word_len(s.drop_first())
    }
}

/// The maximal runs of non-whitespace characters of `s`, in order.
pub open spec fn split_words(s: Seq<char>) -> Seq<Seq<char>>
    decreases s.len(),
    via split_words_decreases
{
    if s.len() == 0 {
        Seq::empty()
    } else if is_whitespace(s[0]) {
        split_words(s.drop_first())
    } else {
        let n = word_len(s) as int;
        seq![s.take(n)] + split_words(s.skip(n))
    }
}

/// The first word of text that starts with none is not empty, so what
/// follows it is shorter than the text.
#[via_fn]
proof fn split_words_decreases(s: Seq<char>) {
    if s.len() > 0 && !is_whitespace(s[0]) {
        lemma_word_len_bound(s);
    }
}

/// Number of whitespace-separated words in `s`.
pub open spec fn word_count(s: Seq<char>) -> nat {
    split_words(s).len()
}

/// Calls `char::is_whitespace`, which tests the `White_Space` property: the
/// code points that the standard library's table lists are the ones named in
/// `is_whitespace`.
#[verifier::external_body]
pub(crate) fn char_is_whitespace(c: char) -> (b: bool)
    ensures
        b == is_whitespace(c),
{
    c.is_whitespace()
}

/// Calls `String::from_iter` on the characters of `v`: a string made of
/// exactly those characters, in order.
#[verifier::external_body]
pub(crate) fn string_from_chars(v: &Vec<char>) -> (s: String)
    ensures
        s@ == v@,
{
    String::from_iter(v.iter())
}

/// The characters of `s`, in order.
pub fn to_chars(s: &str) -> (out: Vec<char>)
    ensures
        out@ == s@,
{
    let mut out: Vec<char> = Vec::new();
    for c in iter: s.chars()
        invariant
            iter.seq() == s@,
            out@ == iter.seq().take(iter.index()),
    {
        out.push(c);
    }
    out
}

/// Whether two strings hold the same characters.
pub fn same_text(a: &str, b: &str) -> (same: bool)
    ensures
        same == (a@ == b@),
{
    let x = to_chars(a);
    let y = to_chars(b);
    if x.len() != y.len() {
        return false;
    }
    let mut i: usize = 0;
    while i < x.len()
        invariant
            i <= x.len() == y.len(),
            x@ == a@,
            y@ == b@,
            x@.take(i as int) == y@.take(i as int),
        decreases x.len() - i,
    {
        if x[i] != y[i] {
            proof {
                assert(a@[i as int] != b@[i as int]);
            }
            return false;
        }
        proof {
            assert(x@.take(i as int + 1) == x@.take(i as int).push(x@[i as int]));
            assert(y@.take(i as int + 1) == y@.take(i as int).push(y@[i as int]));
        }
        i = i + 1;
    }
    proof {
        assert(x@.take(x.len() as int) == x@);
        assert(y@.take(y.len() as int) == y@);
    }
    true
}

/// The first word of `s` lies within `s`, holds no whitespace, and ends where
/// `s` ends or whitespace follows.
pub proof fn lemma_word_len_bound(s: Seq<char>)
    ensures
        word_len(s) <= s.len(),
        forall|i: int| 0 <= i < word_len(s) ==> !is_whitespace(#[trigger] s[i]),
        word_len(s) < s.len() ==> is_whitespace(s[word_len(s) as int]),
    decreases s.len(),
{
    if s.len() == 0 || is_whitespace(s[0]) {
    } else {
        let t = s.drop_first();
        lemma_word_len_bound(t);
        assert forall|i: int| 0 <= i < word_len(s) implies !is_whitespace(#[trigger] s[i]) by {
            if i > 0 {
                assert(s[i] == t[i - 1]);
            }
        }
        if word_len(s) < s.len() {
            assert(s[word_len(s) as int] == t[word_len(t) as int]);
        }
    }
}

/// The first word of `a + b` ends inside `a` where the first word of `a`
/// does, and otherwise runs on into `b`.
pub proof fn lemma_word_len_concat(a: Seq<char>, b: Seq<char>)
    ensures
        word_len(a + b) == if word_len(a) < a.len() {
            word_len(a)
        } else {
            a.len() + word_len(b)
        },
    decreases a.len(),
{
    lemma_word_len_bound(a);
    if a.len() == 0 {
        assert(a + b == b);
    } else {
        assert((a + b)[0] == a[0]);
        if !is_whitespace(a[0]) {
            assert((a + b).drop_first() == a.drop_first() + b);
            lemma_word_len_concat(a.drop_first(), b);
        }
    }
}

/// Words do not run across a boundary that has whitespace on either side:
/// the words of `a + b` are those of `a` followed by those of `b`.
pub proof fn lemma_split_words_concat(a: Seq<char>, b: Seq<char>)
    requires
        a.len() == 0 || b.len() == 0 || is_whitespace(a.last()) || is_whitespace(b[0]),
    ensures
        split_words(a + b) == split_words(a) + split_words(b),
    decreases a.len(),
{
    if a.len() == 0 {
        assert(a + b == b);
        assert(split_words(a) + split_words(b) == split_words(b));
    } else if b.len() == 0 {
        assert(a + b == a);
        assert(split_words(a) + split_words(b) == split_words(a));
    } else {
        assert((a + b)[0] == a[0]);
        if is_whitespace(a[0]) {
            let t = a.drop_first();
            assert((a + b).drop_first() == t + b);
            if t.len() > 0 {
                assert(t.last() == a.last());
            }
            lemma_split_words_concat(t, b);
        } else {
            lemma_word_len_bound(a);
            lemma_word_len_bound(b);
            lemma_word_len_concat(a, b);
            let n = word_len(a) as int;
            if n < a.len() {
                let t = a.skip(n);
                assert(t.last() == a.last());
                assert((a + b).take(n) == a.take(n));
                assert((a + b).skip(n) == t + b);
                lemma_split_words_concat(t, b);
                assert(split_words(a + b) == seq![a.take(n)] + (split_words(t) + split_words(b)));
                assert(seq![a.take(n)] + (split_words(t) + split_words(b)) == (seq![a.take(n)]
                    + split_words(t)) + split_words(b));
            } else {
                assert(!is_whitespace(a[n - 1]));
                assert(word_len(b) == 0);
                assert((a + b).take(n) == a);
                assert((a + b).skip(n) == b);
                assert(a.take(n) == a);
                assert(a.skip(n) == Seq::<char>::empty());
                assert(split_words(Seq::<char>::empty()) == Seq::<Seq<char>>::empty());
                assert(split_words(a) == seq![a] + Seq::<Seq<char>>::empty());
            }
        }
    }
}

/// Leading whitespace holds no word.
proof fn lemma_split_words_trim_start(s: Seq<char>)
    ensures
        split_words(trim_start(s)) == split_words(s),
    decreases s.len(),
{
    if s.len() > 0 && is_whitespace(s[0]) {
        lemma_split_words_trim_start(s.drop_first());
    }
}

/// Trailing whitespace holds no word.
proof fn lemma_split_words_trim_end(s: Seq<char>)
    ensures
        split_words(trim_end(s)) == split_words(s),
    decreases s.len(),
{
    if s.len() > 0 && is_whitespace(s.last()) {
        let t = s.drop_last();
        let w = seq![s.last()];
        lemma_split_words_trim_end(t);
        assert(s == t + w);
        lemma_split_words_concat(t, w);
        assert(w[0] == s.last());
        assert(w.drop_first() == Seq::<char>::empty());
        assert(split_words(Seq::<char>::empty()) == Seq::<Seq<char>>::empty());
        assert(split_words(w) == Seq::<Seq<char>>::empty());
        assert(split_words(t) + split_words(w) == split_words(t));
    }
}

/// Trimming undoes a space appended to text that holds a word, and leaves
/// such text not empty.
pub proof fn lemma_trim_push_space(s: Seq<char>)
    requires
        word_count(s) > 0,
    ensures
        trim(s.push(' ')) == trim(s),
        trim(s).len() > 0,
{
    lemma_split_words_trim_start(s);
    lemma_split_words_trim(s);
    assert(split_words(Seq::<char>::empty()) == Seq::<Seq<char>>::empty());
    lemma_trim_start_push(s, ' ');
    let t = trim_start(s).push(' ');
    assert(is_whitespace(' '));
    assert(t.last() == ' ');
    assert(t.drop_last() == trim_start(s));
}

/// Text that does not consist of whitespace keeps a character appended to
/// it when its leading whitespace goes.
proof fn lemma_trim_start_push(s: Seq<char>, c: char)
    requires
        trim_start(s).len() > 0,
    ensures
        trim_start(s.push(c)) == trim_start(s).push(c),
    decreases s.len(),
{
    if s.len() > 0 {
        assert(s.push(c)[0] == s[0]);
        if is_whitespace(s[0]) {
            assert(s.push(c).drop_first() == s.drop_first().push(c));
            lemma_trim_start_push(s.drop_first(), c);
        }
    }
}

/// Text without a word is whitespace throughout.
proof fn lemma_no_words_nothing_left(s: Seq<char>)
    requires
        word_count(s) == 0,
    ensures
        trim_start(s).len() == 0,
    decreases s.len(),
{
    if s.len() > 0 {
        if is_whitespace(s[0]) {
            lemma_no_words_nothing_left(s.drop_first());
        } else {
            lemma_word_len_bound(s);
        }
    }
}

/// Text of which trimming leaves something holds a word.
pub proof fn lemma_trimmed_text_holds_word(s: Seq<char>)
    requires
        trim(s).len() > 0,
    ensures
        word_count(s) > 0,
        word_count(trim(s)) > 0,
{
    lemma_split_words_trim(s);
    if word_count(s) == 0 {
        lemma_no_words_nothing_left(s);
        assert(trim_start(s) == Seq::<char>::empty());
    }
}

/// Leading and trailing whitespace holds no word.
pub proof fn lemma_split_words_trim(s: Seq<char>)
    ensures
        split_words(trim(s)) == split_words(s),
{
    lemma_split_words_trim_start(s);
    lemma_split_words_trim_end(trim_start(s));
}

/// Copy of `v[lo..hi]`.
pub fn slice_chars(v: &Vec<char>, lo: usize, hi: usize) -> (out: Vec<char>)
    requires
        lo <= hi <= v.len(),
    ensures
        out@ == v@.subrange(lo as int, hi as int),
{
    let mut out: Vec<char> = Vec::new();
    let mut i: usize = lo;
    while i < hi
        invariant
            lo <= i <= hi <= v.len(),
            out@ == v@.subrange(lo as int, i as int),
        decreases hi - i,
    {
        out.push(v[i]);
        i = i + 1;
    }
    out
}

/// Removes leading and trailing whitespace.
pub fn trim_chars(v: &Vec<char>) -> (out: Vec<char>)
    ensures
        out@ == trim(v@),
{
    let n: usize = v.len();
    let mut lo: usize = 0;
    proof {
        assert(v@.skip(0) == v@);
    }
    while lo < n && char_is_whitespace(v[lo])
        invariant
            lo <= n == v.len(),
            trim_start(v@) == trim_start(v@.skip(lo as int)),
        decreases n - lo,
    {
        proof {
            let t = v@.skip(lo as int);
            assert(t[0] == v@[lo as int]);
            assert(t.drop_first() == v@.skip(lo as int + 1));
        }
        lo = lo + 1;
    }
    proof {
        let t = v@.skip(lo as int);
        if lo < n {
            assert(t[0] == v@[lo as int]);
        }
        assert(trim_start(t) == t);
        assert(t == v@.subrange(lo as int, n as int));
    }
    let mut hi: usize = n;
    while hi > lo && char_is_whitespace(v[hi - 1])
        invariant
            lo <= hi <= n == v.len(),
            trim(v@) == trim_end(v@.subrange(lo as int, hi as int)),
        decreases hi - lo,
    {
        proof {
            let t = v@.subrange(lo as int, hi as int);
            assert(t.last() == v@[hi as int - 1]);
            assert(t.drop_last() == v@.subrange(lo as int, hi as int - 1));
        }
        hi = hi - 1;
    }
    proof {
        let t = v@.subrange(lo as int, hi as int);
        if hi > lo {
            assert(t.last() == v@[hi as int - 1]);
        }
        assert(trim_end(t) == t);
    }
    slice_chars(v, lo, hi)
}

/// The character sequences that the strings of `v` hold.
pub open spec fn string_views(v: Seq<String>) -> Seq<Seq<char>> {
    v.map_values(|s: String| s@)
}

/// The character sequences that the vectors of `words` hold.
pub open spec fn word_views(words: Seq<Vec<char>>) -> Seq<Seq<char>> {
    words.map_values(|w: Vec<char>| w@)
}

/// End of the word that starts at `start`: the first index from `start` on
/// that holds whitespace, or the length of `v`.
fn word_end(v: &Vec<char>, start: usize) -> (end: usize)
    requires
        start <= v.len(),
    ensures
        start <= end <= v.len(),
        end - start == word_len(v@.skip(start as int)),
{
    let n: usize = v.len();
    let mut j: usize = start;
    while j < n && !char_is_whitespace(v[j])
        invariant
            start <= j <= n == v.len(),
            word_len(v@.skip(start as int)) == (j - start) + word_len(v@.skip(j as int)),
        decreases n - j,
    {
        proof {
            let t = v@.skip(j as int);
            assert(t[0] == v@[j as int]);
            assert(t.drop_first() == v@.skip(j as int + 1));
        }
        j = j + 1;
    }
    proof {
        let t = v@.skip(j as int);
        if j < n {
            assert(t[0] == v@[j as int]);
        }
    }
    j
}

/// Splits on whitespace, as `str::split_whitespace` does.
pub fn split_into_words(v: &Vec<char>) -> (out: Vec<Vec<char>>)
    ensures
        word_views(out@) == split_words(v@),
{
    let n: usize = v.len();
    let mut out: Vec<Vec<char>> = Vec::new();
    let mut i: usize = 0;
    proof {
        assert(v@.skip(0) == v@);
        assert(word_views(out@) + split_words(v@) == split_words(v@));
    }
    while i < n
        invariant
            i <= n == v.len(),
            word_views(out@) + split_words(v@.skip(i as int)) == split_words(v@),
        decreases n - i,
    {
        let ghost rest = v@.skip(i as int);
        proof {
            assert(rest[0] == v@[i as int]);
        }
        if char_is_whitespace(v[i]) {
            proof {
                assert(rest.drop_first() == v@.skip(i as int + 1));
            }
            i = i + 1;
        } else {
            let end = word_end(v, i);
            let word = slice_chars(v, i, end);
            proof {
                let k = (end - i) as int;
                assert(rest.take(k) == v@.subrange(i as int, end as int));
                assert(rest.skip(k) == v@.skip(end as int));
                assert(word_views(out@.push(word)) == word_views(out@).push(word@));
                assert(word_views(out@).push(word@) + split_words(v@.skip(end as int))
                    == word_views(out@) + split_words(rest));
            }
            out.push(word);
            i = end;
        }
    }
    proof {
        assert(word_views(out@) + Seq::<Seq<char>>::empty() == word_views(out@));
    }
    out
}

/// Counts the whitespace-separated words, as `str::split_whitespace` followed
/// by `count` does.
pub fn count_words(v: &Vec<char>) -> (count: usize)
    ensures
        count == word_count(v@),
{
    let n: usize = v.len();
    let mut count: usize = 0;
    let mut i: usize = 0;
    proof {
        assert(v@.skip(0) == v@);
    }
    while i < n
        invariant
            i <= n == v.len(),
            count <= i,
            count + word_count(v@.skip(i as int)) == word_count(v@),
        decreases n - i,
    {
        let ghost rest = v@.skip(i as int);
        proof {
            assert(rest[0] == v@[i as int]);
        }
        if char_is_whitespace(v[i]) {
            proof {
                assert(rest.drop_first() == v@.skip(i as int + 1));
            }
            i = i + 1;
        } else {
            let end = word_end(v, i);
            proof {
                let k = (end - i) as int;
                assert(rest.skip(k) == v@.skip(end as int));
            }
            count = count + 1;
            i = end;
        }
    }
    count
}

} // verus!
